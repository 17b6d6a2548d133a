//! The main window: which items a directory shows and in which order, what is
//! decoded ahead, and what the status line says.
use vstd::arithmetic::power2::{lemma2_to64, lemma_pow2_adds, lemma_pow2_pos, pow2};
use vstd::prelude::*;
use vstd::seq_lib::*;

use crate::double::Double;
use crate::layout::justified::JustifiedLayout;
use crate::models::media_item::{type_of_extension, MediaItem, MediaType};
use crate::models::row_model::{are_rows, RowModel};
use crate::paths::{
    extension, file_name, is_same_path, join, joined, lowercase, parent, path_extension,
    path_file_name, path_le, path_parent, same_path, text_view,
};
use crate::single::{of_whole, Single};
use crate::sorting::{
    is_permutation, is_sorted, permutation_has_all, permutation_is_within, sort_paths, sorts_before,
};
use crate::text::{decimal, from_chars, push_number, to_chars, trim_chars, trimmed};
use crate::ui::texture_cache::PrefetchKind;
use crate::ui::viewer::PrefetchItem;

verus! {

/// A picture of no more pixels than this is decoded at its full size ahead of time.
pub const SMALL_IMAGE_MAX_PIXELS: u64 = 2_000_000;

/// How many items on either side of the selected one are decoded ahead of time.
pub const PREFETCH_RADIUS: usize = 24;

/// The size that a picture is taken to have when it cannot be read.
pub const UNKNOWN_WIDTH: u32 = 1920;

/// The size that a picture is taken to have when it cannot be read.
pub const UNKNOWN_HEIGHT: u32 = 1080;

/// The bits of the width, one hundred, up to which the viewport has no size yet.
pub const NO_VIEWPORT: u32 = 0x42c8_0000;

/// Something that a directory lists.
#[derive(Debug)]
pub struct Listed {
    pub path: String,
    pub is_dir: bool,
    pub is_file: bool,
    /// The size of the picture, where it can be read.
    pub size: Option<(u32, u32)>,
}

/// Whether a name is that of a hidden file.
pub open spec fn hidden(name: Seq<char>) -> bool {
    name.len() > 0 && name[0] == '.'
}

/// Whether a name is that of a hidden file.
pub fn is_hidden(name: &str) -> (r: bool)
    ensures
        r == hidden(name@),
{
    let chars = to_chars(name);
    chars.len() > 0 && chars[0] == '.'
}

/// The folder that something listed is, if it is shown.
pub open spec fn folder_of(e: Listed) -> Option<Seq<char>> {
    if e.is_dir {
        match path_file_name(e.path@) {
            Some(name) => if hidden(name) {
                None
            } else {
                Some(e.path@)
            },
            None => None,
        }
    } else {
        None
    }
}

/// The medium that something listed is, with its size.
pub open spec fn medium_of(e: Listed) -> Option<(Seq<char>, MediaType, u32, u32)> {
    if !e.is_dir && e.is_file {
        match path_extension(e.path@) {
            Some(ext) => match type_of_extension(lowercase(ext)) {
                Some(t) => match e.size {
                    Some((w, h)) => Some((e.path@, t, w, h)),
                    None => Some((e.path@, t, UNKNOWN_WIDTH, UNKNOWN_HEIGHT)),
                },
                None => None,
            },
            None => None,
        }
    } else {
        None
    }
}

/// The folders among what is listed.
pub open spec fn folders_of(list: Seq<Listed>) -> Seq<Seq<char>>
    decreases list.len(),
{
    if list.len() == 0 {
        seq![]
    } else {
        match folder_of(list.last()) {
            Some(f) => folders_of(list.drop_last()).push(f),
            None => folders_of(list.drop_last()),
        }
    }
}

/// The media among what is listed.
pub open spec fn media_of(list: Seq<Listed>) -> Seq<(Seq<char>, MediaType, u32, u32)>
    decreases list.len(),
{
    if list.len() == 0 {
        seq![]
    } else {
        match medium_of(list.last()) {
            Some(m) => media_of(list.drop_last()).push(m),
            None => media_of(list.drop_last()),
        }
    }
}

/// Whether `order` lists places by their paths.
pub open spec fn orders(paths: Seq<String>, order: Seq<usize>) -> bool {
    order.len() == paths.len() && is_sorted(paths, order) && is_permutation(
        order,
        0,
        paths.len() as int,
    )
}

/// Whether paths are the given texts.
pub open spec fn spells(paths: Seq<String>, texts: Seq<Seq<char>>) -> bool {
    paths.len() == texts.len() && forall|i: int|
        0 <= i < paths.len() ==> (#[trigger] paths[i])@ == texts[i]
}

/// Whether paths are those of the given media.
pub open spec fn spells_media(
    paths: Seq<String>,
    media: Seq<(Seq<char>, MediaType, u32, u32)>,
) -> bool {
    paths.len() == media.len() && forall|i: int|
        0 <= i < paths.len() ==> (#[trigger] paths[i])@ == media[i].0
}

/// Whether items are the folders among what is listed, by path.
pub open spec fn are_folders(
    items: Seq<MediaItem>,
    folders: Seq<Seq<char>>,
    paths: Seq<String>,
    order: Seq<usize>,
) -> bool {
    &&& spells(paths, folders)
    &&& orders(paths, order)
    &&& items.len() == folders.len()
    &&& forall|i: int|
        0 <= i < items.len() ==> (#[trigger] items[i]).is_bare(
            folders[order[i] as int],
            MediaType::Folder,
            1,
            1,
        )
}

/// Whether items are the media among what is listed, by path.
pub open spec fn are_media(
    items: Seq<MediaItem>,
    media: Seq<(Seq<char>, MediaType, u32, u32)>,
    paths: Seq<String>,
    order: Seq<usize>,
) -> bool {
    &&& spells_media(paths, media)
    &&& orders(paths, order)
    &&& items.len() == media.len()
    &&& forall|i: int|
        0 <= i < items.len() ==> (#[trigger] items[i]).is_bare(
            media[order[i] as int].0,
            media[order[i] as int].1,
            media[order[i] as int].2,
            media[order[i] as int].3,
        )
}

fn collect_folders(list: &Vec<Listed>) -> (r: Vec<MediaItem>)
    ensures
        exists|paths: Seq<String>, order: Seq<usize>|
            #[trigger] are_folders(r@, folders_of(list@), paths, order),
{
    let mut paths: Vec<String> = Vec::new();
    let mut i: usize = 0;
    while i < list.len()
        invariant
            i <= list@.len(),
            spells(paths@, folders_of(list@.take(i as int))),
        decreases list@.len() - i,
    {
        let e = &list[i];
        assert(list@.take(i + 1).drop_last() =~= list@.take(i as int));
        assert(list@.take(i + 1).last() == *e);
        if e.is_dir {
            if let Some(name) = file_name(&e.path) {
                if !is_hidden(&name) {
                    paths.push(e.path.clone());
                }
            }
        }
        i = i + 1;
    }
    assert(list@.take(list@.len() as int) =~= list@);
    let ghost folders = folders_of(list@);
    let order = sort_paths(&paths);
    let mut out: Vec<MediaItem> = Vec::new();
    let mut k: usize = 0;
    while k < order.len()
        invariant
            k <= order@.len(),
            spells(paths@, folders),
            forall|m: int| 0 <= m < order@.len() ==> (#[trigger] order@[m]) < paths@.len(),
            out@.len() == k,
            forall|m: int|
                0 <= m < k ==> (#[trigger] out@[m]).is_bare(
                    folders[order@[m] as int],
                    MediaType::Folder,
                    1,
                    1,
                ),
        decreases order@.len() - k,
    {
        let p: usize = order[k];
        out.push(MediaItem::new_folder(paths[p].clone()));
        k = k + 1;
    }
    assert(are_folders(out@, folders, paths@, order@));
    out
}

fn collect_media(list: &Vec<Listed>) -> (r: Vec<MediaItem>)
    ensures
        exists|paths: Seq<String>, order: Seq<usize>|
            #[trigger] are_media(r@, media_of(list@), paths, order),
{
    let mut paths: Vec<String> = Vec::new();
    let mut kinds: Vec<(MediaType, u32, u32)> = Vec::new();
    let mut i: usize = 0;
    while i < list.len()
        invariant
            i <= list@.len(),
            spells_media(paths@, media_of(list@.take(i as int))),
            kinds@.len() == paths@.len(),
            forall|k: int|
                0 <= k < kinds@.len() ==> {
                    let m = media_of(list@.take(i as int))[k];
                    #[trigger] kinds@[k] == (m.1, m.2, m.3)
                },
        decreases list@.len() - i,
    {
        let e = &list[i];
        assert(list@.take(i + 1).drop_last() =~= list@.take(i as int));
        assert(list@.take(i + 1).last() == *e);
        if !e.is_dir && e.is_file {
            if let Some(ext) = extension(&e.path) {
                if let Some(t) = MediaType::from_extension(&ext) {
                    let (w, h) = match e.size {
                        Some((w, h)) => (w, h),
                        None => (UNKNOWN_WIDTH, UNKNOWN_HEIGHT),
                    };
                    paths.push(e.path.clone());
                    kinds.push((t, w, h));
                }
            }
        }
        i = i + 1;
    }
    assert(list@.take(list@.len() as int) =~= list@);
    let ghost media = media_of(list@);
    let order = sort_paths(&paths);
    let mut out: Vec<MediaItem> = Vec::new();
    let mut k: usize = 0;
    while k < order.len()
        invariant
            k <= order@.len(),
            spells_media(paths@, media),
            kinds@.len() == paths@.len(),
            forall|m: int|
                0 <= m < kinds@.len() ==> #[trigger] kinds@[m] == (
                    media[m].1,
                    media[m].2,
                    media[m].3,
                ),
            forall|m: int| 0 <= m < order@.len() ==> (#[trigger] order@[m]) < paths@.len(),
            out@.len() == k,
            forall|m: int|
                0 <= m < k ==> (#[trigger] out@[m]).is_bare(
                    media[order@[m] as int].0,
                    media[order@[m] as int].1,
                    media[order@[m] as int].2,
                    media[order@[m] as int].3,
                ),
        decreases order@.len() - k,
    {
        let p: usize = order[k];
        let mut item = MediaItem::new(paths[p].clone(), kinds[p].1, kinds[p].2);
        item.media_type = kinds[p].0;
        out.push(item);
        k = k + 1;
    }
    assert(are_media(out@, media, paths@, order@));
    out
}

/// The kind of media that a file with the given path is.
pub open spec fn kind_of_name(path: Seq<char>) -> Option<MediaType> {
    match path_extension(path) {
        Some(ext) => type_of_extension(lowercase(ext)),
        None => None,
    }
}

/// Whether a folder with the given path is shown.
pub open spec fn shows_folder(path: Seq<char>) -> bool {
    path_file_name(path) matches Some(name) && !hidden(name)
}

proof fn lemma_medium_is_listed(list: Seq<Listed>, m: int) -> (i: int)
    requires
        0 <= m < media_of(list).len(),
    ensures
        0 <= i < list.len(),
        medium_of(list[i]) == Some(media_of(list)[m]),
    decreases list.len(),
{
    let before = media_of(list.drop_last());
    if m < before.len() {
        let i = lemma_medium_is_listed(list.drop_last(), m);
        assert(list[i] == list.drop_last()[i]);
        i
    } else {
        list.len() - 1
    }
}

proof fn lemma_listed_medium_is_kept(list: Seq<Listed>, i: int) -> (m: int)
    requires
        0 <= i < list.len(),
        medium_of(list[i]) is Some,
    ensures
        0 <= m < media_of(list).len(),
        medium_of(list[i]) == Some(media_of(list)[m]),
    decreases list.len(),
{
    if i < list.len() - 1 {
        assert(list[i] == list.drop_last()[i]);
        lemma_listed_medium_is_kept(list.drop_last(), i)
    } else {
        media_of(list).len() - 1
    }
}

proof fn lemma_folder_is_listed(list: Seq<Listed>, m: int) -> (i: int)
    requires
        0 <= m < folders_of(list).len(),
    ensures
        0 <= i < list.len(),
        folder_of(list[i]) == Some(folders_of(list)[m]),
    decreases list.len(),
{
    let before = folders_of(list.drop_last());
    if m < before.len() {
        let i = lemma_folder_is_listed(list.drop_last(), m);
        assert(list[i] == list.drop_last()[i]);
        i
    } else {
        list.len() - 1
    }
}

proof fn lemma_listed_folder_is_kept(list: Seq<Listed>, i: int) -> (m: int)
    requires
        0 <= i < list.len(),
        folder_of(list[i]) is Some,
    ensures
        0 <= m < folders_of(list).len(),
        folder_of(list[i]) == Some(folders_of(list)[m]),
    decreases list.len(),
{
    if i < list.len() - 1 {
        assert(list[i] == list.drop_last()[i]);
        lemma_listed_folder_is_kept(list.drop_last(), i)
    } else {
        folders_of(list).len() - 1
    }
}

/// The media of a scanned directory, one by one.
proof fn lemma_scanned_media(
    list: Seq<Listed>,
    media: Seq<MediaItem>,
    paths: Seq<String>,
    order: Seq<usize>,
)
    requires
        are_media(media, media_of(list), paths, order),
        paths.len() <= usize::MAX,
    ensures
        forall|k: int|
            0 <= k < media.len() ==> exists|i: int|
                {
                    &&& 0 <= i < list.len()
                    &&& (#[trigger] list[i]).path@ == (#[trigger] media[k]).path@
                    &&& !list[i].is_dir && list[i].is_file && media[k].media_type
                        != MediaType::Folder
                    &&& match list[i].size {
                        Some(size) => media[k].width == size.0 && media[k].height == size.1,
                        None => media[k].width == 1920 && media[k].height == 1080,
                    }
                },
        forall|i: int|
            0 <= i < list.len() && !list[i].is_dir && list[i].is_file && kind_of_name(
                list[i].path@,
            ) is Some ==> exists|k: int|
                {
                    &&& 0 <= k < media.len()
                    &&& (#[trigger] media[k]).path@ == (#[trigger] list[i]).path@
                    &&& kind_of_name(list[i].path@) == Some(media[k].media_type)
                    &&& match list[i].size {
                        Some(size) => media[k].width == size.0 && media[k].height == size.1,
                        None => media[k].width == 1920 && media[k].height == 1080,
                    }
                },
        forall|k: int, m: int|
            0 <= k < m < media.len() ==> path_le(
                (#[trigger] media[k]).path@,
                (#[trigger] media[m]).path@,
            ),
{
    let all = media_of(list);
    assert forall|k: int| 0 <= k < media.len() implies exists|i: int|
        {
            &&& 0 <= i < list.len()
            &&& (#[trigger] list[i]).path@ == (#[trigger] media[k]).path@
            &&& !list[i].is_dir && list[i].is_file && media[k].media_type != MediaType::Folder
            &&& match list[i].size {
                Some(size) => media[k].width == size.0 && media[k].height == size.1,
                None => media[k].width == 1920 && media[k].height == 1080,
            }
        } by {
        permutation_is_within(order, paths.len() as int, k);
        let i = lemma_medium_is_listed(list, order[k] as int);
        assert(media[k].is_bare(
            all[order[k] as int].0,
            all[order[k] as int].1,
            all[order[k] as int].2,
            all[order[k] as int].3,
        ));
        assert(list[i].path@ == media[k].path@);
    }
    assert forall|i: int|
        0 <= i < list.len() && !list[i].is_dir && list[i].is_file && kind_of_name(
            list[i].path@,
        ) is Some implies exists|k: int|
        {
            &&& 0 <= k < media.len()
            &&& (#[trigger] media[k]).path@ == (#[trigger] list[i]).path@
            &&& kind_of_name(list[i].path@) == Some(media[k].media_type)
            &&& match list[i].size {
                Some(size) => media[k].width == size.0 && media[k].height == size.1,
                None => media[k].width == 1920 && media[k].height == 1080,
            }
        } by {
        let m = lemma_listed_medium_is_kept(list, i);
        permutation_has_all(order, paths.len() as int, m as usize);
        let k = choose|k: int| 0 <= k < order.len() && order[k] == m as usize;
        assert(media[k].is_bare(all[m].0, all[m].1, all[m].2, all[m].3));
        assert(media[k].path@ == list[i].path@);
    }
    assert forall|k: int, m: int| 0 <= k < m < media.len() implies path_le(
        (#[trigger] media[k]).path@,
        (#[trigger] media[m]).path@,
    ) by {
        permutation_is_within(order, paths.len() as int, k);
        permutation_is_within(order, paths.len() as int, m);
        assert(sorts_before(paths, order[k], order[m]));
        assert(paths[order[k] as int]@ == all[order[k] as int].0);
        assert(paths[order[m] as int]@ == all[order[m] as int].0);
    }
}

/// The folders of a scanned directory, one by one.
proof fn lemma_scanned_folders(
    list: Seq<Listed>,
    folders: Seq<MediaItem>,
    paths: Seq<String>,
    order: Seq<usize>,
)
    requires
        are_folders(folders, folders_of(list), paths, order),
        paths.len() <= usize::MAX,
    ensures
        forall|k: int|
            0 <= k < folders.len() ==> exists|i: int|
                {
                    &&& 0 <= i < list.len()
                    &&& (#[trigger] list[i]).path@ == (#[trigger] folders[k]).path@
                    &&& list[i].is_dir && folders[k].media_type == MediaType::Folder
                },
        forall|i: int|
            0 <= i < list.len() && list[i].is_dir && shows_folder(list[i].path@) ==> exists|k: int|
                {
                    &&& 0 <= k < folders.len()
                    &&& (#[trigger] folders[k]).path@ == (#[trigger] list[i]).path@
                    &&& folders[k].media_type == MediaType::Folder
                },
        forall|k: int, m: int|
            0 <= k < m < folders.len() ==> path_le(
                (#[trigger] folders[k]).path@,
                (#[trigger] folders[m]).path@,
            ),
{
    let all = folders_of(list);
    assert forall|k: int| 0 <= k < folders.len() implies exists|i: int|
        {
            &&& 0 <= i < list.len()
            &&& (#[trigger] list[i]).path@ == (#[trigger] folders[k]).path@
            &&& list[i].is_dir && folders[k].media_type == MediaType::Folder
        } by {
        permutation_is_within(order, paths.len() as int, k);
        let i = lemma_folder_is_listed(list, order[k] as int);
        assert(folders[k].is_bare(all[order[k] as int], MediaType::Folder, 1, 1));
        assert(list[i].path@ == folders[k].path@);
    }
    assert forall|i: int|
        0 <= i < list.len() && list[i].is_dir && shows_folder(list[i].path@) implies exists|k: int|
        {
            &&& 0 <= k < folders.len()
            &&& (#[trigger] folders[k]).path@ == (#[trigger] list[i]).path@
            &&& folders[k].media_type == MediaType::Folder
        } by {
        let m = lemma_listed_folder_is_kept(list, i);
        permutation_has_all(order, paths.len() as int, m as usize);
        let k = choose|k: int| 0 <= k < order.len() && order[k] == m as usize;
        assert(folders[k].is_bare(all[m], MediaType::Folder, 1, 1));
        assert(folders[k].path@ == list[i].path@);
    }
    assert forall|k: int, m: int| 0 <= k < m < folders.len() implies path_le(
        (#[trigger] folders[k]).path@,
        (#[trigger] folders[m]).path@,
    ) by {
        permutation_is_within(order, paths.len() as int, k);
        permutation_is_within(order, paths.len() as int, m);
        assert(sorts_before(paths, order[k], order[m]));
        assert(paths[order[k] as int]@ == all[order[k] as int]);
        assert(paths[order[m] as int]@ == all[order[m] as int]);
    }
}

/// What a scanned directory shows, item by item.
proof fn lemma_scanned(
    list: Seq<Listed>,
    recursive: bool,
    folders: Seq<MediaItem>,
    media: Seq<MediaItem>,
    items: Seq<MediaItem>,
)
    requires
        folders.len() <= usize::MAX,
        media.len() <= usize::MAX,
        items == folders + media,
        recursive ==> folders.len() == 0,
        !recursive ==> exists|paths: Seq<String>, order: Seq<usize>|
            #[trigger] are_folders(folders, folders_of(list), paths, order),
        exists|paths: Seq<String>, order: Seq<usize>|
            #[trigger] are_media(media, media_of(list), paths, order),
    ensures
        forall|k: int|
            0 <= k < items.len() ==> exists|i: int|
                {
                    &&& 0 <= i < list.len()
                    &&& (#[trigger] list[i]).path@ == (#[trigger] items[k]).path@
                    &&& list[i].is_dir ==> !recursive && items[k].media_type == MediaType::Folder
                    &&& !list[i].is_dir ==> list[i].is_file && items[k].media_type
                        != MediaType::Folder && (match list[i].size {
                        Some(size) => items[k].width == size.0 && items[k].height == size.1,
                        None => items[k].width == 1920 && items[k].height == 1080,
                    })
                },
        forall|i: int|
            0 <= i < list.len() && !list[i].is_dir && list[i].is_file && kind_of_name(
                list[i].path@,
            ) is Some ==> exists|k: int|
                {
                    &&& 0 <= k < items.len()
                    &&& (#[trigger] items[k]).path@ == (#[trigger] list[i]).path@
                    &&& kind_of_name(list[i].path@) == Some(items[k].media_type)
                    &&& match list[i].size {
                        Some(size) => items[k].width == size.0 && items[k].height == size.1,
                        None => items[k].width == 1920 && items[k].height == 1080,
                    }
                },
        forall|i: int|
            0 <= i < list.len() && list[i].is_dir && !recursive && shows_folder(list[i].path@)
                ==> exists|k: int|
                {
                    &&& 0 <= k < items.len()
                    &&& (#[trigger] items[k]).path@ == (#[trigger] list[i]).path@
                    &&& items[k].media_type == MediaType::Folder
                },
        forall|k: int, m: int|
            0 <= k < m < items.len() ==> {
                let first = #[trigger] items[k];
                let second = #[trigger] items[m];
                let folder = first.media_type == MediaType::Folder;
                &&& second.media_type == MediaType::Folder ==> folder
                &&& folder == (second.media_type == MediaType::Folder) ==> path_le(
                    first.path@,
                    second.path@,
                )
            },
{
    let (paths, order) = choose|paths: Seq<String>, order: Seq<usize>|
        #[trigger] are_media(media, media_of(list), paths, order);
    lemma_scanned_media(list, media, paths, order);
    if !recursive {
        let (paths, order) = choose|paths: Seq<String>, order: Seq<usize>|
            #[trigger] are_folders(folders, folders_of(list), paths, order);
        lemma_scanned_folders(list, folders, paths, order);
    }
    let n = folders.len() as int;
    assert(forall|k: int| 0 <= k < n ==> items[k] == folders[k]);
    assert(forall|k: int| n <= k < items.len() ==> #[trigger] items[k] == media[k - n]);
    assert(forall|k: int| 0 <= k < media.len() ==> #[trigger] media[k] == items[k + n]);
    assert(forall|k: int| 0 <= k < folders.len() ==> #[trigger] folders[k] == items[k]);
}

/// The items of a directory: its folders by path, unless it is searched with all
/// that lies below it, then its media by path.
pub fn scan_directory(list: &Vec<Listed>, recursive: bool) -> (r: Vec<MediaItem>)
    ensures
        exists|folders: Seq<MediaItem>, media: Seq<MediaItem>|
            {
                &&& #[trigger] (folders + media) == r@
                &&& recursive ==> folders.len() == 0
                &&& !recursive ==> exists|paths: Seq<String>, order: Seq<usize>|
                    #[trigger] are_folders(folders, folders_of(list@), paths, order)
                &&& exists|paths: Seq<String>, order: Seq<usize>|
                    #[trigger] are_media(media, media_of(list@), paths, order)
            },
            forall|k: int|
                0 <= k < r@.len() ==> exists|i: int|
                    {
                        &&& 0 <= i < list@.len()
                        &&& (#[trigger] list@[i]).path@ == (#[trigger] r@[k]).path@
                        &&& list@[i].is_dir ==> !recursive && r@[k].media_type
                            == MediaType::Folder
                        &&& !list@[i].is_dir ==> list@[i].is_file && r@[k].media_type
                            != MediaType::Folder && (match list@[i].size {
                            Some(size) => r@[k].width == size.0 && r@[k].height == size.1,
                            None => r@[k].width == 1920 && r@[k].height == 1080,
                        })
                    },
            forall|i: int|
                0 <= i < list@.len() && !list@[i].is_dir && list@[i].is_file && kind_of_name(
                    list@[i].path@,
                ) is Some ==> exists|k: int|
                    {
                        &&& 0 <= k < r@.len()
                        &&& (#[trigger] r@[k]).path@ == (#[trigger] list@[i]).path@
                        &&& kind_of_name(list@[i].path@) == Some(r@[k].media_type)
                        &&& match list@[i].size {
                            Some(size) => r@[k].width == size.0 && r@[k].height == size.1,
                            None => r@[k].width == 1920 && r@[k].height == 1080,
                        }
                    },
            forall|i: int|
                0 <= i < list@.len() && list@[i].is_dir && !recursive && shows_folder(
                    list@[i].path@,
                ) ==> exists|k: int|
                    {
                        &&& 0 <= k < r@.len()
                        &&& (#[trigger] r@[k]).path@ == (#[trigger] list@[i]).path@
                        &&& r@[k].media_type == MediaType::Folder
                    },
            forall|k: int, m: int|
                0 <= k < m < r@.len() ==> {
                    let first = #[trigger] r@[k];
                    let second = #[trigger] r@[m];
                    let folder = first.media_type == MediaType::Folder;
                    &&& second.media_type == MediaType::Folder ==> folder
                    &&& folder == (second.media_type == MediaType::Folder) ==> path_le(
                        first.path@,
                        second.path@,
                    )
                },
{
    let mut items: Vec<MediaItem> = if recursive {
        Vec::new()
    } else {
        collect_folders(list)
    };
    let ghost folders = items@;
    assert(folders.len() == items.len());
    let media = collect_media(list);
    let mut i: usize = 0;
    assert(items@ =~= folders + media@.take(0));
    while i < media.len()
        invariant
            i <= media@.len(),
            items@ == folders + media@.take(i as int),
        decreases media@.len() - i,
    {
        items.push(media[i].clone());
        i = i + 1;
        assert(items@ =~= folders + media@.take(i as int));
    }
    assert(media@.take(media@.len() as int) =~= media@);
    assert(folders + media@ == items@);
    proof {
        lemma_scanned(list@, recursive, folders, media@, items@);
    }
    items
}

/// The smaller of two allocations that are known, the one that is known, or
/// nothing.
pub open spec fn width_cap(cap_alloc: int, window_alloc: int) -> Option<int> {
    if cap_alloc > 0 && window_alloc > 0 {
        Some(
            if cap_alloc < window_alloc {
                cap_alloc
            } else {
                window_alloc
            },
        )
    } else if cap_alloc > 0 {
        Some(cap_alloc)
    } else if window_alloc > 0 {
        Some(window_alloc)
    } else {
        None
    }
}

/// The width to lay rows out for: that of the viewport once it has one, but no more
/// than what is allocated.
pub open spec fn layout_width(
    viewport_width: Single,
    cap_alloc: int,
    window_alloc: int,
    fallback: Single,
) -> Single {
    let width = if (Single { bits: NO_VIEWPORT }).less(viewport_width) {
        viewport_width
    } else {
        fallback
    };
    match width_cap(cap_alloc, window_alloc) {
        Some(cap) => width.smaller(of_whole(cap as nat)),
        None => width,
    }
}

/// The paths of all items of rows, one row after the other.
pub open spec fn flat(rows: Seq<RowModel>) -> Seq<Seq<char>>
    decreases rows.len(),
{
    if rows.len() == 0 {
        seq![]
    } else {
        flat(rows.drop_last()) + rows.last().items@.map_values(
            |item: crate::models::row_model::RowItem| item.media_path@,
        )
    }
}

/// The items that lie around a place, if there is such a place.
pub open spec fn around(total: int, row_offsets: Seq<usize>, row: u32, col: u32) -> Option<
    (int, int),
> {
    if row < row_offsets.len() && row_offsets[row as int] + col < total {
        let at = row_offsets[row as int] + col;
        Some(
            (
                if at > PREFETCH_RADIUS {
                    at - PREFETCH_RADIUS
                } else {
                    0
                },
                if at + PREFETCH_RADIUS + 1 < total {
                    at + PREFETCH_RADIUS + 1
                } else {
                    total
                },
            ),
        )
    } else {
        None
    }
}

/// The size of the item with a path; the last of several counts.
pub open spec fn size_of(items: Seq<MediaItem>, path: Seq<char>) -> Option<(u32, u32)>
    decreases items.len(),
{
    if items.len() == 0 {
        None
    } else if same_path(items.last().path@, path) {
        Some((items.last().width, items.last().height))
    } else {
        size_of(items.drop_last(), path)
    }
}

/// How well a picture is decoded ahead of time: a small one at its full size.
pub open spec fn kind_of(size: Option<(u32, u32)>) -> PrefetchKind {
    match size {
        Some((w, h)) => if w * h <= SMALL_IMAGE_MAX_PIXELS {
            PrefetchKind::Full
        } else {
            PrefetchKind::Preview
        },
        None => PrefetchKind::Preview,
    }
}

fn find_kind(items: &Vec<MediaItem>, path: &str) -> (r: PrefetchKind)
    ensures
        r == kind_of(size_of(items@, path@)),
{
    let mut i: usize = items.len();
    assert(items@.take(i as int) =~= items@);
    while i > 0
        invariant
            i <= items@.len(),
            size_of(items@.take(i as int), path@) == size_of(items@, path@),
        decreases i,
    {
        let item = &items[i - 1];
        assert(items@.take(i as int).drop_last() =~= items@.take(i - 1));
        if is_same_path(&item.path, path) {
            assert(item.width * item.height <= 0xffff_ffff * 0xffff_ffff) by (nonlinear_arith)
                requires
                    item.width <= 0xffff_ffff,
                    item.height <= 0xffff_ffff,
            ;
            if item.width as u64 * item.height as u64 <= SMALL_IMAGE_MAX_PIXELS {
                return PrefetchKind::Full;
            }
            return PrefetchKind::Preview;
        }
        i = i - 1;
    }
    PrefetchKind::Preview
}

/// The next state of the generator that items are shuffled by.
pub open spec fn next_state(state: u64) -> u64 {
    let a = state ^ (state << 13);
    let b = a ^ (a >> 7);
    b ^ (b << 17)
}

/// The items with two of them exchanged.
pub open spec fn exchanged(items: Seq<MediaItem>, i: int, j: int) -> Seq<MediaItem> {
    items.update(i, items[j]).update(j, items[i])
}

/// Items shuffled up to a place: from that place down, each is exchanged with one
/// that stands no later.
pub open spec fn shuffled(items: Seq<MediaItem>, state: u64, last: int) -> Seq<MediaItem>
    decreases last,
{
    if last <= 0 {
        items
    } else {
        let next = next_state(state);
        let j = next as int % (last + 1);
        shuffled(exchanged(items, last, j), next, last - 1)
    }
}

/// Shuffling loses nothing and adds nothing.
pub proof fn shuffled_items_are_the_items(items: Seq<MediaItem>, state: u64, last: int)
    requires
        last < items.len(),
    ensures
        shuffled(items, state, last).to_multiset() == items.to_multiset(),
        shuffled(items, state, last).len() == items.len(),
    decreases last,
{
    broadcast use group_to_multiset_ensures;

    if last > 0 {
        let next = next_state(state);
        let j = next as int % (last + 1);
        let after = exchanged(items, last, j);
        let x = items[last];
        let y = items[j];
        let mid = items.update(last, y);
        assert(mid =~= items.remove(last).insert(last, y));
        assert(after =~= mid.remove(j).insert(j, x));
        let m = items.to_multiset();
        assert(items.contains(x));
        assert(m.count(x) > 0);
        assert(mid.to_multiset() == m.remove(x).insert(y));
        assert(mid[j] == y);
        assert(after.to_multiset() == m.remove(x).insert(y).remove(y).insert(x));
        assert(after.to_multiset() =~= m);
        shuffled_items_are_the_items(after, next, last - 1);
    }
}

/// Exchanges two items.
fn swap_items(items: &mut Vec<MediaItem>, i: usize, j: usize)
    requires
        i < old(items)@.len(),
        j < old(items)@.len(),
    ensures
        final(items)@ == exchanged(old(items)@, i as int, j as int),
{
    let a = items[i].clone();
    let b = items[j].clone();
    items.set(i, b);
    items.set(j, a);
}

/// Shuffles items. Fewer than two stay as they are.
pub fn shuffle_in_place(items: &mut Vec<MediaItem>, seed: u64)
    ensures
        final(items)@ == shuffled(old(items)@, seed, old(items)@.len() - 1),
{
    if items.len() < 2 {
        return;
    }
    let mut state: u64 = seed;
    let mut i: usize = items.len() - 1;
    while i > 0
        invariant
            i < items@.len(),
            items@.len() == old(items)@.len(),
            shuffled(items@, state, i as int) == shuffled(
                old(items)@,
                seed,
                old(items)@.len() - 1,
            ),
        decreases i,
    {
        let ghost before = items@;
        let ghost earlier = state;
        let a: u64 = state ^ (state << 13);
        let b: u64 = a ^ (a >> 7);
        state = b ^ (b << 17);
        assert(state == next_state(earlier));
        let j: usize = (state as u128 % (i as u128 + 1)) as usize;
        swap_items(items, i, j);
        assert(items@ == exchanged(before, i as int, j as int));
        i = i - 1;
    }
}

/// What is made of a path that was typed in: `~` stands for the home directory.
pub open spec fn expanded(input: Seq<char>, home: Option<Seq<char>>) -> Seq<char> {
    match home {
        Some(h) => if input == seq!['~'] {
            h
        } else if starts_at_home(input) {
            let rest = below_home(input);
            if rest.len() > 0 && rest[0] == '/' {
                rest
            } else {
                joined(h, rest)
            }
        } else {
            input
        },
        None => input,
    }
}

/// Whether a path starts at the home directory.
pub open spec fn starts_at_home(input: Seq<char>) -> bool {
    input.len() >= 2 && input[0] == '~' && input[1] == '/'
}

/// What follows the home directory in a path.
pub open spec fn below_home(input: Seq<char>) -> Seq<char>
    decreases input.len(),
{
    if starts_at_home(input) {
        below_home(input.skip(2))
    } else {
        input
    }
}

/// What is made of a path that was typed in.
pub fn expand_path_input(input: &str, home: Option<&str>) -> (r: String)
    ensures
        r@ == expanded(
            input@,
            match home {
                Some(h) => Some(h@),
                None => None,
            },
        ),
{
    let chars = to_chars(input);
    let home = match home {
        Some(h) => h,
        None => return input.to_owned(),
    };
    if chars.len() == 1 && chars[0] == '~' {
        assert(input@ =~= seq!['~']);
        return home.to_owned();
    }
    assert(input@ != seq!['~']) by {
        if input@ == seq!['~'] {
            assert(input@.len() == 1 && input@[0] == '~');
        }
    }
    if chars.len() < 2 || chars[0] != '~' || chars[1] != '/' {
        return input.to_owned();
    }
    let mut start: usize = 0;
    assert(chars@.skip(0) =~= chars@);
    while chars.len() - start >= 2 && chars[start] == '~' && chars[start + 1] == '/'
        invariant
            start <= chars@.len(),
            below_home(chars@.skip(start as int)) == below_home(chars@),
        decreases chars@.len() - start,
    {
        assert(chars@.skip(start as int).skip(2) =~= chars@.skip(start + 2));
        start = start + 2;
    }
    let ghost tail = chars@.skip(start as int);
    let mut rest: Vec<char> = Vec::new();
    let mut i: usize = start;
    while i < chars.len()
        invariant
            start <= i <= chars@.len(),
            rest@ == chars@.subrange(start as int, i as int),
        decreases chars@.len() - i,
    {
        rest.push(chars[i]);
        i = i + 1;
        assert(rest@ =~= chars@.subrange(start as int, i as int));
    }
    assert(rest@ =~= tail);
    let text = from_chars(&rest);
    if rest.len() > 0 && rest[0] == '/' {
        text
    } else {
        join(home, &text)
    }
}

/// The text without the white space around it, unless nothing is left.
pub fn typed_text(input: &str) -> (r: Option<String>)
    ensures
        text_view(r) == if trimmed(input@).len() == 0 {
            None
        } else {
            Some(trimmed(input@))
        },
{
    let chars = to_chars(input);
    let t = trim_chars(&chars);
    if t.len() == 0 {
        None
    } else {
        Some(from_chars(&t))
    }
}

fn with_prefix(prefix: &str, text: &str) -> (r: String)
    ensures
        r@ == prefix@ + text@,
{
    let mut out = String::new();
    out.push_str(prefix);
    out.push_str(text);
    assert(out@ =~= prefix@ + text@);
    out
}

/// `ON` or `OFF`.
pub open spec fn on_off(on: bool) -> Seq<char> {
    if on {
        "ON"@
    } else {
        "OFF"@
    }
}

fn switch_text(prefix: &str, on: bool) -> (r: String)
    ensures
        r@ == prefix@ + on_off(on),
{
    if on {
        with_prefix(prefix, "ON")
    } else {
        with_prefix(prefix, "OFF")
    }
}

/// The status once the recursive scan was switched.
pub fn recursive_text(on: bool) -> (r: String)
    ensures
        r@ == "> Recursive scan: "@ + on_off(on),
{
    switch_text("> Recursive scan: ", on)
}

/// The status once shuffling was switched.
pub fn shuffle_text(on: bool) -> (r: String)
    ensures
        r@ == "> Shuffle: "@ + on_off(on),
{
    switch_text("> Shuffle: ", on)
}

/// The label of the shuffle button.
pub fn shuffle_label(on: bool) -> (r: String)
    ensures
        r@ == "S/Shuffle: "@ + on_off(on),
{
    switch_text("S/Shuffle: ", on)
}

/// The status once the full screen was switched.
pub fn fullscreen_text(on: bool) -> (r: String)
    ensures
        r@ == "> Fullscreen: "@ + on_off(on),
{
    switch_text("> Fullscreen: ", on)
}

/// The status while a directory is scanned.
pub fn scanning_text(path: &str) -> (r: String)
    ensures
        r@ == "> Scanning: "@ + path@,
{
    with_prefix("> Scanning: ", path)
}

/// The status for a path that is no directory.
pub fn not_a_directory_text(path: &str) -> (r: String)
    ensures
        r@ == "> Not a directory: "@ + path@,
{
    with_prefix("> Not a directory: ", path)
}

/// The final component of a path, or another word in its place.
pub open spec fn name_or(path: Seq<char>, other: Seq<char>) -> Seq<char> {
    match path_file_name(path) {
        Some(name) => name,
        None => other,
    }
}

fn short_name(path: &str, other: &str) -> (r: String)
    ensures
        r@ == name_or(path@, other@),
{
    match file_name(path) {
        Some(name) => name,
        None => other.to_owned(),
    }
}

/// The status while something is viewed.
pub fn viewing_text(path: &str) -> (r: String)
    ensures
        r@ == "> Viewing: "@ + name_or(path@, "unknown"@),
{
    let name = short_name(path, "unknown");
    with_prefix("> Viewing: ", &name)
}

/// The title of the window, the label of the directory and whether there is a
/// directory above it.
pub fn directory_labels(path: &Option<String>) -> (r: (Option<String>, String, bool))
    ensures
        match path {
            Some(p) => {
                &&& text_view(r.0) == Some("idxd - "@ + name_or(p@, p@))
                &&& r.1@ == "> "@ + p@
                &&& r.2 == (path_parent(p@) is Some)
            },
            None => r.0 is None && r.1@ == "> No directory"@ && !r.2,
        },
{
    match path {
        Some(p) => {
            let name = short_name(p, p);
            let title = with_prefix("idxd - ", &name);
            let label = with_prefix("> ", p);
            (Some(title), label, parent(p).is_some())
        },
        None => (None, "> No directory".to_owned(), false),
    }
}

/// The status for a selected place.
pub open spec fn selected(row: u32, col: u32) -> Seq<char> {
    "Selected: row "@ + decimal(row as nat) + " col "@ + decimal(col as nat)
}

fn push_selected(out: &mut String, row: u32, col: u32)
    ensures
        final(out)@ == old(out)@ + selected(row, col),
{
    out.push_str("Selected: row ");
    push_number(out, row as u128);
    out.push_str(" col ");
    push_number(out, col as u128);
    assert(out@ =~= old(out)@ + selected(row, col));
}

/// The status for a selected place.
pub fn selection_text(row: u32, col: u32) -> (r: String)
    ensures
        r@ == "> "@ + selected(row, col),
{
    let mut out = "> ".to_owned();
    push_selected(&mut out, row, col);
    out
}

/// The status of the grid, with the selected place.
pub fn grid_text(rows: u32, row: u32, col: u32) -> (r: String)
    ensures
        r@ == "> "@ + decimal(rows as nat) + " rows | "@ + selected(row, col),
{
    let mut out = "> ".to_owned();
    push_number(&mut out, rows as u128);
    out.push_str(" rows | ");
    push_selected(&mut out, row, col);
    assert(out@ =~= "> "@ + decimal(rows as nat) + " rows | "@ + selected(row, col));
    out
}

/// How many of some items are folders.
pub open spec fn folder_count(items: Seq<MediaItem>) -> nat
    decreases items.len(),
{
    if items.len() == 0 {
        0
    } else {
        folder_count(items.drop_last()) + if items.last().media_type == MediaType::Folder {
            1nat
        } else {
            0
        }
    }
}

/// The status once a directory is shown.
pub fn directory_text(items: &Vec<MediaItem>, rows: u32) -> (r: String)
    ensures
        ({
            let folders = folder_count(items@);
            &&& folders <= items@.len()
            &&& r@ == "> "@ + decimal(folders) + " folders, "@ + decimal(
                (items@.len() - folders) as nat,
            ) + " files | "@ + decimal(rows as nat)
                + " rows | [hjkl/arrows] Navigate  [Enter] Open  [Backspace] Parent"@
        }),
{
    let mut folders: usize = 0;
    let mut i: usize = 0;
    while i < items.len()
        invariant
            i <= items@.len(),
            folders == folder_count(items@.take(i as int)),
            folders <= i,
        decreases items@.len() - i,
    {
        assert(items@.take(i + 1).drop_last() =~= items@.take(i as int));
        if items[i].is_folder() {
            folders = folders + 1;
        }
        i = i + 1;
    }
    assert(items@.take(items@.len() as int) =~= items@);
    let mut out = "> ".to_owned();
    push_number(&mut out, folders as u128);
    out.push_str(" folders, ");
    push_number(&mut out, (items.len() - folders) as u128);
    out.push_str(" files | ");
    push_number(&mut out, rows as u128);
    out.push_str(" rows | [hjkl/arrows] Navigate  [Enter] Open  [Backspace] Parent");
    assert(out@ =~= "> "@ + decimal(folders as nat) + " folders, "@ + decimal(
        (items@.len() - folders) as nat,
    ) + " files | "@ + decimal(rows as nat)
        + " rows | [hjkl/arrows] Navigate  [Enter] Open  [Backspace] Parent"@);
    out
}

/// What came of switching a favourite.
#[derive(Clone, Copy, PartialEq, Eq, Structural, Debug)]
pub enum FavoriteOutcome {
    Folder,
    NoStore,
    Added,
    Removed,
    Failed,
}

/// The status once a favourite was switched.
pub fn favorite_text(outcome: FavoriteOutcome, path: &str) -> (r: String)
    ensures
        r@ == match outcome {
            FavoriteOutcome::Folder => "> Favorites apply to files only"@,
            FavoriteOutcome::NoStore => "> Favorites unavailable (database error)"@,
            FavoriteOutcome::Added => "> Favorited: "@ + name_or(path@, "[item]"@),
            FavoriteOutcome::Removed => "> Unfavorited: "@ + name_or(path@, "[item]"@),
            FavoriteOutcome::Failed => "> Failed to update favorite"@,
        },
{
    match outcome {
        FavoriteOutcome::Folder => "> Favorites apply to files only".to_owned(),
        FavoriteOutcome::NoStore => "> Favorites unavailable (database error)".to_owned(),
        FavoriteOutcome::Added => {
            let name = short_name(path, "[item]");
            with_prefix("> Favorited: ", &name)
        },
        FavoriteOutcome::Removed => {
            let name = short_name(path, "[item]");
            with_prefix("> Unfavorited: ", &name)
        },
        FavoriteOutcome::Failed => "> Failed to update favorite".to_owned(),
    }
}

/// What came of deleting something.
#[derive(Clone, Copy, PartialEq, Eq, Structural, Debug)]
pub enum DeleteOutcome {
    Folder,
    Deleted,
    Failed,
}

/// The status once something was deleted.
pub fn delete_text(outcome: DeleteOutcome, path: &str) -> (r: String)
    ensures
        r@ == match outcome {
            DeleteOutcome::Folder => "> Delete applies to files only"@,
            DeleteOutcome::Deleted => "> Deleted: "@ + name_or(path@, "[item]"@),
            DeleteOutcome::Failed => "> Failed to delete: "@ + name_or(path@, "[item]"@),
        },
{
    match outcome {
        DeleteOutcome::Folder => "> Delete applies to files only".to_owned(),
        DeleteOutcome::Deleted => {
            let name = short_name(path, "[item]");
            with_prefix("> Deleted: ", &name)
        },
        DeleteOutcome::Failed => {
            let name = short_name(path, "[item]");
            with_prefix("> Failed to delete: ", &name)
        },
    }
}

/// What came of adding something to an album.
#[derive(Clone, Copy, PartialEq, Eq, Structural, Debug)]
pub enum AlbumOutcome {
    NoStore,
    Added,
    AlreadyThere,
    Failed,
    NotCreated,
    NotListed,
}

/// The status once something was added to an album.
pub fn album_text(outcome: AlbumOutcome, path: &str) -> (r: String)
    ensures
        r@ == match outcome {
            AlbumOutcome::NoStore => "> Albums unavailable (database error)"@,
            AlbumOutcome::Added => "> Added to album: "@ + name_or(path@, "[item]"@),
            AlbumOutcome::AlreadyThere => "> Already in album"@,
            AlbumOutcome::Failed => "> Failed to add to album"@,
            AlbumOutcome::NotCreated => "> Failed to create album"@,
            AlbumOutcome::NotListed => "> Failed to load albums"@,
        },
{
    match outcome {
        AlbumOutcome::NoStore => "> Albums unavailable (database error)".to_owned(),
        AlbumOutcome::Added => {
            let name = short_name(path, "[item]");
            with_prefix("> Added to album: ", &name)
        },
        AlbumOutcome::AlreadyThere => "> Already in album".to_owned(),
        AlbumOutcome::Failed => "> Failed to add to album".to_owned(),
        AlbumOutcome::NotCreated => "> Failed to create album".to_owned(),
        AlbumOutcome::NotListed => "> Failed to load albums".to_owned(),
    }
}

/// What opening an item does.
#[derive(Clone, Copy, PartialEq, Eq, Structural, Debug)]
pub enum Activation {
    /// The folder is shown.
    Folder,
    /// The viewer shows the item.
    Viewer,
}

/// Whether the path with the given number is that of an item of a row.
pub open spec fn stands_for(
    paths: Seq<String>,
    n: int,
    item: crate::models::row_model::RowItem,
) -> bool {
    0 <= n < paths.len() && paths[n]@ == item.media_path@
}

/// What the main window shows.
pub struct MainWindow {
    pub current_path: Option<String>,
    /// The items in the order in which they are shown.
    pub media_items: Vec<MediaItem>,
    /// The items in the order in which they were found.
    pub base_items: Vec<MediaItem>,
    /// The paths of the items, row by row.
    pub flat_paths: Vec<String>,
    /// Where each row begins among the paths.
    pub row_offsets: Vec<usize>,
    pub ui_visible: bool,
    pub last_layout_width: i32,
    pub relayout_pending: bool,
    /// Which scan counts.
    pub scan_generation: u64,
    pub recursive_scan: bool,
    pub prefer_dark: bool,
    pub shuffle_mode: bool,
    /// Where the grid was scrolled to when the viewer came over it.
    pub grid_scroll: Option<Double>,
}

fn copy_items(items: &Vec<MediaItem>) -> (r: Vec<MediaItem>)
    ensures
        r@ == items@,
{
    let mut out: Vec<MediaItem> = Vec::new();
    let mut i: usize = 0;
    while i < items.len()
        invariant
            i <= items@.len(),
            out@ == items@.take(i as int),
        decreases items@.len() - i,
    {
        out.push(items[i].clone());
        i = i + 1;
        assert(out@ =~= items@.take(i as int));
    }
    assert(out@ =~= items@);
    out
}

/// Whether an item among some is a folder with the given path.
pub open spec fn has_folder(items: Seq<MediaItem>, path: Seq<char>) -> bool {
    exists|i: int|
        0 <= i < items.len() && (#[trigger] items[i]).media_type == MediaType::Folder && same_path(
            items[i].path@,
            path,
        )
}

/// The order in which items are shown.
pub open spec fn shown(items: Seq<MediaItem>, shuffle: bool, seed: u64) -> Seq<MediaItem> {
    if shuffle {
        shuffled(items, seed, items.len() - 1)
    } else {
        items
    }
}

fn items_to_show(items: &Vec<MediaItem>, shuffle: bool, seed: u64) -> (r: Vec<MediaItem>)
    ensures
        r@ == shown(items@, shuffle, seed),
{
    let mut out = copy_items(items);
    if shuffle {
        shuffle_in_place(&mut out, seed);
    }
    out
}

impl MainWindow {
    /// The settings are as in `other`.
    pub open spec fn same_settings(self, other: Self) -> bool {
        &&& self.ui_visible == other.ui_visible
        &&& self.last_layout_width == other.last_layout_width
        &&& self.relayout_pending == other.relayout_pending
        &&& self.recursive_scan == other.recursive_scan
        &&& self.prefer_dark == other.prefer_dark
        &&& self.shuffle_mode == other.shuffle_mode
        &&& self.grid_scroll == other.grid_scroll
    }

    /// What is shown is as in `other`.
    pub open spec fn same_items(self, other: Self) -> bool {
        &&& self.media_items == other.media_items
        &&& self.base_items == other.base_items
        &&& self.flat_paths == other.flat_paths
        &&& self.row_offsets == other.row_offsets
    }

    /// A window that shows nothing yet. It starts in the directory that it is given,
    /// else in the home directory.
    pub fn new(initial: Option<String>, home: Option<String>) -> (r: Self)
        ensures
            r.current_path == match initial {
                Some(p) => Some(p),
                None => home,
            },
            r.media_items@.len() == 0 && r.base_items@.len() == 0,
            r.flat_paths@.len() == 0 && r.row_offsets@.len() == 0,
            r.ui_visible && r.prefer_dark,
            !r.relayout_pending && !r.recursive_scan && !r.shuffle_mode,
            r.grid_scroll is None,
            r.last_layout_width == 0 && r.scan_generation == 0,
    {
        MainWindow {
            current_path: match initial {
                Some(p) => Some(p),
                None => home,
            },
            media_items: Vec::new(),
            base_items: Vec::new(),
            flat_paths: Vec::new(),
            row_offsets: Vec::new(),
            ui_visible: true,
            last_layout_width: 0,
            relayout_pending: false,
            scan_generation: 0,
            recursive_scan: false,
            prefer_dark: true,
            shuffle_mode: false,
            grid_scroll: None,
        }
    }

    /// The width to lay rows out for.
    pub fn effective_layout_width(
        viewport_width: Single,
        cap_alloc: i32,
        window_alloc: i32,
        fallback: Single,
    ) -> (r: Single)
        ensures
            r == layout_width(viewport_width, cap_alloc as int, window_alloc as int, fallback),
    {
        let width = if (Single { bits: NO_VIEWPORT }).is_less(viewport_width) {
            viewport_width
        } else {
            fallback
        };
        let cap: i32 = if cap_alloc > 0 && window_alloc > 0 {
            if cap_alloc < window_alloc {
                cap_alloc
            } else {
                window_alloc
            }
        } else if cap_alloc > 0 {
            cap_alloc
        } else if window_alloc > 0 {
            window_alloc
        } else {
            0
        };
        if cap > 0 {
            width.min(Single::from_whole(cap as u64))
        } else {
            width
        }
    }

    /// The rows of the items for a width.
    pub fn build_rows(&self, layout: &JustifiedLayout, width: Single) -> (r: Vec<RowModel>)
        requires
            layout.wf(),
            self.media_items@.len() <= u32::MAX,
        ensures
            are_rows(r@, layout.rows(self.media_items@, width)),
    {
        layout.compute(&self.media_items, width)
    }

    /// Takes the paths out of rows, and where each row begins among them.
    pub fn rows_to_flat_paths(rows: &Vec<RowModel>) -> (r: (Vec<String>, Vec<usize>))
        requires
            flat(rows@).len() <= usize::MAX,
        ensures
            spells(r.0@, flat(rows@)),
            r.1@.len() == rows@.len(),
            forall|i: int|
                0 <= i < r.1@.len() ==> #[trigger] r.1@[i] == flat(rows@.take(i)).len(),
            forall|i: int, j: int|
                0 <= i < rows@.len() && 0 <= j < rows@[i].items@.len() ==> stands_for(
                    r.0@,
                    r.1@[i] + j,
                    #[trigger] rows@[i].items@[j],
                ),
    {
        let mut paths: Vec<String> = Vec::new();
        let mut offsets: Vec<usize> = Vec::new();
        let mut i: usize = 0;
        assert(rows@.take(0) =~= seq![]);
        while i < rows.len()
            invariant
                i <= rows@.len(),
                spells(paths@, flat(rows@.take(i as int))),
                offsets@.len() == i,
                forall|k: int|
                    0 <= k < i ==> #[trigger] offsets@[k] == flat(rows@.take(k)).len(),
            decreases rows@.len() - i,
        {
            offsets.push(paths.len());
            let ghost before = flat(rows@.take(i as int));
            let ghost texts = rows@[i as int].items@.map_values(
                |item: crate::models::row_model::RowItem| item.media_path@,
            );
            let items = &rows[i].items;
            let mut k: usize = 0;
            assert(before + texts.take(0) =~= before);
            while k < items.len()
                invariant
                    k <= items@.len(),
                    texts == items@.map_values(
                        |item: crate::models::row_model::RowItem| item.media_path@,
                    ),
                    spells(paths@, before + texts.take(k as int)),
                decreases items@.len() - k,
            {
                let ghost had = paths@;
                paths.push(items[k].media_path.clone());
                k = k + 1;
                assert(before + texts.take(k as int) =~= (before + texts.take(k - 1)).push(
                    texts[k - 1],
                ));
            }
            assert(texts.take(texts.len() as int) =~= texts);
            assert(rows@.take(i + 1).drop_last() =~= rows@.take(i as int));
            i = i + 1;
        }
        assert(rows@.take(rows@.len() as int) =~= rows@);
        let r = (paths, offsets);
        proof {
            assert forall|i: int, j: int|
                0 <= i < rows@.len() && 0 <= j < rows@[i].items@.len() implies stands_for(
                r.0@,
                r.1@[i] + j,
                #[trigger] rows@[i].items@[j],
            ) by {
                lemma_flat_starts(rows@, i);
            }
        }
        r
    }

    /// Notes which rows are shown.
    pub fn apply_rows(&mut self, rows: &Vec<RowModel>)
        requires
            flat(rows@).len() <= usize::MAX,
        ensures
            final(self).same_settings(*old(self)),
            final(self).current_path == old(self).current_path,
            final(self).scan_generation == old(self).scan_generation,
            final(self).media_items == old(self).media_items,
            final(self).base_items == old(self).base_items,
            spells(final(self).flat_paths@, flat(rows@)),
            final(self).row_offsets@.len() == rows@.len(),
            forall|i: int|
                0 <= i < rows@.len() ==> #[trigger] final(self).row_offsets@[i] == flat(
                    rows@.take(i),
                ).len(),
    {
        let (paths, offsets) = Self::rows_to_flat_paths(rows);
        self.flat_paths = paths;
        self.row_offsets = offsets;
    }

    /// What is decoded ahead of time around a selected place.
    pub fn prefetch_around_selection(&self, row: u32, col: u32) -> (r: Vec<PrefetchItem>)
        ensures
            match around(self.flat_paths@.len() as int, self.row_offsets@, row, col) {
                Some((start, end)) => {
                    &&& r@.len() == end - start
                    &&& forall|i: int|
                        0 <= i < r@.len() ==> {
                            &&& (#[trigger] r@[i]).path@ == self.flat_paths@[start + i]@
                            &&& r@[i].kind == kind_of(
                                size_of(self.base_items@, self.flat_paths@[start + i]@),
                            )
                        }
                },
                None => r@.len() == 0,
            },
    {
        let mut out: Vec<PrefetchItem> = Vec::new();
        if row as usize >= self.row_offsets.len() {
            return out;
        }
        let at: u128 = self.row_offsets[row as usize] as u128 + col as u128;
        let total: usize = self.flat_paths.len();
        if at >= total as u128 {
            return out;
        }
        let at: usize = at as usize;
        let start: usize = if at > PREFETCH_RADIUS {
            at - PREFETCH_RADIUS
        } else {
            0
        };
        let end: usize = if total - at > PREFETCH_RADIUS {
            at + PREFETCH_RADIUS + 1
        } else {
            total
        };
        let mut i: usize = start;
        while i < end
            invariant
                start <= i <= end <= self.flat_paths@.len(),
                out@.len() == i - start,
                forall|k: int|
                    0 <= k < out@.len() ==> {
                        &&& (#[trigger] out@[k]).path@ == self.flat_paths@[start + k]@
                        &&& out@[k].kind == kind_of(
                            size_of(self.base_items@, self.flat_paths@[start + k]@),
                        )
                    },
            decreases end - i,
        {
            let path = self.flat_paths[i].clone();
            let kind = find_kind(&self.base_items, &path);
            out.push(PrefetchItem { path, kind });
            i = i + 1;
        }
        out
    }

    /// Begins to show a directory: what was scanned before no longer counts.
    pub fn load_directory(&mut self, path: &str) -> (r: u64)
        ensures
            text_view(final(self).current_path) == Some(path@),
            final(self).scan_generation == r,
            r == crate::ui::viewer::next(old(self).scan_generation),
            final(self).same_settings(*old(self)),
            final(self).same_items(*old(self)),
    {
        self.scan_generation = if self.scan_generation == u64::MAX {
            0
        } else {
            self.scan_generation + 1
        };
        self.current_path = Some(path.to_owned());
        self.scan_generation
    }

    /// Whether the result of a scan still counts.
    pub open spec fn accepts(self, requested: Seq<char>, generation: u64) -> bool {
        generation == self.scan_generation && (self.current_path matches Some(p) && same_path(
            p@,
            requested,
        ))
    }

    /// Shows what a scan found, unless it no longer counts.
    pub fn apply_directory_scan_result(
        &mut self,
        requested: &str,
        generation: u64,
        items: Vec<MediaItem>,
        seed: u64,
    ) -> (r: bool)
        ensures
            r == old(self).accepts(requested@, generation),
            !r ==> *final(self) == *old(self),
            r ==> {
                &&& final(self).base_items@ == items@
                &&& final(self).media_items@ == shown(items@, old(self).shuffle_mode, seed)
            },
            final(self).same_settings(*old(self)),
            final(self).current_path == old(self).current_path,
            final(self).scan_generation == old(self).scan_generation,
            final(self).flat_paths == old(self).flat_paths,
            final(self).row_offsets == old(self).row_offsets,
    {
        if generation != self.scan_generation {
            return false;
        }
        let same: bool = match &self.current_path {
            Some(p) => is_same_path(p, requested),
            None => false,
        };
        if !same {
            return false;
        }
        self.media_items = items_to_show(&items, self.shuffle_mode, seed);
        self.base_items = items;
        true
    }

    /// Switches shuffling: the items are shuffled, or stand as they were found.
    pub fn toggle_shuffle(&mut self, seed: u64) -> (r: bool)
        ensures
            r == !old(self).shuffle_mode,
            final(self).shuffle_mode == r,
            final(self).media_items@ == shown(old(self).base_items@, r, seed),
            final(self).base_items == old(self).base_items,
            final(self).current_path == old(self).current_path,
            final(self).scan_generation == old(self).scan_generation,
            final(self).flat_paths == old(self).flat_paths,
            final(self).row_offsets == old(self).row_offsets,
            final(self).grid_scroll == old(self).grid_scroll,
            final(self).ui_visible == old(self).ui_visible,
            final(self).last_layout_width == old(self).last_layout_width,
            final(self).relayout_pending == old(self).relayout_pending,
            final(self).recursive_scan == old(self).recursive_scan,
            final(self).prefer_dark == old(self).prefer_dark,
    {
        self.shuffle_mode = !self.shuffle_mode;
        self.media_items = items_to_show(&self.base_items, self.shuffle_mode, seed);
        self.shuffle_mode
    }

    /// Switches the recursive scan. Where that changes anything, the directory that
    /// is shown has to be scanned again.
    pub fn set_recursive_scan(&mut self, enabled: bool) -> (r: Option<String>)
        ensures
            *final(self) == (MainWindow { recursive_scan: enabled, ..*old(self) }),
            r == if old(self).recursive_scan != enabled {
                old(self).current_path
            } else {
                None
            },
    {
        let changed: bool = self.recursive_scan != enabled;
        self.recursive_scan = enabled;
        if changed {
            match &self.current_path {
                Some(p) => Some(p.clone()),
                None => None,
            }
        } else {
            None
        }
    }

    /// Whether a path is that of a folder that is shown.
    pub fn is_folder_path(&self, path: &str) -> (r: bool)
        ensures
            r == has_folder(self.base_items@, path@),
    {
        let mut i: usize = 0;
        while i < self.base_items.len()
            invariant
                i <= self.base_items@.len(),
                forall|k: int|
                    0 <= k < i ==> !((#[trigger] self.base_items@[k]).media_type
                        == MediaType::Folder && same_path(self.base_items@[k].path@, path@)),
            decreases self.base_items@.len() - i,
        {
            if self.base_items[i].is_folder() && is_same_path(&self.base_items[i].path, path) {
                return true;
            }
            i = i + 1;
        }
        false
    }

    /// What opening an item does.
    pub fn activation(&self, path: &str) -> (r: Activation)
        ensures
            r == if has_folder(self.base_items@, path@) {
                Activation::Folder
            } else {
                Activation::Viewer
            },
    {
        if self.is_folder_path(path) {
            Activation::Folder
        } else {
            Activation::Viewer
        }
    }

    /// The directory above the one that is shown.
    pub fn parent_directory(&self) -> (r: Option<String>)
        ensures
            text_view(r) == match self.current_path {
                Some(p) => path_parent(p@),
                None => None,
            },
    {
        match &self.current_path {
            Some(p) => parent(p),
            None => None,
        }
    }

    /// Notes the width of the grid. Tells whether the rows have to be laid out
    /// again: the grid has a width, and it is another one than before.
    pub fn note_width(&mut self, width: i32) -> (r: bool)
        ensures
            r == (width > 0 && width != old(self).last_layout_width),
            *final(self) == (MainWindow {
                last_layout_width: if r {
                    width
                } else {
                    old(self).last_layout_width
                },
                ..*old(self)
            }),
    {
        if width <= 0 || width == self.last_layout_width {
            return false;
        }
        self.last_layout_width = width;
        true
    }

    /// Asks for the rows to be laid out again soon. Tells whether that was not asked
    /// for already.
    pub fn request_relayout(&mut self) -> (r: bool)
        ensures
            r == !old(self).relayout_pending,
            *final(self) == (MainWindow { relayout_pending: true, ..*old(self) }),
    {
        let first: bool = !self.relayout_pending;
        self.relayout_pending = true;
        first
    }

    /// Notes that the rows are laid out now.
    pub fn relayout_started(&mut self)
        ensures
            *final(self) == (MainWindow { relayout_pending: false, ..*old(self) }),
    {
        self.relayout_pending = false;
    }

    /// Shows or hides the bars around the grid.
    pub fn toggle_ui(&mut self) -> (r: bool)
        ensures
            r == !old(self).ui_visible,
            *final(self) == (MainWindow { ui_visible: r, ..*old(self) }),
    {
        self.ui_visible = !self.ui_visible;
        self.ui_visible
    }

    /// Notes that the viewer comes over the grid, which is scrolled to some height.
    pub fn viewer_opened(&mut self, scroll: Double)
        ensures
            *final(self) == (MainWindow {
                grid_scroll: covered(old(self).grid_scroll, scroll),
                ..*old(self)
            }),
    {
        if self.grid_scroll.is_none() {
            self.grid_scroll = Some(scroll);
        }
    }

    /// Notes that the grid is seen again. Tells where it is scrolled to then; nothing
    /// where no viewer was over it.
    pub fn viewer_closed(&mut self) -> (r: Option<Double>)
        ensures
            r == old(self).grid_scroll,
            *final(self) == (MainWindow { grid_scroll: None, ..*old(self) }),
    {
        let scroll = self.grid_scroll;
        self.grid_scroll = None;
        scroll
    }

    /// The directory that is shown.
    pub fn current_path(&self) -> (r: Option<String>)
        ensures
            r == self.current_path,
    {
        match &self.current_path {
            Some(p) => Some(p.clone()),
            None => None,
        }
    }
}

/// What is known of the height of the grid once the viewer shows an item: a viewer
/// that is there already goes from item to item without changing it.
pub open spec fn covered(known: Option<Double>, scroll: Double) -> Option<Double> {
    match known {
        Some(k) => Some(k),
        None => Some(scroll),
    }
}

/// However many items the viewer shows before it is closed, the grid comes back at
/// the height at which the viewer came over it.
pub proof fn scroll_comes_back(scroll: Double, later: Seq<Double>)
    ensures
        later.fold_left(covered(None, scroll), |k: Option<Double>, s: Double| covered(k, s))
            == Some(scroll),
    decreases later.len(),
{
    if later.len() > 0 {
        scroll_comes_back(scroll, later.drop_last());
    }
}

/// Switching shuffling on and off again shows the items as they were found.
pub proof fn unshuffled_items_are_as_found(items: Seq<MediaItem>, seed: u64)
    ensures
        shown(items, false, seed) == items,
        shown(items, true, seed).to_multiset() == items.to_multiset(),
{
    shuffled_items_are_the_items(items, seed, items.len() - 1);
}

/// Names that begin with a dot are hidden, and no others are.
pub proof fn dotted_names_are_hidden(c: char, rest: Seq<char>)
    ensures
        hidden(seq![c] + rest) <==> c == '.',
        !hidden(Seq::<char>::empty()),
{
    assert((seq![c] + rest)[0] == c);
}

/// Rows are laid out for the least of the width of the viewport and what is allocated to
/// the grid and to the window, where those are known; while the viewport has no more than
/// a hundred pixels, another width takes its place.
pub proof fn layout_width_is_the_least(
    viewport_width: Single,
    cap_alloc: int,
    window_alloc: int,
    fallback: Single,
)
    requires
        !viewport_width.nan() && !fallback.nan(),
        cap_alloc < 0x100_0000 && window_alloc < 0x100_0000,
    ensures
        ({
            let r = layout_width(viewport_width, cap_alloc, window_alloc, fallback).value();
            let width = if viewport_width.value() > 100 * pow2(149) {
                viewport_width.value()
            } else {
                fallback.value()
            };
            &&& r <= width
            &&& cap_alloc > 0 ==> r <= cap_alloc * pow2(149)
            &&& window_alloc > 0 ==> r <= window_alloc * pow2(149)
            &&& {
                ||| r == width
                ||| cap_alloc > 0 && r == cap_alloc * pow2(149)
                ||| window_alloc > 0 && r == window_alloc * pow2(149)
            }
        }),
{
    let u = pow2(149) as int;
    lemma_pow2_pos(149);
    let hundred = Single { bits: NO_VIEWPORT };
    assert(hundred.value() == 100 * u) by {
        crate::single::lemma_units_of(132, 0xc8_0000);
        lemma_pow2_adds(132, 17);
        lemma2_to64();
        let g = pow2(132);
        assert(0xc8_0000 * g == 100 * (g * 0x2_0000)) by (nonlinear_arith);
    }
    if cap_alloc > 0 {
        crate::single::whole_is_exact(cap_alloc as nat);
    }
    if window_alloc > 0 {
        crate::single::whole_is_exact(window_alloc as nat);
    }
    if cap_alloc <= window_alloc {
        assert(cap_alloc * u <= window_alloc * u) by (nonlinear_arith)
            requires
                cap_alloc <= window_alloc,
                u > 0,
        ;
    } else {
        assert(window_alloc * u <= cap_alloc * u) by (nonlinear_arith)
            requires
                window_alloc <= cap_alloc,
                u > 0,
        ;
    }
}

proof fn lemma_flat_starts(rows: Seq<RowModel>, i: int)
    requires
        0 <= i < rows.len(),
    ensures
        flat(rows.take(i)).len() + rows[i].items@.len() <= flat(rows).len(),
        forall|j: int|
            0 <= j < rows[i].items@.len() ==> flat(rows)[flat(rows.take(i)).len() + j]
                == (#[trigger] rows[i].items@[j]).media_path@,
    decreases rows.len(),
{
    let less = rows.drop_last();
    let last = rows.last().items@.map_values(
        |item: crate::models::row_model::RowItem| item.media_path@,
    );
    if i < rows.len() - 1 {
        lemma_flat_starts(less, i);
        assert(less.take(i) =~= rows.take(i));
        assert(less[i] == rows[i]);
    } else {
        assert(rows.take(i) =~= less);
        assert forall|j: int| 0 <= j < rows[i].items@.len() implies flat(rows)[flat(rows.take(i)).len()
            + j] == (#[trigger] rows[i].items@[j]).media_path@ by {
            assert(last[j] == rows[i].items@[j].media_path@);
        }
    }
}

/// What is decoded ahead of time is the selected item and the 24 on either side of it, as
/// far as there are so many.
pub proof fn as_many_are_taken_on_either_side(
    total: int,
    row_offsets: Seq<usize>,
    row: u32,
    col: u32,
)
    requires
        row < row_offsets.len(),
        row_offsets[row as int] + col < total,
    ensures
        around(total, row_offsets, row, col) matches Some((start, end)) && {
            let at = row_offsets[row as int] + col;
            &&& 0 <= start <= at < end <= total
            &&& start == 0 || at - start == 24
            &&& at - start <= 24
            &&& end == total || end - 1 - at == 24
            &&& end - 1 - at <= 24
        },
{
}

/// The size that is looked up is that of the last item with the path, width first; where
/// there is none, no item has the path.
pub proof fn size_is_that_of_the_item(items: Seq<MediaItem>, path: Seq<char>) -> (i: int)
    ensures
        match size_of(items, path) {
            Some(size) => {
                &&& 0 <= i < items.len()
                &&& same_path(items[i].path@, path)
                &&& size.0 == items[i].width && size.1 == items[i].height
            },
            None => i == -1,
        },
        forall|k: int| i < k < items.len() ==> !same_path((#[trigger] items[k]).path@, path),
    decreases items.len(),
{
    if items.len() == 0 {
        -1
    } else if same_path(items.last().path@, path) {
        items.len() - 1
    } else {
        let less = items.drop_last();
        let i = size_is_that_of_the_item(less, path);
        assert forall|k: int| i < k < items.len() implies !same_path(
            (#[trigger] items[k]).path@,
            path,
        ) by {
            if k < items.len() - 1 {
                assert(less[k] == items[k]);
            }
        }
        i
    }
}

/// A picture of no more than two million pixels is decoded at its full size ahead of
/// time, whichever way it lies; a larger one, and one of unknown size, as a preview.
pub proof fn small_pictures_are_decoded_in_full(w: u32, h: u32)
    ensures
        kind_of(Some((w, h))) == PrefetchKind::Full <==> w * h <= 2_000_000,
        kind_of(Some((h, w))) == kind_of(Some((w, h))),
        kind_of(None) == PrefetchKind::Preview,
{
    assert(w * h == h * w) by (nonlinear_arith);
}

/// The generator of shuffling is linear over exclusive or, never leaves a state other
/// than zero for zero, and takes one to the number that it is known by.
pub proof fn generator_is_linear(a: u64, b: u64)
    ensures
        next_state(a ^ b) == next_state(a) ^ next_state(b),
        next_state(a) == 0 ==> a == 0,
        next_state(1) == 0x4082_2041,
{
    assert({
        let x = a ^ (a << 13);
        let y = x ^ (x >> 7);
        let p = b ^ (b << 13);
        let q = p ^ (p >> 7);
        let c = a ^ b;
        let s = c ^ (c << 13);
        let t = s ^ (s >> 7);
        &&& t ^ (t << 17) == (y ^ (y << 17)) ^ (q ^ (q << 17))
        &&& y ^ (y << 17) == 0 ==> a == 0
    }) by (bit_vector);
    assert({
        let x = 1u64 ^ (1u64 << 13);
        let y = x ^ (x >> 7);
        y ^ (y << 17) == 0x4082_2041
    }) by (bit_vector);
}

/// The last place of shuffled items is taken by the item that the next number of the
/// generator points at; the others are shuffled among the places before it, and what
/// stands behind stays.
pub proof fn shuffling_goes_by_the_generator(items: Seq<MediaItem>, state: u64, last: int)
    requires
        0 < last < items.len(),
    ensures
        ({
            let at = next_state(state) as int % (last + 1);
            &&& shuffled(items, state, last)[last] == items[at]
            &&& shuffled(items, state, last) == shuffled(
                items.update(last, items[at]).update(at, items[last]),
                next_state(state),
                last - 1,
            )
            &&& forall|k: int|
                last < k < items.len() ==> #[trigger] shuffled(items, state, last)[k] == items[k]
        }),
{
    let next = next_state(state);
    let at = next as int % (last + 1);
    lemma_behind_stays(exchanged(items, last, at), next, last - 1);
    lemma_behind_stays(items, state, last);
    assert(shuffled(exchanged(items, last, at), next, last - 1)[last] == exchanged(
        items,
        last,
        at,
    )[last]);
}

proof fn lemma_behind_stays(items: Seq<MediaItem>, state: u64, last: int)
    requires
        last < items.len(),
    ensures
        shuffled(items, state, last).len() == items.len(),
        forall|k: int|
            last < k < items.len() && k >= 0 ==> #[trigger] shuffled(items, state, last)[k]
                == items[k],
    decreases last,
{
    if last > 0 {
        let next = next_state(state);
        let j = next as int % (last + 1);
        let after = exchanged(items, last, j);
        lemma_behind_stays(after, next, last - 1);
        assert forall|k: int| last < k < items.len() && k >= 0 implies #[trigger] shuffled(
            items,
            state,
            last,
        )[k] == items[k] by {
            assert(shuffled(after, next, last - 1)[k] == after[k]);
        }
    }
}

/// A path that is typed in is taken as it is, unless it is at home: `~` stands for the
/// home directory, and `~/` for being below it. Where no home is known nothing is
/// replaced.
pub proof fn home_is_put_in_its_place(input: Seq<char>, home: Seq<char>, rest: Seq<char>)
    requires
        rest.len() == 0 || (rest[0] != '~' && rest[0] != '/'),
    ensures
        expanded(input, None) == input,
        input.len() > 0 && input[0] != '~' ==> expanded(input, Some(home)) == input,
        expanded(seq!['~'], Some(home)) == home,
        expanded(seq!['~', '/'] + rest, Some(home)) == joined(home, rest),
{
    let path = seq!['~', '/'] + rest;
    assert(path.skip(2) =~= rest);
    assert(!starts_at_home(rest));
    assert(below_home(rest) == rest);
    assert(below_home(path) == rest);
    if path == seq!['~'] {
        assert(path.len() == 1);
    }
    if input.len() > 0 && input == seq!['~'] {
        assert(input[0] == '~');
    }
}

/// What is said of a selected place tells the row and then the column, and switches are
/// said to be on or off.
pub proof fn words_of_the_status_line(row: u32, col: u32)
    ensures
        selected(row, col) == "Selected: row "@ + decimal(row as nat) + " col "@ + decimal(
            col as nat,
        ),
        on_off(true) == "ON"@,
        on_off(false) == "OFF"@,
{
}

/// The name that is said of a path is its file name, wherever the file is.
pub proof fn name_that_is_said(dir: Seq<char>, name: Seq<char>, other: Seq<char>)
    requires
        crate::paths::is_name(name),
    ensures
        name_or(joined(dir, name), other) == name,
{
    crate::paths::joined_path_ends_in_the_name(dir, name);
}

/// The folders that are counted are the items that are folders.
pub proof fn folders_are_counted(items: Seq<MediaItem>)
    ensures
        folder_count(items) == items.filter(
            |item: MediaItem| item.media_type == MediaType::Folder,
        ).len(),
    decreases items.len(),
{
    reveal(Seq::filter);
    if items.len() > 0 {
        folders_are_counted(items.drop_last());
    }
}

/// What an earlier scan found, or a scan of another directory, no longer counts; what the
/// last scan of the directory found does, however its path is written.
pub proof fn only_the_last_scan_counts(
    window: MainWindow,
    requested: Seq<char>,
    generation: u64,
)
    ensures
        generation != window.scan_generation ==> !window.accepts(requested, generation),
        window.current_path is None ==> !window.accepts(requested, generation),
        window.current_path matches Some(p) ==> window.accepts(requested, window.scan_generation)
            == same_path(p@, requested),
{
}

/// A path is that of a folder where a folder of the directory has it, however it is written,
/// and not where only files do.
pub proof fn only_folders_are_folders(items: Seq<MediaItem>, i: int, path: Seq<char>)
    requires
        0 <= i < items.len(),
    ensures
        items[i].media_type == MediaType::Folder && same_path(items[i].path@, path) ==> has_folder(
            items,
            path,
        ),
        (forall|k: int|
            0 <= k < items.len() && same_path((#[trigger] items[k]).path@, path)
                ==> items[k].media_type != MediaType::Folder) ==> !has_folder(items, path),
{
}

} // verus!
