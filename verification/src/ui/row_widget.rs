//! A row of the grid: the pictures that stand in it until they are loaded, how they
//! are loaded, and which loads still count once the row is used for other items.
use vstd::arithmetic::power2::pow2;
use vstd::prelude::*;

use crate::bitmap::{
    can_resample, check_can_resample, is_eight, resampled, resize_exact, shallow, to_eight, Bitmap,
    Filter,
};
use crate::image_loader::{open_image, stored_picture};
use crate::models::row_model::{RowItem, RowModel};
use crate::paths::{
    canonical, canonical_path, file_name, is_same_path, join, joined, path_file_name, path_le,
    same_path,
};
use crate::single::{of_whole, rounding_keeps_fractions, Single};
use crate::sorting::{permutation_has_all, sort_paths, sorts_before};
use crate::text::{decimal, push_number, same_text};
use crate::texture_lru::{
    lru_capacity, lru_entries, lru_get, lru_new, lru_push, lru_textures, stored, textures_of,
    touched, value_of, StoredTexture,
};
use crate::ui::decode::{is_whole, lemma_few, lemma_fit_ratio, lemma_scaled_side, some};
use crate::ui::viewer::{is_video_path, names_video, next};

verus! {

/// The side within which pictures of the grid are kept.
pub const ROW_PREVIEW_SIZE: u32 = 512;

/// The most and the fewest threads that load pictures.
pub const ROW_LOADER_MAX_THREADS: usize = 8;

/// The fewest threads that load pictures.
pub const ROW_LOADER_MIN_THREADS: usize = 2;

/// How many requests wait for a thread.
pub const ROW_LOADER_QUEUE: usize = 512;

/// How many pictures are kept.
pub const ROW_CACHE_ENTRIES: usize = 1024;

/// How many results are shown at a time.
pub const ROW_RESULTS_PER_TICK: usize = 12;

/// How many threads load pictures, given how many can run at once: two are left
/// for other work.
pub fn row_loader_threads(parallelism: Option<usize>) -> (r: usize)
    ensures
        r == match parallelism {
            Some(n) => if n < ROW_LOADER_MIN_THREADS + 2 {
                ROW_LOADER_MIN_THREADS
            } else if n > ROW_LOADER_MAX_THREADS + 2 {
                ROW_LOADER_MAX_THREADS
            } else {
                (n - 2) as usize
            },
            None => 4,
        },
{
    match parallelism {
        Some(n) => if n < ROW_LOADER_MIN_THREADS + 2 {
            ROW_LOADER_MIN_THREADS
        } else if n > ROW_LOADER_MAX_THREADS + 2 {
            ROW_LOADER_MAX_THREADS
        } else {
            n - 2
        },
        None => 4,
    }
}

/// The side of the placeholder.
pub const PLACEHOLDER_SIDE: u32 = 64;

/// The side of the folder icon.
pub const FOLDER_SIDE: u32 = 128;

/// The grey of the placeholder and of the inside of the folder.
pub const FILL: u8 = 0x1a;

/// The grey around the folder.
pub const GROUND: u8 = 0x12;

/// The grey of the outline of the folder.
pub const OUTLINE: u8 = 0x33;

/// The shade of grey of the folder icon at a place: a body with an outline, and a
/// tab above it that is an outline on the ground.
pub open spec fn folder_shade(x: int, y: int) -> u8 {
    if 20 <= x <= 108 && 35 <= y <= 95 {
        if x == 20 || x == 108 || y == 35 || y == 95 {
            OUTLINE
        } else {
            FILL
        }
    } else if 20 <= x < 55 && 24 <= y < 35 && (x == 20 || x == 54 || y == 24) {
        OUTLINE
    } else {
        GROUND
    }
}

fn shade_at(x: u32, y: u32) -> (r: u8)
    ensures
        r == folder_shade(x as int, y as int),
{
    if 20 <= x && x <= 108 && 35 <= y && y <= 95 {
        if x == 20 || x == 108 || y == 35 || y == 95 {
            OUTLINE
        } else {
            FILL
        }
    } else if 20 <= x && x < 55 && 24 <= y && y < 35 && (x == 20 || x == 54 || y == 24) {
        OUTLINE
    } else {
        GROUND
    }
}

/// The four bytes of an opaque shade of grey.
pub open spec fn grey(shade: u8) -> Seq<u8> {
    seq![shade, shade, shade, 0xffu8]
}

fn push_grey(out: &mut Vec<u8>, shade: u8)
    ensures
        final(out)@ == old(out)@ + grey(shade),
{
    out.push(shade);
    out.push(shade);
    out.push(shade);
    out.push(0xff);
    assert(out@ =~= old(out)@ + grey(shade));
}

/// A square picture made of the given shades, row by row.
pub open spec fn grey_square(side: nat, n: nat, shade: spec_fn(int, int) -> u8) -> Seq<u8>
    decreases n,
{
    if n == 0 {
        seq![]
    } else {
        grey_square(side, (n - 1) as nat, shade) + grey(
            shade((n - 1) % side as int, (n - 1) / side as int),
        )
    }
}

proof fn lemma_square_len(side: nat, n: nat, shade: spec_fn(int, int) -> u8)
    ensures
        grey_square(side, n, shade).len() == 4 * n,
    decreases n,
{
    if n > 0 {
        lemma_square_len(side, (n - 1) as nat, shade);
    }
}

/// What stands in the place of a picture until it is loaded.
pub fn placeholder_texture() -> (r: Bitmap)
    ensures
        r.wf(),
        r.width == PLACEHOLDER_SIDE,
        r.height == PLACEHOLDER_SIDE,
        r.rgba@ == grey_square(64, 4096, |x: int, y: int| FILL),
{
    let ghost shade = |x: int, y: int| FILL;
    let mut rgba: Vec<u8> = Vec::new();
    let mut i: u32 = 0;
    while i < 4096
        invariant
            i <= 4096,
            shade == (|x: int, y: int| FILL),
            rgba@ == grey_square(64, i as nat, shade),
        decreases 4096 - i,
    {
        push_grey(&mut rgba, FILL);
        i = i + 1;
    }
    proof {
        lemma_square_len(64, 4096, shade);
    }
    Bitmap { width: PLACEHOLDER_SIDE, height: PLACEHOLDER_SIDE, rgba }
}

/// The icon of a folder.
pub fn folder_texture() -> (r: Bitmap)
    ensures
        r.wf(),
        r.width == FOLDER_SIDE,
        r.height == FOLDER_SIDE,
        r.rgba@ == grey_square(128, 16384, |x: int, y: int| folder_shade(x, y)),
{
    let ghost shade = |x: int, y: int| folder_shade(x, y);
    let mut rgba: Vec<u8> = Vec::new();
    let mut i: u32 = 0;
    while i < 16384
        invariant
            i <= 16384,
            shade == (|x: int, y: int| folder_shade(x, y)),
            rgba@ == grey_square(128, i as nat, shade),
        decreases 16384 - i,
    {
        let s: u8 = shade_at(i % 128, i / 128);
        push_grey(&mut rgba, s);
        i = i + 1;
    }
    proof {
        lemma_square_len(128, 16384, shade);
    }
    Bitmap { width: FOLDER_SIDE, height: FOLDER_SIDE, rgba }
}

/// The size to which a picture of the grid is scaled down: nothing where it is
/// small enough.
pub open spec fn preview_size(width: u32, height: u32) -> Option<(u32, u32)> {
    if width <= ROW_PREVIEW_SIZE && height <= ROW_PREVIEW_SIZE {
        None
    } else {
        let limit = of_whole(ROW_PREVIEW_SIZE as nat);
        let scale = limit.quotient(of_whole(width as nat)).smaller(
            limit.quotient(of_whole(height as nat)),
        );
        Some(
            (
                some(of_whole(width as nat).product(scale).nearest_whole()),
                some(of_whole(height as nat).product(scale).nearest_whole()),
            ),
        )
    }
}

/// The size to which a picture of the grid is scaled down.
pub fn row_preview_size(width: u32, height: u32) -> (r: Option<(u32, u32)>)
    ensures
        r == preview_size(width, height),
{
    if width <= ROW_PREVIEW_SIZE && height <= ROW_PREVIEW_SIZE {
        return None;
    }
    let limit = Single::from_whole(ROW_PREVIEW_SIZE as u64);
    let scale_w = limit.over(Single::from_whole(width as u64));
    let scale_h = limit.over(Single::from_whole(height as u64));
    let scale = scale_w.min(scale_h);
    let w: u32 = Single::from_whole(width as u64).times(scale).round_to_whole();
    let h: u32 = Single::from_whole(height as u64).times(scale).round_to_whole();
    Some(
        (
            if w == 0 {
                1
            } else {
                w
            },
            if h == 0 {
                1
            } else {
                h
            },
        ),
    )
}

/// Whether a picture can be scaled down for the grid.
pub open spec fn can_preview(picture: (u32, u32, Seq<u8>)) -> bool {
    match preview_size(picture.0, picture.1) {
        Some((w, h)) => can_resample(picture.0, w, h),
        None => true,
    }
}

/// A picture scaled down for the grid.
pub open spec fn preview_of(picture: (u32, u32, Seq<u8>)) -> (u32, u32, Seq<u8>) {
    match preview_size(picture.0, picture.1) {
        Some((w, h)) => (w, h, resampled(picture, w, h)),
        None => picture,
    }
}

/// Scales a picture down for the grid, to be shown.
pub fn row_preview(img: Bitmap) -> (r: Option<Bitmap>)
    requires
        img.wf(),
    ensures
        match r {
            Some(out) => can_preview(img@) && out@ == shallow(preview_of(img@)) && out.wf()
                && is_eight(out@),
            None => !can_preview(img@),
        },
{
    match row_preview_size(img.width, img.height) {
        Some((w, h)) => {
            if !check_can_resample(img.width, w, h) {
                return None;
            }
            Some(to_eight(resize_exact(&img, w, h, Filter::Triangle)))
        },
        None => Some(to_eight(img)),
    }
}

/// Decodes a picture for the grid.
pub fn decode_row_preview(bytes: &[u8]) -> (r: Option<Bitmap>)
    ensures
        match r {
            Some(out) => out.wf() && is_eight(out@) && exists|img: Bitmap|
                #[trigger] is_whole(bytes@, 0, img) && out@ == shallow(preview_of(img@)),
            None => stored_picture(bytes@) is Err || exists|img: Bitmap|
                #[trigger] is_whole(bytes@, 0, img) && !can_preview(img@),
        },
{
    match open_image(bytes) {
        Ok(img) => {
            assert(is_whole(bytes@, 0, img));
            let ghost whole = img;
            let out = row_preview(img);
            assert(is_whole(bytes@, 0, whole));
            out
        },
        Err(_) => None,
    }
}

/// A program that takes a picture out of a video.
#[derive(Clone, Copy, PartialEq, Eq, Structural, Debug)]
pub enum PreviewTool {
    Mpv,
    /// `mpv` outside the sandbox.
    HostMpv,
    Gstreamer,
    /// GStreamer outside the sandbox.
    HostGstreamer,
}

/// The programs to try, in order. Inside a sandbox those outside are tried too.
pub fn preview_tools(sandboxed: bool) -> (r: Vec<PreviewTool>)
    ensures
        r@ == if sandboxed {
            seq![
                PreviewTool::Mpv,
                PreviewTool::HostMpv,
                PreviewTool::Gstreamer,
                PreviewTool::HostGstreamer,
            ]
        } else {
            seq![PreviewTool::Mpv, PreviewTool::Gstreamer]
        },
{
    if sandboxed {
        vec![
            PreviewTool::Mpv,
            PreviewTool::HostMpv,
            PreviewTool::Gstreamer,
            PreviewTool::HostGstreamer,
        ]
    } else {
        vec![PreviewTool::Mpv, PreviewTool::Gstreamer]
    }
}

/// The words of a command as plain text.
pub open spec fn words(v: Seq<String>) -> Seq<Seq<char>> {
    v.map_values(|s: String| s@)
}

/// The command that takes a picture out of a video with `mpv`.
pub open spec fn mpv_words(path: Seq<char>, out_dir: Seq<char>, start: Seq<char>) -> Seq<
    Seq<char>,
> {
    seq![
        "mpv"@,
        "--no-config"@,
        "--no-terminal"@,
        "--msg-level=all=error"@,
        "--ao=null"@,
        "--vo=image"@,
        "--vo-image-format=png"@,
        "--vo-image-outdir="@ + out_dir,
        "--frames=1"@,
        "--start="@ + start,
        "--"@,
        path,
    ]
}

/// The command that takes a picture out of a video with GStreamer.
pub open spec fn gstreamer_words(path: Seq<char>, out_dir: Seq<char>) -> Seq<Seq<char>> {
    seq![
        "gst-launch-1.0"@,
        "-q"@,
        "filesrc"@,
        "location="@ + path,
        "!"@,
        "decodebin"@,
        "!"@,
        "videoconvert"@,
        "!"@,
        "pngenc"@,
        "snapshot=true"@,
        "!"@,
        "filesink"@,
        "location="@ + joined(out_dir, "thumb-gst.png"@),
    ]
}

/// The command that takes a picture out of a video.
pub open spec fn preview_words(
    tool: PreviewTool,
    path: Seq<char>,
    out_dir: Seq<char>,
    start: Seq<char>,
) -> Seq<Seq<char>> {
    match tool {
        PreviewTool::Mpv => mpv_words(path, out_dir, start),
        PreviewTool::HostMpv => seq!["flatpak-spawn"@, "--host"@] + mpv_words(path, out_dir, start),
        PreviewTool::Gstreamer => gstreamer_words(path, out_dir),
        PreviewTool::HostGstreamer => seq!["flatpak-spawn"@, "--host"@] + gstreamer_words(
            path,
            out_dir,
        ),
    }
}

fn glued(a: &str, b: &str) -> (r: String)
    ensures
        r@ == a@ + b@,
{
    let mut out = String::new();
    out.push_str(a);
    out.push_str(b);
    assert(out@ =~= a@ + b@);
    out
}

fn push_mpv(out: &mut Vec<String>, path: &str, out_dir: &str, start: &str)
    ensures
        words(final(out)@) == words(old(out)@) + mpv_words(path@, out_dir@, start@),
{
    out.push("mpv".to_owned());
    out.push("--no-config".to_owned());
    out.push("--no-terminal".to_owned());
    out.push("--msg-level=all=error".to_owned());
    out.push("--ao=null".to_owned());
    out.push("--vo=image".to_owned());
    out.push("--vo-image-format=png".to_owned());
    out.push(glued("--vo-image-outdir=", out_dir));
    out.push("--frames=1".to_owned());
    out.push(glued("--start=", start));
    out.push("--".to_owned());
    out.push(path.to_owned());
    assert(words(out@) =~= words(old(out)@) + mpv_words(path@, out_dir@, start@));
}

fn push_gstreamer(out: &mut Vec<String>, path: &str, out_dir: &str)
    ensures
        words(final(out)@) == words(old(out)@) + gstreamer_words(path@, out_dir@),
{
    let target = join(out_dir, "thumb-gst.png");
    out.push("gst-launch-1.0".to_owned());
    out.push("-q".to_owned());
    out.push("filesrc".to_owned());
    out.push(glued("location=", path));
    out.push("!".to_owned());
    out.push("decodebin".to_owned());
    out.push("!".to_owned());
    out.push("videoconvert".to_owned());
    out.push("!".to_owned());
    out.push("pngenc".to_owned());
    out.push("snapshot=true".to_owned());
    out.push("!".to_owned());
    out.push("filesink".to_owned());
    out.push(glued("location=", &target));
    assert(words(out@) =~= words(old(out)@) + gstreamer_words(path@, out_dir@));
}

/// The command that takes a picture out of a video, from the given second on.
pub fn preview_command(tool: PreviewTool, path: &str, out_dir: &str, start: &str) -> (r: Vec<
    String,
>)
    ensures
        words(r@) == preview_words(tool, path@, out_dir@, start@),
{
    let mut out: Vec<String> = Vec::new();
    let host: bool = match tool {
        PreviewTool::HostMpv | PreviewTool::HostGstreamer => true,
        _ => false,
    };
    if host {
        out.push("flatpak-spawn".to_owned());
        out.push("--host".to_owned());
    }
    let ghost lead = words(out@);
    assert(lead =~= if host {
        seq!["flatpak-spawn"@, "--host"@]
    } else {
        seq![]
    });
    match tool {
        PreviewTool::Mpv | PreviewTool::HostMpv => push_mpv(&mut out, path, out_dir, start),
        PreviewTool::Gstreamer | PreviewTool::HostGstreamer => push_gstreamer(
            &mut out,
            path,
            out_dir,
        ),
    }
    assert(words(out@) =~= preview_words(tool, path@, out_dir@, start@));
    out
}

/// The seconds from which a picture is taken out of a video, in order.
pub fn preview_starts() -> (r: Vec<String>)
    ensures
        words(r@) == seq!["1.000"@, "0.000"@],
{
    let out: Vec<String> = vec!["1.000".to_owned(), "0.000".to_owned()];
    assert(words(out@) =~= seq!["1.000"@, "0.000"@]);
    out
}

/// The name of the directory that pictures of a video are written to.
pub fn preview_dir_name(process: u32, id: u64) -> (r: String)
    ensures
        r@ == "idxd-mpv-thumb-"@ + decimal(process as nat) + seq!['-'] + decimal(id as nat),
{
    let mut out = "idxd-mpv-thumb-".to_owned();
    push_number(&mut out, process as u128);
    out.push('-');
    push_number(&mut out, id as u128);
    assert(out@ =~= "idxd-mpv-thumb-"@ + decimal(process as nat) + seq!['-'] + decimal(
        id as nat,
    ));
    out
}

/// The file that comes last by its path.
pub fn last_file(files: &Vec<String>) -> (r: Option<usize>)
    ensures
        match r {
            Some(k) => k < files@.len() && forall|i: int|
                0 <= i < files@.len() && i != k ==> path_le(
                    (#[trigger] files@[i])@,
                    files@[k as int]@,
                ),
            None => files@.len() == 0,
        },
{
    if files.len() == 0 {
        return None;
    }
    let order = sort_paths(files);
    let k: usize = order[order.len() - 1];
    proof {
        assert forall|i: int| 0 <= i < files@.len() && i != k implies path_le(
            (#[trigger] files@[i])@,
            files@[k as int]@,
        ) by {
            permutation_has_all(order@, files@.len() as int, i as usize);
            let p = choose|p: int| 0 <= p < order@.len() && order@[p] == i;
            assert(order@[order@.len() - 1] == k);
            assert(p < order@.len() - 1);
            assert(sorts_before(files@, order@[p], k));
        }
    }
    Some(k)
}

/// Who waits for a picture: the row, the place in it, and the number of the load.
#[derive(Clone, Copy, PartialEq, Eq, Structural, Debug)]
pub struct Waiter {
    pub widget: u64,
    pub index: usize,
    pub token: u64,
}

struct Waiting {
    path: String,
    waiter: Waiter,
}

spec fn waiting(list: Seq<Waiting>, path: Seq<char>) -> Seq<Waiter>
    decreases list.len(),
{
    if list.len() == 0 {
        seq![]
    } else if list.last().path@ == path {
        waiting(list.drop_last(), path).push(list.last().waiter)
    } else {
        waiting(list.drop_last(), path)
    }
}

spec fn pending(list: Seq<String>, path: Seq<char>) -> bool {
    exists|i: int| 0 <= i < list.len() && (#[trigger] list[i])@ == path
}

/// What is done about a request for a picture.
#[derive(Clone, Copy, PartialEq, Eq, Structural, Debug)]
pub enum RowRequest {
    /// The picture is there.
    Cached(u64),
    /// The picture is to be loaded, for the given generation.
    Send(u64),
    /// The picture is being loaded.
    Wait,
}

/// Loads the pictures of the grid, each once for all who wait for it.
pub struct RowImageLoader {
    pending: Vec<String>,
    waiters: Vec<Waiting>,
    cache: lru::LruCache<String, StoredTexture>,
    generation: u64,
}

impl RowImageLoader {
    /// Who waits for the picture of the path with the given canonical text.
    pub closed spec fn waiters_of(self, path: Seq<char>) -> Seq<Waiter> {
        waiting(self.waiters@, path)
    }

    /// Whether the picture of the path with the given canonical text is being loaded.
    pub closed spec fn is_pending(self, path: Seq<char>) -> bool {
        pending(self.pending@, path)
    }

    /// The pictures that are kept, under the canonical texts of their paths.
    pub closed spec fn kept(self) -> Seq<(Seq<char>, StoredTexture)> {
        lru_entries(self.cache)
    }

    /// How many pictures can be kept.
    pub closed spec fn capacity(self) -> nat {
        lru_capacity(self.cache)
    }

    /// Which requests count.
    pub closed spec fn current(self) -> u64 {
        self.generation
    }

    /// Nothing is loaded or kept.
    pub fn new() -> (r: Self)
        ensures
            forall|p: Seq<char>| (#[trigger] r.waiters_of(p)).len() == 0,
            forall|p: Seq<char>| !#[trigger] r.is_pending(p),
            r.kept().len() == 0,
            r.capacity() == ROW_CACHE_ENTRIES,
            r.current() == 1,
    {
        RowImageLoader {
            pending: Vec::new(),
            waiters: Vec::new(),
            cache: lru_new(ROW_CACHE_ENTRIES),
            generation: 1,
        }
    }

    fn check_pending(&self, path: &str) -> (r: bool)
        ensures
            r == self.is_pending(path@),
    {
        let mut i: usize = 0;
        while i < self.pending.len()
            invariant
                i <= self.pending@.len(),
                forall|k: int| 0 <= k < i ==> (#[trigger] self.pending@[k])@ != path@,
            decreases self.pending@.len() - i,
        {
            if same_text(&self.pending[i], path) {
                return true;
            }
            i = i + 1;
        }
        false
    }

    fn forget_pending(&mut self, path: &str)
        ensures
            forall|p: Seq<char>|
                #[trigger] final(self).is_pending(p) == (p != path@ && old(self).is_pending(p)),
            final(self).waiters == old(self).waiters,
            final(self).cache == old(self).cache,
            final(self).generation == old(self).generation,
    {
        let mut kept: Vec<String> = Vec::new();
        let mut i: usize = 0;
        while i < self.pending.len()
            invariant
                i <= self.pending@.len(),
                *self == *old(self),
                forall|p: Seq<char>|
                    #[trigger] pending(kept@, p) == (p != path@ && pending(
                        self.pending@.take(i as int),
                        p,
                    )),
            decreases self.pending@.len() - i,
        {
            let ghost had = kept@;
            let item = self.pending[i].clone();
            let same: bool = same_text(&item, path);
            let ghost text = item@;
            if !same {
                kept.push(item);
            }
            proof {
                let before = self.pending@.take(i as int);
                let after = self.pending@.take(i + 1);
                assert(after =~= before.push(self.pending@[i as int]));
                assert forall|p: Seq<char>|
                    #[trigger] pending(kept@, p) == (p != path@ && pending(after, p)) by {
                    lemma_pending_push(before, self.pending@[i as int], p);
                    if !same {
                        lemma_pending_push(had, kept@.last(), p);
                        assert(kept@ =~= had.push(kept@.last()));
                    }
                    assert(pending(had, p) == (p != path@ && pending(before, p)));
                }
            }
            i = i + 1;
        }
        assert(self.pending@.take(self.pending@.len() as int) =~= self.pending@);
        self.pending = kept;
    }

    fn take_waiters(&mut self, path: &str) -> (r: Vec<Waiter>)
        ensures
            r@ == old(self).waiters_of(path@),
            forall|p: Seq<char>|
                #[trigger] final(self).waiters_of(p) == if p == path@ {
                    seq![]
                } else {
                    old(self).waiters_of(p)
                },
            final(self).pending == old(self).pending,
            final(self).cache == old(self).cache,
            final(self).generation == old(self).generation,
    {
        let mut taken: Vec<Waiter> = Vec::new();
        let mut kept: Vec<Waiting> = Vec::new();
        let mut i: usize = 0;
        assert(self.waiters@.take(0) =~= seq![]);
        while i < self.waiters.len()
            invariant
                i <= self.waiters@.len(),
                *self == *old(self),
                taken@ == waiting(self.waiters@.take(i as int), path@),
                forall|p: Seq<char>|
                    #[trigger] waiting(kept@, p) == if p == path@ {
                        seq![]
                    } else {
                        waiting(self.waiters@.take(i as int), p)
                    },
            decreases self.waiters@.len() - i,
        {
            let ghost had = kept@;
            let ghost after = self.waiters@.take(i + 1);
            let w = &self.waiters[i];
            assert(after.drop_last() =~= self.waiters@.take(i as int));
            assert(after.last() == *w);
            if same_text(&w.path, path) {
                taken.push(w.waiter);
                assert forall|p: Seq<char>| #[trigger] waiting(kept@, p) == if p == path@ {
                    seq![]
                } else {
                    waiting(after, p)
                } by {
                    assert(waiting(had, p) == if p == path@ {
                        seq![]
                    } else {
                        waiting(self.waiters@.take(i as int), p)
                    });
                }
            } else {
                kept.push(Waiting { path: w.path.clone(), waiter: w.waiter });
                assert(kept@.drop_last() =~= had);
                assert forall|p: Seq<char>| #[trigger] waiting(kept@, p) == if p == path@ {
                    seq![]
                } else {
                    waiting(after, p)
                } by {
                    assert(waiting(had, p) == if p == path@ {
                        seq![]
                    } else {
                        waiting(self.waiters@.take(i as int), p)
                    });
                }
            }
            i = i + 1;
        }
        assert(self.waiters@.take(self.waiters@.len() as int) =~= self.waiters@);
        self.waiters = kept;
        taken
    }

    /// Asks for a picture. Who asks waits for it unless it is there, and it is loaded
    /// unless that was asked for already.
    pub fn request(&mut self, path: &str, waiter: Waiter) -> (r: RowRequest)
        ensures
            final(self).capacity() == old(self).capacity(),
            final(self).current() == old(self).current(),
            final(self).kept() == touched(old(self).kept(), canonical(path@)),
            match value_of(old(self).kept(), canonical(path@)) {
                Some(e) => {
                    &&& r == RowRequest::Cached(e.texture)
                    &&& forall|p: Seq<char>|
                        #[trigger] final(self).waiters_of(p) == old(self).waiters_of(p)
                    &&& forall|p: Seq<char>|
                        #[trigger] final(self).is_pending(p) == old(self).is_pending(p)
                },
                None => {
                    &&& r == if old(self).is_pending(canonical(path@)) {
                        RowRequest::Wait
                    } else {
                        RowRequest::Send(old(self).current())
                    }
                    &&& forall|p: Seq<char>|
                        #[trigger] final(self).waiters_of(p) == if p == canonical(path@) {
                            old(self).waiters_of(p).push(waiter)
                        } else {
                            old(self).waiters_of(p)
                        }
                    &&& forall|p: Seq<char>|
                        #[trigger] final(self).is_pending(p) == (p == canonical(path@)
                            || old(self).is_pending(p))
                },
            },
    {
        let key = canonical_path(path);
        if let Some(e) = lru_get(&mut self.cache, &key) {
            return RowRequest::Cached(e.texture);
        }
        let ghost had = self.waiters@;
        let known: bool = self.check_pending(&key);
        assert(known == pending(self.pending@, canonical(path@)));
        self.waiters.push(Waiting { path: key.clone(), waiter });
        assert(self.waiters@.drop_last() =~= had);
        if known {
            return RowRequest::Wait;
        }
        let ghost before = self.pending@;
        self.pending.push(key);
        proof {
            assert forall|p: Seq<char>| #[trigger] pending(self.pending@, p) == (p == canonical(path@)
                || pending(before, p)) by {
                lemma_pending_push(before, key, p);
            }
        }
        RowRequest::Send(self.generation)
    }

    /// Notes that a request could not be handed on: nobody waits for it.
    pub fn send_failed(&mut self, path: &str)
        ensures
            final(self).capacity() == old(self).capacity(),
            final(self).current() == old(self).current(),
            final(self).kept() == old(self).kept(),
            forall|p: Seq<char>|
                #[trigger] final(self).is_pending(p) == (p != canonical(path@) && old(self).is_pending(p)),
            forall|p: Seq<char>|
                #[trigger] final(self).waiters_of(p) == if p == canonical(path@) {
                    seq![]
                } else {
                    old(self).waiters_of(p)
                },
    {
        let key = canonical_path(path);
        self.forget_pending(&key);
        let ghost mid = *self;
        self.take_waiters(&key);
        assert forall|p: Seq<char>| #[trigger] self.is_pending(p) == mid.is_pending(p) by {}
        assert forall|p: Seq<char>| #[trigger] mid.waiters_of(p) == old(self).waiters_of(p) by {}
        assert forall|p: Seq<char>| #[trigger] self.waiters_of(p) == if p == canonical(path@) {
            seq![]
        } else {
            old(self).waiters_of(p)
        } by {
            assert(mid.waiters_of(p) == old(self).waiters_of(p));
        }
        assert forall|p: Seq<char>| #[trigger] self.is_pending(p) == (p != canonical(path@)
            && old(self).is_pending(p)) by {
            assert(mid.is_pending(p) == (p != canonical(path@) && old(self).is_pending(p)));
        }
    }

    /// Whether a request still counts.
    pub fn is_current(&self, generation: u64) -> (r: bool)
        ensures
            r == (generation == self.current()),
    {
        generation == self.generation
    }

    /// Drops all requests: none of them counts any more, and nobody waits.
    pub fn reschedule(&mut self)
        ensures
            final(self).capacity() == old(self).capacity(),
            final(self).current() == next(old(self).current()),
            final(self).kept() == old(self).kept(),
            forall|p: Seq<char>| !#[trigger] final(self).is_pending(p),
            forall|p: Seq<char>| (#[trigger] final(self).waiters_of(p)).len() == 0,
    {
        self.generation = if self.generation == u64::MAX {
            0
        } else {
            self.generation + 1
        };
        self.pending.clear();
        self.waiters.clear();
    }

    /// Takes a picture that was loaded, or that could not be: it is kept, and all who
    /// wait for it are told.
    pub fn process_result(&mut self, path: &str, texture: Option<(u64, u32, u32)>) -> (r: Vec<
        Waiter,
    >)
        ensures
            final(self).capacity() == old(self).capacity(),
            final(self).current() == old(self).current(),
            r@ == old(self).waiters_of(canonical(path@)),
            forall|p: Seq<char>|
                #[trigger] final(self).is_pending(p) == (p != canonical(path@) && old(self).is_pending(p)),
            forall|p: Seq<char>|
                #[trigger] final(self).waiters_of(p) == if p == canonical(path@) {
                    seq![]
                } else {
                    old(self).waiters_of(p)
                },
            final(self).kept() == match texture {
                Some((texture, width, height)) => stored(
                    old(self).kept(),
                    old(self).capacity(),
                    canonical(path@),
                    StoredTexture { texture, width, height, bytes: 0, full: false },
                ),
                None => old(self).kept(),
            },
    {
        let key = canonical_path(path);
        self.forget_pending(&key);
        let ghost mid = *self;
        if let Some((texture, width, height)) = texture {
            let entry = StoredTexture { texture, width, height, bytes: 0, full: false };
            lru_push(&mut self.cache, key.clone(), entry);
        }
        let ghost mid2 = *self;
        let out = self.take_waiters(&key);
        assert forall|p: Seq<char>| #[trigger] self.waiters_of(p) == if p == canonical(path@) {
            seq![]
        } else {
            old(self).waiters_of(p)
        } by {
            assert(mid2.waiters_of(p) == old(self).waiters_of(p));
        }
        assert forall|p: Seq<char>| #[trigger] self.is_pending(p) == (p != canonical(path@)
            && old(self).is_pending(p)) by {
            assert(mid.is_pending(p) == (p != canonical(path@) && old(self).is_pending(p)));
        }
        assert(mid2.waiters_of(canonical(path@)) == old(self).waiters_of(canonical(path@)));
        out
    }

    /// The textures that are kept, most recently used first.
    pub fn textures(&self) -> (r: Vec<u64>)
        ensures
            r@ == textures_of(self.kept()),
    {
        lru_textures(&self.cache)
    }

    /// The picture that is kept for a path; it counts as used.
    pub fn cached_texture(&mut self, path: &str) -> (r: Option<u64>)
        ensures
            final(self).capacity() == old(self).capacity(),
            final(self).current() == old(self).current(),
            final(self).kept() == touched(old(self).kept(), canonical(path@)),
            forall|p: Seq<char>| #[trigger] final(self).is_pending(p) == old(self).is_pending(p),
            forall|p: Seq<char>| #[trigger] final(self).waiters_of(p) == old(self).waiters_of(p),
            r == match value_of(old(self).kept(), canonical(path@)) {
                Some(e) => Some(e.texture),
                None => None,
            },
    {
        let key = canonical_path(path);
        match lru_get(&mut self.cache, &key) {
            Some(e) => Some(e.texture),
            None => None,
        }
    }
}

proof fn lemma_pending_push(list: Seq<String>, item: String, path: Seq<char>)
    ensures
        pending(list.push(item), path) == (item@ == path || pending(list, path)),
{
    let all = list.push(item);
    if item@ == path {
        assert(all[list.len() as int]@ == path);
    }
    if pending(list, path) {
        let i = choose|i: int| 0 <= i < list.len() && (#[trigger] list[i])@ == path;
        assert(all[i]@ == path);
    }
    if pending(all, path) {
        let i = choose|i: int| 0 <= i < all.len() && (#[trigger] all[i])@ == path;
        if i < list.len() {
            assert(list[i]@ == path);
        }
    }
}

/// How an item is shown in its place.
#[derive(Debug)]
pub struct SlotPlan {
    pub width: i32,
    pub height: i32,
    pub is_folder: bool,
    /// The name that is shown on a folder.
    pub label: Option<String>,
    /// Whether the mark of a video is shown.
    pub badge: bool,
    /// The number of the load; zero where nothing is loaded.
    pub token: u64,
}

/// At least one, and what 31 bits hold.
pub open spec fn pixels(n: u32) -> i32 {
    if n < 1 {
        1
    } else if n > i32::MAX {
        i32::MAX
    } else {
        n as i32
    }
}

fn to_pixels(n: u32) -> (r: i32)
    ensures
        r == pixels(n),
{
    if n < 1 {
        1
    } else if n > i32::MAX as u32 {
        i32::MAX
    } else {
        n as i32
    }
}

/// How many of the first items are loaded.
pub open spec fn loads_before(items: Seq<RowItem>, n: int) -> nat
    decreases n,
{
    if n <= 0 {
        0
    } else {
        loads_before(items, n - 1) + if items[n - 1].is_folder {
            0nat
        } else {
            1
        }
    }
}

/// The number of the load of an item.
pub open spec fn token_of(items: Seq<RowItem>, first: u64, i: int) -> u64 {
    if items[i].is_folder {
        0
    } else {
        (first + loads_before(items, i)) as u64
    }
}

/// Whether a plan is that of an item.
pub open spec fn plans(p: SlotPlan, item: RowItem, token: u64) -> bool {
    &&& p.width == pixels(item.display_w.whole())
    &&& p.height == pixels(item.display_h.nearest_whole())
    &&& p.is_folder == item.is_folder
    &&& p.token == token
    &&& p.badge == (!item.is_folder && names_video(item.media_path@))
    &&& match p.label {
        Some(label) => item.is_folder && label@ == match path_file_name(item.media_path@) {
            Some(name) => name,
            None => "[folder]"@,
        },
        None => !item.is_folder,
    }
}

/// The items that a row widget shows, and the loads that count for them.
pub struct RowSlots {
    pub load_tokens: Vec<u64>,
    pub item_paths: Vec<String>,
    pub item_is_folder: Vec<bool>,
    pub row_index: u32,
}

impl RowSlots {
    /// Whether a picture that was loaded is shown at a place.
    pub open spec fn accepts(self, index: int, token: u64, path: Seq<char>) -> bool {
        &&& 0 <= index < self.load_tokens@.len()
        &&& self.load_tokens@[index] == token
        &&& index < self.item_paths@.len()
        &&& same_path(self.item_paths@[index]@, path)
    }

    /// A widget that shows nothing.
    pub fn new() -> (r: Self)
        ensures
            r.load_tokens@.len() == 0,
            r.item_paths@.len() == 0,
            r.item_is_folder@.len() == 0,
            r.row_index == 0,
    {
        RowSlots {
            load_tokens: Vec::new(),
            item_paths: Vec::new(),
            item_is_folder: Vec::new(),
            row_index: 0,
        }
    }

    /// Shows the items of a row. Loads get numbers from the first one on; what was
    /// loaded under an earlier number is no longer shown.
    pub fn bind(&mut self, row: &RowModel, first_token: u64) -> (r: (Vec<SlotPlan>, u64))
        requires
            first_token > 0,
            first_token + row.items@.len() <= u64::MAX,
        ensures
            r.0@.len() == row.items@.len(),
            forall|i: int|
                0 <= i < r.0@.len() ==> plans(
                    #[trigger] r.0@[i],
                    row.items@[i],
                    token_of(row.items@, first_token, i),
                ),
            r.1 == first_token + loads_before(row.items@, row.items@.len() as int),
            final(self).row_index == row.row_index,
            final(self).item_paths@.len() == row.items@.len(),
            final(self).item_is_folder@.len() == row.items@.len(),
            forall|i: int|
                0 <= i < row.items@.len() ==> (#[trigger] final(self).item_paths@[i])@
                    == row.items@[i].media_path@,
            forall|i: int|
                0 <= i < row.items@.len() ==> #[trigger] final(self).item_is_folder@[i]
                    == row.items@[i].is_folder,
            final(self).load_tokens@.len() == if old(self).load_tokens@.len() > row.items@.len() {
                old(self).load_tokens@.len()
            } else {
                row.items@.len()
            },
            forall|i: int|
                0 <= i < final(self).load_tokens@.len() ==> #[trigger] final(self).load_tokens@[i]
                    == if i < row.items@.len() {
                    token_of(row.items@, first_token, i)
                } else {
                    0
                },
            forall|i: int, token: u64, path: Seq<char>|
                0 < token < first_token ==> !#[trigger] final(self).accepts(i, token, path),
    {
        let items = &row.items;
        let mut plans_out: Vec<SlotPlan> = Vec::new();
        let mut tokens: Vec<u64> = Vec::new();
        let mut paths: Vec<String> = Vec::new();
        let mut folders: Vec<bool> = Vec::new();
        let mut token: u64 = first_token;
        let mut i: usize = 0;
        while i < items.len()
            invariant
                items == &row.items,
                i <= items@.len(),
                first_token > 0,
                first_token + items@.len() <= u64::MAX,
                token == first_token + loads_before(items@, i as int),
                loads_before(items@, i as int) <= i,
                plans_out@.len() == i,
                tokens@.len() == i,
                paths@.len() == i,
                folders@.len() == i,
                forall|k: int|
                    0 <= k < i ==> plans(
                        #[trigger] plans_out@[k],
                        items@[k],
                        token_of(items@, first_token, k),
                    ),
                forall|k: int|
                    0 <= k < i ==> #[trigger] tokens@[k] == token_of(items@, first_token, k),
                forall|k: int| 0 <= k < i ==> (#[trigger] paths@[k])@ == items@[k].media_path@,
                forall|k: int| 0 <= k < i ==> #[trigger] folders@[k] == items@[k].is_folder,
                forall|k: int|
                    0 <= k < i ==> (#[trigger] tokens@[k] == 0 || tokens@[k] >= first_token),
            decreases items@.len() - i,
        {
            let item = &items[i];
            let width: i32 = to_pixels(item.display_w.to_whole());
            let height: i32 = to_pixels(item.display_h.round_to_whole());
            if item.is_folder {
                let label = match file_name(&item.media_path) {
                    Some(name) => name,
                    None => "[folder]".to_owned(),
                };
                plans_out.push(
                    SlotPlan {
                        width,
                        height,
                        is_folder: true,
                        label: Some(label),
                        badge: false,
                        token: 0,
                    },
                );
                tokens.push(0);
            } else {
                let badge: bool = is_video_path(&item.media_path);
                plans_out.push(
                    SlotPlan { width, height, is_folder: false, label: None, badge, token },
                );
                tokens.push(token);
                token = token + 1;
            }
            paths.push(item.media_path.clone());
            folders.push(item.is_folder);
            i = i + 1;
        }
        let total: usize = self.load_tokens.len();
        while tokens.len() < total
            invariant
                items@.len() <= tokens@.len(),
                tokens@.len() <= total || tokens@.len() == items@.len(),
                forall|k: int|
                    0 <= k < tokens@.len() ==> #[trigger] tokens@[k] == if k < items@.len() {
                        token_of(items@, first_token, k)
                    } else {
                        0
                    },
                forall|k: int|
                    0 <= k < tokens@.len() ==> (#[trigger] tokens@[k] == 0 || tokens@[k]
                        >= first_token),
            decreases total - tokens@.len(),
        {
            tokens.push(0);
        }
        self.load_tokens = tokens;
        self.item_paths = paths;
        self.item_is_folder = folders;
        self.row_index = row.row_index;
        (plans_out, token)
    }

    /// Shows nothing: no picture that is loaded still counts.
    pub fn unbind(&mut self)
        ensures
            final(self).load_tokens@.len() == old(self).load_tokens@.len(),
            forall|i: int|
                0 <= i < final(self).load_tokens@.len() ==> #[trigger] final(self).load_tokens@[i]
                    == 0,
            final(self).item_paths@.len() == 0,
            final(self).item_is_folder@.len() == 0,
            final(self).row_index == old(self).row_index,
            forall|i: int, token: u64, path: Seq<char>|
                !#[trigger] final(self).accepts(i, token, path),
    {
        let total: usize = self.load_tokens.len();
        let mut tokens: Vec<u64> = Vec::new();
        while tokens.len() < total
            invariant
                tokens@.len() <= total,
                forall|k: int| 0 <= k < tokens@.len() ==> #[trigger] tokens@[k] == 0,
            decreases total - tokens@.len(),
        {
            tokens.push(0);
        }
        self.load_tokens = tokens;
        self.item_paths.clear();
        self.item_is_folder.clear();
    }

    /// Whether a picture that was loaded is shown at a place: the load counts, and
    /// the place shows that item.
    pub fn accepts_texture(&self, index: usize, token: u64, path: &str) -> (r: bool)
        ensures
            r == self.accepts(index as int, token, path@),
    {
        index < self.load_tokens.len() && self.load_tokens[index] == token && index
            < self.item_paths.len() && is_same_path(&self.item_paths[index], path)
    }

    /// The path of an item.
    pub fn get_item_path(&self, index: usize) -> (r: Option<String>)
        ensures
            r == if index < self.item_paths@.len() {
                Some(self.item_paths@[index as int])
            } else {
                None
            },
    {
        if index < self.item_paths.len() {
            Some(self.item_paths[index].clone())
        } else {
            None
        }
    }

    /// How many items are shown.
    pub fn item_count(&self) -> (r: usize)
        ensures
            r == self.item_paths@.len(),
    {
        self.item_paths.len()
    }

    /// Whether an item is a folder.
    pub fn is_folder(&self, index: usize) -> (r: bool)
        ensures
            r == (index < self.item_is_folder@.len() && self.item_is_folder@[index as int]),
    {
        index < self.item_is_folder.len() && self.item_is_folder[index]
    }

    /// Whether an item is the selected one.
    pub fn is_selected(&self, index: usize, selected_row: u32, selected_col: u32) -> (r: bool)
        ensures
            r == (index < self.item_paths@.len() && self.row_index == selected_row && index
                == selected_col),
    {
        index < self.item_paths.len() && self.row_index == selected_row && index
            == selected_col as usize
    }
}

/// The pixel at a place of a square of greys is the shade of that place, opaque.
pub proof fn square_has_its_shades(
    side: nat,
    n: nat,
    shade: spec_fn(int, int) -> u8,
    x: int,
    y: int,
)
    requires
        0 <= x < side,
        0 <= y,
        y * side + x < n,
    ensures
        4 * (y * side + x) + 4 <= grey_square(side, n, shade).len(),
        grey_square(side, n, shade).subrange(4 * (y * side + x), 4 * (y * side + x) + 4) == seq![
            shade(x, y),
            shade(x, y),
            shade(x, y),
            255u8,
        ],
    decreases n,
{
    let at = y * side + x;
    assert(at >= 0) by (nonlinear_arith)
        requires
            at == y * side + x,
            x >= 0,
            y >= 0,
    ;
    let before = grey_square(side, (n - 1) as nat, shade);
    lemma_square_len(side, (n - 1) as nat, shade);
    let all = grey_square(side, n, shade);
    if at < n - 1 {
        square_has_its_shades(side, (n - 1) as nat, shade, x, y);
        assert(all.subrange(4 * at, 4 * at + 4) =~= before.subrange(4 * at, 4 * at + 4));
    } else {
        assert(at % (side as int) == x && at / (side as int) == y) by {
            vstd::arithmetic::div_mod::lemma_fundamental_div_mod_converse(
                at,
                side as int,
                y,
                x,
            );
        }
        assert(all.subrange(4 * at, 4 * at + 4) =~= grey(shade(x, y)));
    }
}

/// The icon of a folder is a filled body with an outline all around it, the same on
/// either side, and above its left end a tab; the ground is around both.
pub proof fn folder_icon_is_a_body_with_a_tab(x: int, y: int)
    ensures
        20 < x < 108 && 35 < y < 95 ==> folder_shade(x, y) == 0x1a,
        (x == 20 || x == 108) && 35 <= y <= 95 ==> folder_shade(x, y) == 0x33,
        (y == 35 || y == 95) && 20 <= x <= 108 ==> folder_shade(x, y) == 0x33,
        x < 20 || x > 108 || y < 24 || y > 95 ==> folder_shade(x, y) == 0x12,
        y >= 35 ==> folder_shade(128 - x, y) == folder_shade(x, y),
        24 <= y < 35 && (x == 20 || x == 54) ==> folder_shade(x, y) == 0x33,
        20 <= x <= 54 ==> folder_shade(x, 24) == 0x33,
        20 < x < 54 && 24 < y < 35 ==> folder_shade(x, y) == 0x12,
        54 < x && y < 35 ==> folder_shade(x, y) == 0x12,
{
}

proof fn lemma_nearest_side(b: nat, u: nat, n: nat, x: nat, q: nat)
    requires
        u > 0 && q > 0,
        n == (2 * b + u) / (2 * u),
        256 * (b * q) <= 256 * (x * u) + q * u,
        256 * (x * u) <= 256 * (b * q) + q * u,
    ensures
        256 * (n * q - x) <= 129 * q,
        256 * (x - n * q) <= 129 * q,
{
    let rest = (2 * b + u) % (2 * u);
    assert(2 * b + u == n * (2 * u) + rest && rest < 2 * u) by (nonlinear_arith)
        requires
            n == (2 * b + u) / (2 * u),
            rest == (2 * b + u) % (2 * u),
            u > 0,
    ;
    let nq = n * q;
    let qu = q * u;
    assert(2 * (b * q) + qu == 2 * (nq * u) + rest * q) by (nonlinear_arith)
        requires
            2 * b + u == n * (2 * u) + rest,
            nq == n * q,
            qu == q * u,
    ;
    assert(0 <= rest * q <= 2 * qu) by (nonlinear_arith)
        requires
            0 <= rest < 2 * u,
            qu == q * u,
    ;
    assert(256 * (nq - x) <= 129 * q) by (nonlinear_arith)
        requires
            256 * (nq * u) <= 256 * (x * u) + 129 * (q * u),
            u > 0,
    ;
    assert(256 * (x - nq) <= 129 * q) by (nonlinear_arith)
        requires
            256 * (x * u) <= 256 * (nq * u) + 129 * (q * u),
            u > 0,
    ;
}

/// A picture of the grid is scaled down just where a side of it is longer than 512
/// pixels. Its sides are then those of the picture times 512 over the longer one, to the
/// nearest pixel, but at least one; rounding takes them no further than a 256th of a pixel
/// from there.
pub proof fn row_previews_keep_their_shape(width: u32, height: u32)
    requires
        0 < width < 0x100_0000 && 0 < height < 0x100_0000,
    ensures
        ({
            let longer = if width > height {
                width
            } else {
                height
            };
            match preview_size(width, height) {
                None => longer <= 512,
                Some((w, h)) => {
                    &&& longer > 512
                    &&& w == 1 || 256 * (w * longer - width * 512) <= 129 * longer
                    &&& h == 1 || 256 * (h * longer - height * 512) <= 129 * longer
                    &&& 256 * (width * 512 - w * longer) <= 129 * longer
                    &&& 256 * (height * 512 - h * longer) <= 129 * longer
                    &&& w >= 1 && h >= 1
                },
            }
        }),
{
    let longer = if width > height {
        width
    } else {
        height
    };
    let u = pow2(149);
    crate::layout::justified::lemma_one();
    if longer > 512 {
        let q = longer as nat;
        lemma_fit_ratio(width, 512);
        lemma_fit_ratio(height, 512);
        let limit = of_whole(512);
        let by_width = limit.quotient(of_whole(width as nat));
        let by_height = limit.quotient(of_whole(height as nat));
        let scale = by_width.smaller(by_height);
        let x = 512 * u;
        assert(x * height <= x * width || x * width <= x * height);
        if width > height {
            assert(x * height <= x * width) by (nonlinear_arith)
                requires
                    height <= width,
            ;
            rounding_keeps_fractions(x, width as nat, x, height as nat);
            if by_width.magnitude() < by_height.magnitude() {
                crate::single::magnitudes_are_ordered(by_width.magnitude(), by_height.magnitude());
            }
        } else {
            assert(x * width <= x * height) by (nonlinear_arith)
                requires
                    width <= height,
            ;
            rounding_keeps_fractions(x, height as nat, x, width as nat);
            if by_height.magnitude() < by_width.magnitude() {
                crate::single::magnitudes_are_ordered(by_height.magnitude(), by_width.magnitude());
            }
        }
        assert(scale.magnitude() == crate::single::nearest(512 * u, q));
        lemma_scaled_side(width, scale, 512, q);
        lemma_scaled_side(height, scale, 512, q);
        let a = of_whole(width as nat).product(scale);
        let b = of_whole(height as nat).product(scale);
        let m = (2 * a.size() + u) / (2 * u);
        let n = (2 * b.size() + u) / (2 * u);
        lemma_nearest_side(a.size(), u, m, (width * 512) as nat, q);
        lemma_nearest_side(b.size(), u, n, (height * 512) as nat, q);
        assert(m * q <= 8193 * q && n * q <= 8193 * q);
        lemma_few(m, q);
        lemma_few(n, q);
        assert(a.nearest_whole() == m && b.nearest_whole() == n);
        if m == 0 {
            assert(m * q == 0 && 1 * q == q) by (nonlinear_arith)
                requires
                    m == 0,
            ;
        }
        if n == 0 {
            assert(n * q == 0 && 1 * q == q) by (nonlinear_arith)
                requires
                    n == 0,
            ;
        }
    }
}

/// Outside the sandbox the same command is run as inside it, by a program that does so;
/// the video is told last to `mpv`, and to GStreamer as where to read from.
pub proof fn preview_commands_name_the_video(
    path: Seq<char>,
    out_dir: Seq<char>,
    start: Seq<char>,
)
    ensures
        preview_words(PreviewTool::HostMpv, path, out_dir, start) == seq![
            "flatpak-spawn"@,
            "--host"@,
        ] + preview_words(PreviewTool::Mpv, path, out_dir, start),
        preview_words(PreviewTool::HostGstreamer, path, out_dir, start) == seq![
            "flatpak-spawn"@,
            "--host"@,
        ] + preview_words(PreviewTool::Gstreamer, path, out_dir, start),
        preview_words(PreviewTool::Mpv, path, out_dir, start)[0] == "mpv"@,
        preview_words(PreviewTool::Mpv, path, out_dir, start).last() == path,
        preview_words(PreviewTool::Mpv, path, out_dir, start).contains("--start="@ + start),
        preview_words(PreviewTool::Mpv, path, out_dir, start).contains(
            "--vo-image-outdir="@ + out_dir,
        ),
        preview_words(PreviewTool::Gstreamer, path, out_dir, start)[0] == "gst-launch-1.0"@,
        preview_words(PreviewTool::Gstreamer, path, out_dir, start)[3] == "location="@ + path,
        preview_words(PreviewTool::Gstreamer, path, out_dir, start).last() == "location="@ + joined(
            out_dir,
            "thumb-gst.png"@,
        ),
{
    let mpv = preview_words(PreviewTool::Mpv, path, out_dir, start);
    assert(mpv[9] == "--start="@ + start);
    assert(mpv[7] == "--vo-image-outdir="@ + out_dir);
}

/// A place is planned at the size of its tile in whole pixels: the width without its
/// fraction, the height to the nearest, and with what the tile shows.
pub proof fn places_have_the_size_of_their_tiles(p: SlotPlan, item: RowItem, token: u64)
    requires
        plans(p, item, token),
        !item.display_w.nan() && !item.display_h.nan(),
        pow2(149) <= item.display_w.value() < 0x7fff_ffff * pow2(149),
        pow2(149) <= item.display_h.value() < 0x7fff_ffff * pow2(149),
    ensures
        p.width * pow2(149) <= item.display_w.value() < (p.width + 1) * pow2(149),
        -(pow2(149) as int) <= 2 * (p.height * pow2(149)) - 2 * item.display_h.value() <= pow2(149),
        p.is_folder <==> item.is_folder,
        p.label is Some <==> item.is_folder,
        p.badge ==> !item.is_folder && names_video(item.media_path@),
        !item.is_folder && names_video(item.media_path@) ==> p.badge,
{
    let u = pow2(149);
    crate::layout::justified::lemma_one();
    let a = item.display_w.size();
    let m = a / u;
    let r = a % u;
    assert(a == m * u + r && r < u) by (nonlinear_arith)
        requires
            m == a / u,
            r == a % u,
            u > 0,
    ;
    assert((m + 1) * u == m * u + u) by (nonlinear_arith);
    assert(1 <= m < 0x7fff_ffff) by (nonlinear_arith)
        requires
            a == m * u + r,
            0 <= r < u,
            u <= a < 0x7fff_ffff * u,
            u > 0,
    ;
    let b = item.display_h.size();
    let n = (2 * b + u) / (2 * u);
    let s = (2 * b + u) % (2 * u);
    assert(2 * b + u == n * (2 * u) + s && s < 2 * u) by (nonlinear_arith)
        requires
            n == (2 * b + u) / (2 * u),
            s == (2 * b + u) % (2 * u),
            u > 0,
    ;
    assert(n * (2 * u) == 2 * (n * u)) by (nonlinear_arith);
    assert(1 <= n <= 0x7fff_ffff) by (nonlinear_arith)
        requires
            2 * b + u == 2 * (n * u) + s,
            0 <= s < 2 * u,
            u <= b < 0x7fff_ffff * u,
            u > 0,
    ;
}

/// Loads are numbered one after the other from the first number on, folders having none.
pub proof fn loads_are_numbered_in_order(items: Seq<RowItem>, first: u64, i: int, j: int)
    requires
        0 <= i < j < items.len(),
        0 < first && first + items.len() <= u64::MAX,
    ensures
        items[i].is_folder ==> token_of(items, first, i) == 0,
        !items[i].is_folder && !items[j].is_folder ==> first <= token_of(items, first, i)
            < token_of(items, first, j),
        j == i + 1 && !items[i].is_folder && !items[j].is_folder ==> token_of(items, first, j)
            == token_of(items, first, i) + 1,
        !items[0].is_folder ==> token_of(items, first, 0) == first,
{
    lemma_loads_grow(items, i, i + 1);
    lemma_loads_grow(items, i + 1, j);
    lemma_loads_grow(items, 0, i);
    lemma_loads_grow(items, 0, j);
}

proof fn lemma_loads_grow(items: Seq<RowItem>, i: int, j: int)
    requires
        0 <= i <= j,
    ensures
        loads_before(items, i) <= loads_before(items, j) <= loads_before(items, i) + (j - i),
    decreases j - i,
{
    if i < j {
        lemma_loads_grow(items, i, j - 1);
    }
}

/// Previews of rows are loaded by two to eight threads, of up to 512 requests that wait; 1024
/// are kept, and twelve are shown at a time.
pub proof fn limits_of_row_previews()
    ensures
        ROW_LOADER_MIN_THREADS == 2,
        ROW_LOADER_MAX_THREADS == 8,
        ROW_LOADER_QUEUE == 512,
        ROW_CACHE_ENTRIES == 1024,
        ROW_RESULTS_PER_TICK == 12,
        ROW_PREVIEW_SIZE == 512,
        PLACEHOLDER_SIDE == 64,
        FOLDER_SIDE == 128,
{
}

/// A picture that was loaded is shown at a place while the load is the last that was begun for
/// it and the item there has the path that was loaded, and at no other time.
pub proof fn only_the_current_load_is_shown(
    slots: RowSlots,
    index: int,
    token: u64,
    other: u64,
    path: Seq<char>,
)
    requires
        0 <= index < slots.item_paths@.len(),
        slots.load_tokens@.len() == slots.item_paths@.len(),
        other != token,
    ensures
        slots.accepts(index, slots.load_tokens@[index], slots.item_paths@[index]@),
        slots.accepts(index, token, path) ==> !slots.accepts(index, other, path),
        slots.accepts(index, token, path) ==> same_path(slots.item_paths@[index]@, path),
        !slots.accepts(slots.item_paths@.len() as int, token, path),
{
}

/// A folder is shown with its name, and a video with a mark.
pub proof fn folders_are_named_and_videos_marked(p: SlotPlan, item: RowItem, token: u64)
    requires
        plans(p, item, token),
    ensures
        p.is_folder <==> item.is_folder,
        p.label is Some <==> item.is_folder,
        item.is_folder ==> !p.badge,
        item.is_folder && path_file_name(item.media_path@) is Some ==> (p.label->0)@
            == path_file_name(item.media_path@)->0,
        item.is_folder && path_file_name(item.media_path@) is None ==> (p.label->0)@ == "[folder]"@,
        !item.is_folder ==> (p.badge <==> names_video(item.media_path@)),
        p.token == token,
{
}

} // verus!
