//! Scanning directories: which files count, what is taken from the cache, how
//! results are counted, batched and put in order.
use vstd::multiset::Multiset;
use vstd::prelude::*;
use vstd::seq_lib::*;

use crate::models::media_item::{type_of_extension, MediaItem, MediaType};
use crate::paths::{extension, lowercase, path_le};
use crate::scanner::metadata::{data_view, extension_or_empty, file_dimensions, MetadataExtractor};
use crate::sorting::{
    is_permutation, is_sorted, permutation_has_all, permutation_is_within, range, sort_paths,
    sorts_before,
};

verus! {

/// How a directory is scanned.
#[derive(Clone, Copy, PartialEq, Eq, Structural, Debug)]
pub struct ScanConfig {
    /// Whether to go into directories.
    pub recursive: bool,
    /// How deep to go; zero means without limit.
    pub max_depth: usize,
    /// How many items are written to the database at a time.
    pub batch_size: usize,
    /// Whether to follow symbolic links.
    pub follow_symlinks: bool,
}

impl Default for ScanConfig {
    fn default() -> (r: Self)
        ensures
            r == (ScanConfig {
                recursive: true,
                max_depth: 0,
                batch_size: 100,
                follow_symlinks: false,
            }),
    {
        ScanConfig { recursive: true, max_depth: 0, batch_size: 100, follow_symlinks: false }
    }
}

impl ScanConfig {
    /// How many levels the walk goes down, or nothing where it has no limit.
    pub fn walk_depth(&self) -> (r: Option<usize>)
        ensures
            r == if !self.recursive {
                Some(1usize)
            } else if self.max_depth > 0 {
                Some(self.max_depth)
            } else {
                None
            },
    {
        if !self.recursive {
            Some(1)
        } else if self.max_depth > 0 {
            Some(self.max_depth)
        } else {
            None
        }
    }
}

/// What is told of a scan while it runs.
#[allow(inconsistent_fields)]
#[derive(Debug)]
pub enum ScanProgress {
    /// Scanning has begun.
    Started { path: String },
    /// So many files were found.
    Discovered { count: usize },
    /// A batch was written.
    BatchSaved { processed: usize, total: usize },
    /// A file was read, or taken from the cache.
    Extracted { path: String, cached: bool },
    /// A file could not be read.
    FileError { path: String, error: String },
    /// Scanning is done.
    Completed { total: usize, new: usize, cached: usize, errors: usize },
}

/// What a scan found.
#[derive(Debug)]
pub struct ScanResult {
    pub total_files: usize,
    pub new_items: usize,
    pub cached_items: usize,
    pub error_count: usize,
    /// The paths of all items, in the order of the scan.
    pub paths: Vec<String>,
}

/// What the walk through a directory comes upon.
#[derive(Debug)]
pub struct FoundFile {
    pub path: String,
    pub is_dir: bool,
    /// Modification time and size, where they can be read.
    pub stat: Option<(i64, i64)>,
}

/// A media file that was found.
#[derive(Debug)]
pub struct DiscoveredEntry {
    pub path: String,
    pub media_type: MediaType,
    pub mtime: i64,
    pub size: i64,
}

/// An entry as plain values.
pub open spec fn entry_view(e: DiscoveredEntry) -> (Seq<char>, MediaType, i64, i64) {
    (e.path@, e.media_type, e.mtime, e.size)
}

/// The media file that a find is, if it is one: a file with the extension of a
/// medium whose time and size can be read.
pub open spec fn media_of_find(f: FoundFile) -> Option<(Seq<char>, MediaType, i64, i64)> {
    if f.is_dir {
        None
    } else {
        match (type_of_extension(lowercase(extension_or_empty(f.path@))), f.stat) {
            (Some(t), Some((mtime, size))) => Some((f.path@, t, mtime, size)),
            _ => None,
        }
    }
}

/// The media files among some finds, in order.
pub open spec fn media_of_finds(found: Seq<FoundFile>) -> Seq<(Seq<char>, MediaType, i64, i64)>
    decreases found.len(),
{
    if found.len() == 0 {
        seq![]
    } else {
        match media_of_find(found.last()) {
            Some(m) => media_of_finds(found.drop_last()).push(m),
            None => media_of_finds(found.drop_last()),
        }
    }
}

/// Whether `order` is the sorted order of the given media files by path.
pub open spec fn sorts_media(
    media: Seq<(Seq<char>, MediaType, i64, i64)>,
    paths: Seq<String>,
    order: Seq<usize>,
) -> bool {
    &&& paths.len() == media.len()
    &&& forall|i: int| 0 <= i < paths.len() ==> (#[trigger] paths[i])@ == media[i].0
    &&& order.len() == media.len()
    &&& is_sorted(paths, order)
    &&& is_permutation(order, 0, media.len() as int)
}

/// Scans directories.
#[derive(Clone, Copy, PartialEq, Eq, Structural, Debug)]
pub struct FileScanner {
    pub config: ScanConfig,
}

impl FileScanner {
    /// A scanner with the default settings.
    pub fn new() -> (r: Self)
        ensures
            r.config == (ScanConfig {
                recursive: true,
                max_depth: 0,
                batch_size: 100,
                follow_symlinks: false,
            }),
    {
        FileScanner { config: ScanConfig::default() }
    }

    /// A scanner with the given settings.
    pub fn with_config(config: ScanConfig) -> (r: Self)
        ensures
            r.config == config,
    {
        FileScanner { config }
    }

    /// Picks the media files out of what a walk came upon, in the order of their
    /// paths.
    pub fn discover_files(found: &Vec<FoundFile>) -> (r: Vec<DiscoveredEntry>)
        ensures
            ({
                let media = media_of_finds(found@);
                &&& r@.len() == media.len()
                &&& exists|paths: Seq<String>, order: Seq<usize>|
                    #[trigger] sorts_media(media, paths, order) && forall|i: int|
                        0 <= i < r@.len() ==> entry_view(#[trigger] r@[i]) == media[order[i] as int]
            }),
            forall|k: int|
                0 <= k < r@.len() ==> exists|i: int|
                    {
                        &&& 0 <= i < found@.len()
                        &&& (#[trigger] found@[i]).path@ == (#[trigger] r@[k]).path@
                        &&& !found@[i].is_dir
                        &&& found@[i].stat matches Some(stat) && stat.0 == r@[k].mtime && stat.1
                            == r@[k].size
                        &&& type_of_extension(lowercase(extension_or_empty(found@[i].path@)))
                            == Some(r@[k].media_type)
                    },
            forall|i: int|
                0 <= i < found@.len() && !found@[i].is_dir && found@[i].stat is Some
                    && type_of_extension(lowercase(extension_or_empty(found@[i].path@))) is Some
                    ==> exists|k: int|
                    {
                        &&& 0 <= k < r@.len()
                        &&& (#[trigger] r@[k]).path@ == (#[trigger] found@[i]).path@
                        &&& found@[i].stat matches Some(stat) && stat.0 == r@[k].mtime && stat.1
                            == r@[k].size
                    },
            forall|k: int, m: int|
                0 <= k < m < r@.len() ==> path_le(
                    (#[trigger] r@[k]).path@,
                    (#[trigger] r@[m]).path@,
                ),
    {
        let mut paths: Vec<String> = Vec::new();
        let mut kept: Vec<(MediaType, i64, i64)> = Vec::new();
        let mut i: usize = 0;
        while i < found.len()
            invariant
                i <= found@.len(),
                paths@.len() == media_of_finds(found@.take(i as int)).len(),
                kept@.len() == paths@.len(),
                forall|k: int|
                    0 <= k < paths@.len() ==> media_of_finds(found@.take(i as int))[k] == (
                        (#[trigger] paths@[k])@,
                        kept@[k].0,
                        kept@[k].1,
                        kept@[k].2,
                    ),
            decreases found@.len() - i,
        {
            let f = &found[i];
            assert(found@.take(i + 1).drop_last() =~= found@.take(i as int));
            assert(found@.take(i + 1).last() == *f);
            if !f.is_dir {
                let ext = match extension(&f.path) {
                    Some(ext) => ext,
                    None => {
                        let empty = String::new();
                        assert(empty@ =~= seq![]);
                        empty
                    },
                };
                if let Some(t) = MediaType::from_extension(&ext) {
                    if let Some((mtime, size)) = f.stat {
                        paths.push(f.path.clone());
                        kept.push((t, mtime, size));
                    }
                }
            }
            i = i + 1;
        }
        assert(found@.take(found@.len() as int) =~= found@);
        let ghost media = media_of_finds(found@);
        let order = sort_paths(&paths);
        assert(sorts_media(media, paths@, order@));
        let mut out: Vec<DiscoveredEntry> = Vec::new();
        let mut k: usize = 0;
        while k < order.len()
            invariant
                k <= order@.len(),
                order@.len() == paths@.len(),
                kept@.len() == paths@.len(),
                paths@.len() == media.len(),
                forall|m: int| 0 <= m < order@.len() ==> (#[trigger] order@[m]) < paths@.len(),
                forall|m: int|
                    0 <= m < paths@.len() ==> media[m] == (
                        (#[trigger] paths@[m])@,
                        kept@[m].0,
                        kept@[m].1,
                        kept@[m].2,
                    ),
                media == media_of_finds(found@),
                sorts_media(media, paths@, order@),
                out@.len() == k,
                forall|m: int|
                    0 <= m < k ==> entry_view(#[trigger] out@[m]) == media[order@[m] as int],
            decreases order@.len() - k,
        {
            let p: usize = order[k];
            out.push(
                DiscoveredEntry {
                    path: paths[p].clone(),
                    media_type: kept[p].0,
                    mtime: kept[p].1,
                    size: kept[p].2,
                },
            );
            k = k + 1;
        }
        proof {
            lemma_discovered(found@, paths@, order@, out@);
        }
        out
    }

    /// Whether what the cache knows of a file is still right: its time and its
    /// size are those of the file.
    pub fn is_cache_hit(entry: &DiscoveredEntry, cached: Option<(i64, i64)>) -> (r: bool)
        ensures
            r == (cached == Some((entry.mtime, entry.size))),
    {
        match cached {
            Some((mtime, size)) => mtime == entry.mtime && size == entry.size,
            None => false,
        }
    }

    /// Makes the item of a file. The size of a file that the cache knows is in the
    /// database, and zero stands in its place here; of any other file the size is
    /// read out of what could be read of it. Tells whether the cache knew it.
    pub fn process_entry(
        entry: &DiscoveredEntry,
        cached: Option<(i64, i64)>,
        scan_time: i64,
        data: Option<&[u8]>,
    ) -> (r: (MediaItem, bool))
        ensures
            r.1 == (cached == Some((entry.mtime, entry.size))),
            r.0.path@ == entry.path@,
            r.0.media_type == entry.media_type,
            r.0.mtime == entry.mtime,
            r.0.size == entry.size,
            (r.0.width, r.0.height) == if r.1 {
                (0u32, 0u32)
            } else {
                file_dimensions(entry.path@, data_view(data))
            },
            r.0.duration_ms is None,
            r.0.thumb_path is None,
            r.0.thumb_w is None,
            r.0.thumb_h is None,
            r.0.last_seen == scan_time,
    {
        let hit = Self::is_cache_hit(entry, cached);
        let (width, height, duration_ms) = if hit {
            (0u32, 0u32, None)
        } else {
            match MetadataExtractor::extract_metadata(&entry.path, data) {
                Ok(m) => (m.width, m.height, m.duration_ms),
                Err(_) => (0u32, 0u32, None),
            }
        };
        let item = MediaItem {
            path: entry.path.clone(),
            media_type: entry.media_type,
            mtime: entry.mtime,
            size: entry.size,
            width,
            height,
            duration_ms,
            thumb_path: None,
            thumb_w: None,
            thumb_h: None,
            last_seen: scan_time,
        };
        (item, hit)
    }
}

impl Default for FileScanner {
    fn default() -> (r: Self)
        ensures
            r.config == (ScanConfig {
                recursive: true,
                max_depth: 0,
                batch_size: 100,
                follow_symlinks: false,
            }),
    {
        FileScanner::new()
    }
}

/// The paths of some items.
pub open spec fn are_item_paths(paths: Seq<String>, items: Seq<MediaItem>) -> bool {
    &&& paths.len() == items.len()
    &&& forall|i: int| 0 <= i < paths.len() ==> (#[trigger] paths[i])@ == items[i].path@
}

fn item_paths(items: &Vec<MediaItem>) -> (r: Vec<String>)
    ensures
        are_item_paths(r@, items@),
{
    let mut out: Vec<String> = Vec::new();
    let mut i: usize = 0;
    while i < items.len()
        invariant
            i <= items@.len(),
            out@.len() == i,
            forall|k: int| 0 <= k < i ==> (#[trigger] out@[k])@ == items@[k].path@,
        decreases items@.len() - i,
    {
        out.push(items[i].path.clone());
        i = i + 1;
    }
    out
}

/// The items that wait to be written once another one is taken up, and those that are
/// handed out for it: all that wait, as soon as they fill a batch. What the database
/// knows already is not written again, so its size stays there.
pub open spec fn after_item(waiting: Seq<MediaItem>, item: MediaItem, from_cache: bool, batch: nat) -> (
    Seq<MediaItem>,
    Seq<MediaItem>,
) {
    if from_cache {
        (waiting, seq![])
    } else if waiting.len() + 1 >= batch {
        (seq![], waiting.push(item))
    } else {
        (waiting.push(item), seq![])
    }
}

/// A scan under way: the items so far, and those that wait to be written.
pub struct ScanState {
    items: Vec<MediaItem>,
    waiting: Vec<MediaItem>,
    new_items: usize,
    cached_items: usize,
    error_count: usize,
    total: usize,
    batch_size: usize,
}

impl ScanState {
    /// The items so far.
    pub closed spec fn items(self) -> Seq<MediaItem> {
        self.items@
    }

    /// The items that wait to be written.
    pub closed spec fn waiting(self) -> Seq<MediaItem> {
        self.waiting@
    }

    /// How many items were read.
    pub closed spec fn fresh(self) -> nat {
        self.new_items as nat
    }

    /// How many items were taken from the cache.
    pub closed spec fn cached(self) -> nat {
        self.cached_items as nat
    }

    /// How many files could not be read.
    pub closed spec fn errors(self) -> nat {
        self.error_count as nat
    }

    /// How many files there are.
    pub closed spec fn total(self) -> nat {
        self.total as nat
    }

    /// How many items are written at a time.
    pub closed spec fn batch(self) -> nat {
        self.batch_size as nat
    }

    /// How many files are done.
    pub open spec fn processed(self) -> nat {
        self.items().len() + self.errors()
    }

    /// Items were read or taken from the cache, and no more files are done than
    /// there are.
    pub open spec fn wf(self) -> bool {
        &&& self.waiting().len() <= self.fresh()
        &&& self.fresh() + self.cached() == self.items().len()
        &&& self.processed() <= self.total() <= usize::MAX
    }

    /// Everything but items and counts is as in `other`.
    pub open spec fn same_scan(self, other: Self) -> bool {
        self.total() == other.total() && self.batch() == other.batch()
    }

    /// The beginning of a scan of so many files.
    pub fn new(total: usize, batch_size: usize) -> (r: Self)
        ensures
            r.wf(),
            r.items().len() == 0,
            r.waiting().len() == 0,
            r.fresh() == 0,
            r.cached() == 0,
            r.errors() == 0,
            r.total() == total,
            r.batch() == batch_size,
    {
        ScanState {
            items: Vec::new(),
            waiting: Vec::new(),
            new_items: 0,
            cached_items: 0,
            error_count: 0,
            total,
            batch_size,
        }
    }

    /// Takes an item up. Once a batch is full it is handed out to be written.
    pub fn accept(&mut self, item: MediaItem, from_cache: bool) -> (r: Option<Vec<MediaItem>>)
        requires
            old(self).wf(),
            old(self).processed() < old(self).total(),
        ensures
            final(self).wf(),
            final(self).same_scan(*old(self)),
            final(self).items() == old(self).items().push(item),
            final(self).errors() == old(self).errors(),
            final(self).fresh() == old(self).fresh() + if from_cache {
                0nat
            } else {
                1
            },
            final(self).cached() == old(self).cached() + if from_cache {
                1nat
            } else {
                0
            },
            ({
                let (waiting, written) = after_item(
                    old(self).waiting(),
                    item,
                    from_cache,
                    old(self).batch(),
                );
                &&& final(self).waiting() == waiting
                &&& match r {
                    Some(batch) => batch@ == written && written.len() > 0,
                    None => written.len() == 0,
                }
            }),
    {
        if from_cache {
            self.cached_items = self.cached_items + 1;
            self.items.push(item);
            return None;
        }
        self.new_items = self.new_items + 1;
        self.waiting.push(item.clone());
        self.items.push(item);
        if self.waiting.len() >= self.batch_size {
            let mut batch: Vec<MediaItem> = Vec::new();
            std::mem::swap(&mut batch, &mut self.waiting);
            Some(batch)
        } else {
            None
        }
    }

    /// Notes that a file could not be read.
    pub fn reject(&mut self)
        requires
            old(self).wf(),
            old(self).processed() < old(self).total(),
        ensures
            final(self).wf(),
            final(self).same_scan(*old(self)),
            final(self).items() == old(self).items(),
            final(self).waiting() == old(self).waiting(),
            final(self).fresh() == old(self).fresh(),
            final(self).cached() == old(self).cached(),
            final(self).errors() == old(self).errors() + 1,
    {
        self.error_count = self.error_count + 1;
    }

    /// Hands out what is left to be written.
    pub fn take_rest(&mut self) -> (r: Option<Vec<MediaItem>>)
        requires
            old(self).wf(),
        ensures
            final(self).wf(),
            final(self).same_scan(*old(self)),
            final(self).items() == old(self).items(),
            final(self).fresh() == old(self).fresh(),
            final(self).cached() == old(self).cached(),
            final(self).errors() == old(self).errors(),
            final(self).waiting().len() == 0,
            match r {
                Some(batch) => batch@.len() > 0 && batch@ == old(self).waiting(),
                None => old(self).waiting().len() == 0,
            },
    {
        if self.waiting.len() == 0 {
            return None;
        }
        let mut batch: Vec<MediaItem> = Vec::new();
        std::mem::swap(&mut batch, &mut self.waiting);
        Some(batch)
    }

    /// The progress that is told once a batch is written.
    pub fn batch_saved(&self) -> (r: ScanProgress)
        requires
            self.wf(),
        ensures
            r == (ScanProgress::BatchSaved {
                processed: self.processed() as usize,
                total: self.total() as usize,
            }),
    {
        ScanProgress::BatchSaved {
            processed: self.items.len() + self.error_count,
            total: self.total,
        }
    }

    /// The progress that is told at the end.
    pub fn completed(&self) -> (r: ScanProgress)
        requires
            self.wf(),
        ensures
            r == (ScanProgress::Completed {
                total: self.items().len() as usize,
                new: self.fresh() as usize,
                cached: self.cached() as usize,
                errors: self.errors() as usize,
            }),
    {
        ScanProgress::Completed {
            total: self.items.len(),
            new: self.new_items,
            cached: self.cached_items,
            errors: self.error_count,
        }
    }

    /// The items and what the scan found.
    pub fn finish(self) -> (r: (Vec<MediaItem>, ScanResult))
        requires
            self.wf(),
        ensures
            r.0@ == self.items(),
            r.1.total_files == self.items().len(),
            r.1.new_items == self.fresh(),
            r.1.cached_items == self.cached(),
            r.1.error_count == self.errors(),
            are_item_paths(r.1.paths@, self.items()),
            forall|i: int|
                0 <= i < self.items().len() ==> (#[trigger] r.1.paths@[i])@ == self.items()[i].path@,
    {
        let paths = item_paths(&self.items);
        let result = ScanResult {
            total_files: self.items.len(),
            new_items: self.new_items,
            cached_items: self.cached_items,
            error_count: self.error_count,
            paths,
        };
        (self.items, result)
    }
}

/// How many files each worker gets at most.
pub open spec fn chunk_size(total: nat, workers: nat) -> nat
    recommends
        workers > 0,
{
    ((total + workers - 1) / workers as int) as nat
}

/// The range of files that a worker gets.
pub open spec fn chunk_range(total: nat, workers: nat, worker: nat) -> (nat, nat) {
    let size = chunk_size(total, workers);
    (
        if worker * size < total {
            worker * size
        } else {
            total
        },
        if (worker + 1) * size < total {
            (worker + 1) * size
        } else {
            total
        },
    )
}

/// Scans directories with several workers.
#[derive(Clone, Copy, PartialEq, Eq, Structural, Debug)]
pub struct ParallelScanner {
    pub config: ScanConfig,
    pub num_workers: usize,
}

impl ParallelScanner {
    /// A scanner with the default settings and at least one worker.
    pub fn new(num_workers: usize) -> (r: Self)
        ensures
            r.config == (ScanConfig {
                recursive: true,
                max_depth: 0,
                batch_size: 100,
                follow_symlinks: false,
            }),
            r.num_workers == if num_workers < 1 {
                1
            } else {
                num_workers
            },
    {
        Self::with_config(ScanConfig::default(), num_workers)
    }

    /// A scanner with the given settings and at least one worker.
    pub fn with_config(config: ScanConfig, num_workers: usize) -> (r: Self)
        ensures
            r.config == config,
            r.num_workers == if num_workers < 1 {
                1
            } else {
                num_workers
            },
    {
        ParallelScanner {
            config,
            num_workers: if num_workers < 1 {
                1
            } else {
                num_workers
            },
        }
    }

    /// The range of files that a worker gets, of the given number of workers.
    pub fn worker_range(total: usize, num_workers: usize, worker: usize) -> (r: (usize, usize))
        requires
            num_workers > 0,
            worker < num_workers,
        ensures
            r.0 == chunk_range(total as nat, num_workers as nat, worker as nat).0,
            r.1 == chunk_range(total as nat, num_workers as nat, worker as nat).1,
            r.0 <= r.1 <= total,
    {
        let n: u128 = total as u128;
        let size: u128 = (n + num_workers as u128 - 1) / num_workers as u128;
        assert(size <= n) by (nonlinear_arith)
            requires
                size == (n + num_workers - 1) / num_workers as int,
                num_workers > 0,
        ;
        assert(worker * size <= 0xffff_ffff_ffff_ffff * 0xffff_ffff_ffff_ffff) by (nonlinear_arith)
            requires
                worker <= 0xffff_ffff_ffff_ffff,
                size <= 0xffff_ffff_ffff_ffff,
        ;
        assert((worker + 1) * size == worker * size + size) by (nonlinear_arith);
        let start: u128 = worker as u128 * size;
        let end: u128 = start + size;
        let a: usize = if start < n {
            start as usize
        } else {
            total
        };
        let b: usize = if end < n {
            end as usize
        } else {
            total
        };
        (a, b)
    }

    /// The range of items of each batch, in order.
    pub fn batch_range(total: usize, batch_size: usize, batch: usize) -> (r: Option<(usize, usize)>)
        requires
            batch_size > 0,
        ensures
            match r {
                Some((start, end)) => start == batch * batch_size && start < total && end == if (
                batch + 1) * batch_size < total {
                    (batch + 1) * batch_size
                } else {
                    total as int
                },
                None => batch * batch_size >= total,
            },
    {
        assert(batch * batch_size <= 0xffff_ffff_ffff_ffff * 0xffff_ffff_ffff_ffff)
            by (nonlinear_arith)
            requires
                batch <= 0xffff_ffff_ffff_ffff,
                batch_size <= 0xffff_ffff_ffff_ffff,
        ;
        assert((batch + 1) * batch_size == batch * batch_size + batch_size) by (nonlinear_arith);
        let start: u128 = batch as u128 * batch_size as u128;
        if start >= total as u128 {
            return None;
        }
        let end: u128 = start + batch_size as u128;
        if end < total as u128 {
            Some((start as usize, end as usize))
        } else {
            Some((start as usize, total))
        }
    }

    /// Puts the items that workers brought, each with whether the cache knew it, in the
    /// order of their paths, picks those to be written, and sums the scan up.
    pub fn merge(found: &Vec<(MediaItem, bool)>, error_count: usize) -> (r: (
        Vec<MediaItem>,
        Vec<MediaItem>,
        ScanResult,
    ))
        ensures
            exists|paths: Seq<String>, order: Seq<usize>|
                #[trigger] is_sorting(found@, paths, order) && r.0@ == in_order(found@, order).map_values(
                    |f: (MediaItem, bool)| f.0,
                ) && r.1@ == fresh_of(in_order(found@, order)),
            r.2.total_files == found@.len(),
            r.2.new_items == fresh_of(found@).len(),
            r.2.cached_items == found@.len() - fresh_of(found@).len(),
            r.2.error_count == error_count,
            are_item_paths(r.2.paths@, r.0@),
            forall|i: int| 0 <= i < r.0@.len() ==> (#[trigger] r.2.paths@[i])@ == r.0@[i].path@,
    {
        let mut paths: Vec<String> = Vec::new();
        let mut new_items: usize = 0;
        let mut i: usize = 0;
        assert(found@.take(0) =~= seq![]);
        while i < found.len()
            invariant
                i <= found@.len(),
                paths@.len() == i,
                forall|k: int| 0 <= k < i ==> (#[trigger] paths@[k])@ == found@[k].0.path@,
                new_items == fresh_of(found@.take(i as int)).len(),
                new_items <= i,
            decreases found@.len() - i,
        {
            assert(found@.take(i + 1).drop_last() =~= found@.take(i as int));
            paths.push(found[i].0.path.clone());
            if !found[i].1 {
                new_items = new_items + 1;
            }
            i = i + 1;
        }
        assert(found@.take(found@.len() as int) =~= found@);
        let order = sort_paths(&paths);
        assert(is_sorting(found@, paths@, order@));
        let ghost sorted = in_order(found@, order@);
        let ghost firsts = sorted.map_values(|f: (MediaItem, bool)| f.0);
        let mut items: Vec<MediaItem> = Vec::new();
        let mut fresh: Vec<MediaItem> = Vec::new();
        let mut k: usize = 0;
        assert(sorted.take(0) =~= seq![]);
        while k < order.len()
            invariant
                k <= order@.len(),
                order@.len() == found@.len(),
                sorted == in_order(found@, order@),
                firsts == sorted.map_values(|f: (MediaItem, bool)| f.0),
                forall|m: int| 0 <= m < order@.len() ==> (#[trigger] order@[m]) < found@.len(),
                items@ == firsts.take(k as int),
                fresh@ == fresh_of(sorted.take(k as int)),
            decreases order@.len() - k,
        {
            let at: usize = order[k];
            assert(sorted.take(k + 1).drop_last() =~= sorted.take(k as int));
            assert(sorted[k as int] == found@[at as int]);
            items.push(found[at].0.clone());
            if !found[at].1 {
                fresh.push(found[at].0.clone());
            }
            k = k + 1;
            assert(items@ =~= firsts.take(k as int));
        }
        assert(sorted.take(sorted.len() as int) =~= sorted);
        assert(items@ =~= firsts);
        let result = ScanResult {
            total_files: found.len(),
            new_items,
            cached_items: found.len() - new_items,
            error_count,
            paths: item_paths(&items),
        };
        (items, fresh, result)
    }
}

/// Whether `order` is the sorted order of what was found, by path.
pub open spec fn is_sorting(
    found: Seq<(MediaItem, bool)>,
    paths: Seq<String>,
    order: Seq<usize>,
) -> bool {
    &&& paths.len() == found.len()
    &&& forall|i: int| 0 <= i < paths.len() ==> (#[trigger] paths[i])@ == found[i].0.path@
    &&& order.len() == found.len()
    &&& is_sorted(paths, order)
    &&& is_permutation(order, 0, found.len() as int)
}

/// What was found, in the given order.
pub open spec fn in_order(found: Seq<(MediaItem, bool)>, order: Seq<usize>) -> Seq<
    (MediaItem, bool),
> {
    order.map_values(|i: usize| found[i as int])
}

/// The items that the cache did not know.
pub open spec fn fresh_of(found: Seq<(MediaItem, bool)>) -> Seq<MediaItem>
    decreases found.len(),
{
    if found.len() == 0 {
        seq![]
    } else if found.last().1 {
        fresh_of(found.drop_last())
    } else {
        fresh_of(found.drop_last()).push(found.last().0)
    }
}

/// The ranges of the workers follow on one another, the first starts at the
/// beginning and the last reaches the end: every file is read once.
pub proof fn chunks_cover_everything(total: nat, workers: nat)
    requires
        workers > 0,
    ensures
        chunk_range(total, workers, 0).0 == 0,
        chunk_range(total, workers, (workers - 1) as nat).1 == total,
        forall|w: nat|
            w + 1 < workers ==> (#[trigger] chunk_range(total, workers, w)).1 == chunk_range(
                total,
                workers,
                w + 1,
            ).0,
{
    let size = chunk_size(total, workers);
    assert(workers * size >= total) by (nonlinear_arith)
        requires
            size == (total + workers - 1) / workers as int,
            workers > 0,
    ;
    assert(0 * size == 0);
}

/// The items that wait, and those that were handed out to be written, after a scan has
/// taken up what was found.
pub open spec fn after_items(found: Seq<(MediaItem, bool)>, batch: nat) -> (
    Seq<MediaItem>,
    Seq<MediaItem>,
)
    decreases found.len(),
{
    if found.len() == 0 {
        (seq![], seq![])
    } else {
        let (waiting, written) = after_items(found.drop_last(), batch);
        let step = after_item(waiting, found.last().0, found.last().1, batch);
        (step.0, written + step.1)
    }
}

/// How many of what a scan took up was read, and how much the cache knew.
pub open spec fn counted(found: Seq<(MediaItem, bool)>) -> (nat, nat)
    decreases found.len(),
{
    if found.len() == 0 {
        (0, 0)
    } else {
        let (fresh, cached) = counted(found.drop_last());
        if found.last().1 {
            (fresh, cached + 1)
        } else {
            (fresh + 1, cached)
        }
    }
}

/// The batches of a scan and what is left at its end are all items that the cache did
/// not know, each once and in order, and no others; less than a batch is left. As many
/// count as read.
pub proof fn fresh_items_are_written(found: Seq<(MediaItem, bool)>, batch: nat)
    ensures
        counted(found).0 == fresh_of(found).len(),
        counted(found).0 + counted(found).1 == found.len(),
        after_items(found, batch).1 + after_items(found, batch).0 == fresh_of(found),
        batch > 0 ==> after_items(found, batch).0.len() < batch,
        batch == 0 ==> after_items(found, batch).0.len() == 0,
    decreases found.len(),
{
    if found.len() > 0 {
        let (waiting, written) = after_items(found.drop_last(), batch);
        let (item, known) = found.last();
        fresh_items_are_written(found.drop_last(), batch);
        let step = after_item(waiting, item, known, batch);
        if known {
            assert(written + step.1 =~= written);
        } else {
            assert((written + step.1) + step.0 =~= (written + waiting).push(item));
        }
    }
}

/// The files, with what was read of each, that a worker brings.
pub open spec fn share(processed: Seq<(MediaItem, bool)>, workers: nat, worker: usize) -> Seq<
    (MediaItem, bool),
> {
    let (start, end) = chunk_range(processed.len(), workers, worker as nat);
    processed.subrange(start as int, end as int)
}

/// What workers bring together, one after the other as they are done.
pub open spec fn gathered(
    processed: Seq<(MediaItem, bool)>,
    workers: nat,
    done: Seq<usize>,
) -> Seq<(MediaItem, bool)>
    decreases done.len(),
{
    if done.len() == 0 {
        seq![]
    } else {
        gathered(processed, workers, done.drop_last()) + share(processed, workers, done.last())
    }
}

/// Whether the paths of what was found go up, no two being the same.
pub open spec fn paths_go_up(found: Seq<(MediaItem, bool)>) -> bool {
    forall|i: int, j: int|
        0 <= i < j < found.len() ==> !path_le(
            (#[trigger] found[j]).0.path@,
            (#[trigger] found[i]).0.path@,
        )
}

/// What all places stand for together.
spec fn summed<T>(places: Seq<usize>, part: spec_fn(usize) -> Multiset<T>) -> Multiset<T>
    decreases places.len(),
{
    if places.len() == 0 {
        Multiset::empty()
    } else {
        summed(places.drop_last(), part).add(part(places.last()))
    }
}

proof fn lemma_summed_remove<T>(places: Seq<usize>, part: spec_fn(usize) -> Multiset<T>, i: int)
    requires
        0 <= i < places.len(),
    ensures
        summed(places, part) =~= summed(places.remove(i), part).add(part(places[i])),
    decreases places.len(),
{
    if i == places.len() - 1 {
        assert(places.remove(i) =~= places.drop_last());
    } else {
        lemma_summed_remove(places.drop_last(), part, i);
        assert(places.remove(i).drop_last() =~= places.drop_last().remove(i));
        assert(places.remove(i).last() == places.last());
    }
}

proof fn lemma_summed_in_any_order<T>(
    a: Seq<usize>,
    b: Seq<usize>,
    part: spec_fn(usize) -> Multiset<T>,
)
    requires
        a.to_multiset() == b.to_multiset(),
    ensures
        summed(a, part) == summed(b, part),
    decreases a.len(),
{
    broadcast use group_to_multiset_ensures;

    assert(a.len() == a.to_multiset().len());
    assert(b.len() == b.to_multiset().len());
    if a.len() > 0 {
        let n = a.len() - 1;
        assert(a.contains(a[n]));
        assert(b.to_multiset().contains(a[n]));
        assert(b.contains(a[n]));
        let j = choose|j: int| 0 <= j < b.len() && b[j] == a[n];
        lemma_summed_remove(a, part, n);
        lemma_summed_remove(b, part, j);
        assert(a.remove(n).to_multiset() =~= b.remove(j).to_multiset());
        lemma_summed_in_any_order(a.remove(n), b.remove(j), part);
    }
}

proof fn lemma_in_order_has_all(found: Seq<(MediaItem, bool)>, order: Seq<usize>)
    ensures
        in_order(found, order).to_multiset() =~= summed(
            order,
            |i: usize| Multiset::singleton(found[i as int]),
        ),
    decreases order.len(),
{
    broadcast use group_to_multiset_ensures;

    let all = in_order(found, order);
    if order.len() > 0 {
        lemma_in_order_has_all(found, order.drop_last());
        assert(all =~= in_order(found, order.drop_last()).push(found[order.last() as int]));
    }
}

proof fn lemma_gathered_has_all(processed: Seq<(MediaItem, bool)>, workers: nat, done: Seq<usize>)
    ensures
        gathered(processed, workers, done).to_multiset() =~= summed(
            done,
            |w: usize| share(processed, workers, w).to_multiset(),
        ),
    decreases done.len(),
{
    broadcast use group_to_multiset_ensures;

    if done.len() > 0 {
        lemma_gathered_has_all(processed, workers, done.drop_last());
        vstd::seq_lib::lemma_multiset_commutative(
            gathered(processed, workers, done.drop_last()),
            share(processed, workers, done.last()),
        );
    }
}

proof fn lemma_gathered_in_turn(processed: Seq<(MediaItem, bool)>, workers: nat, n: nat)
    requires
        0 < n <= workers <= usize::MAX,
    ensures
        gathered(processed, workers, range(0, n as int)) == processed.take(
            chunk_range(processed.len(), workers, (n - 1) as nat).1 as int,
        ),
    decreases n,
{
    let total = processed.len();
    let places = range(0, n as int);
    let last = (n - 1) as nat;
    assert(places.drop_last() =~= range(0, last as int));
    assert(places.last() == last);
    let size = chunk_size(total, workers);
    assert((last + 1) * size == last * size + size) by (nonlinear_arith);
    let (start, end) = chunk_range(total, workers, last);
    assert(start <= end <= total);
    if n > 1 {
        lemma_gathered_in_turn(processed, workers, last);
        assert((last - 1) as nat + 1 == last);
        assert(chunk_range(total, workers, (last - 1) as nat).1 == start);
    } else {
        assert(0 * size == 0);
        assert(gathered(processed, workers, places.drop_last()) =~= processed.take(0));
    }
    assert(processed.take(start as int) + processed.subrange(start as int, end as int)
        =~= processed.take(end as int));
}

proof fn lemma_sorted_is_unique(a: Seq<(MediaItem, bool)>, b: Seq<(MediaItem, bool)>)
    requires
        a.to_multiset() == b.to_multiset(),
        paths_go_up(b),
        forall|i: int, j: int|
            0 <= i < j < a.len() ==> path_le(
                (#[trigger] a[i]).0.path@,
                (#[trigger] a[j]).0.path@,
            ),
    ensures
        a == b,
    decreases a.len(),
{
    broadcast use group_to_multiset_ensures;

    assert(a.len() == a.to_multiset().len());
    assert(b.len() == b.to_multiset().len());
    if a.len() > 0 {
        assert(a.contains(a[0]) && b.contains(b[0]));
        assert(b.to_multiset().contains(a[0]) && a.to_multiset().contains(b[0]));
        assert(b.contains(a[0]) && a.contains(b[0]));
        let i = choose|i: int| 0 <= i < a.len() && a[i] == b[0];
        let j = choose|j: int| 0 <= j < b.len() && b[j] == a[0];
        if j > 0 && i > 0 {
            assert(path_le(a[0].0.path@, a[i].0.path@));
            assert(!path_le(b[j].0.path@, b[0].0.path@));
        }
        assert(a[0] == b[0]);
        let c = a.remove(0);
        let d = b.remove(0);
        assert(c.to_multiset() =~= d.to_multiset());
        assert(forall|k: int| 0 <= k < c.len() ==> c[k] == a[k + 1] && d[k] == b[k + 1]);
        assert(forall|p: int, q: int|
            0 <= p < q < c.len() ==> path_le(
                (#[trigger] c[p]).0.path@,
                (#[trigger] c[q]).0.path@,
            )) by {
            assert forall|p: int, q: int| 0 <= p < q < c.len() implies path_le(
                (#[trigger] c[p]).0.path@,
                (#[trigger] c[q]).0.path@,
            ) by {
                assert(c[p] == a[p + 1] && c[q] == a[q + 1]);
            }
        }
        assert(paths_go_up(d)) by {
            assert forall|p: int, q: int| 0 <= p < q < d.len() implies !path_le(
                (#[trigger] d[q]).0.path@,
                (#[trigger] d[p]).0.path@,
            ) by {
                assert(d[p] == b[p + 1] && d[q] == b[q + 1]);
            }
        }
        lemma_sorted_is_unique(c, d);
        assert(a =~= seq![a[0]] + c);
        assert(b =~= seq![b[0]] + d);
    }
}

proof fn lemma_fresh_in_any_order(a: Seq<(MediaItem, bool)>)
    ensures
        fresh_of(a).len() == a.to_multiset().filter(|f: (MediaItem, bool)| !f.1).len(),
    decreases a.len(),
{
    broadcast use group_to_multiset_ensures;

    let new = |f: (MediaItem, bool)| !f.1;
    if a.len() == 0 {
        assert(a.to_multiset().filter(new) =~= Multiset::empty());
    } else {
        let rest = a.drop_last();
        lemma_fresh_in_any_order(rest);
        assert(a =~= rest.push(a.last()));
        assert(a.to_multiset() =~= rest.to_multiset().insert(a.last()));
        if new(a.last()) {
            assert(a.to_multiset().filter(new) =~= rest.to_multiset().filter(new).insert(a.last()));
        } else {
            assert(a.to_multiset().filter(new) =~= rest.to_multiset().filter(new));
        }
    }
}

/// Whatever the number of workers, and in whichever order they are done, merging what
/// they bring gives the files in the order in which one worker takes them up: the same
/// items, the same ones to write, and the same counts.
pub proof fn workers_change_nothing(
    processed: Seq<(MediaItem, bool)>,
    workers: nat,
    done: Seq<usize>,
    paths: Seq<String>,
    order: Seq<usize>,
)
    requires
        paths_go_up(processed),
        0 < workers <= usize::MAX,
        is_permutation(done, 0, workers as int),
        processed.len() <= usize::MAX,
        is_sorting(gathered(processed, workers, done), paths, order),
    ensures
        in_order(gathered(processed, workers, done), order) == processed,
        gathered(processed, workers, done).len() == processed.len(),
        fresh_of(gathered(processed, workers, done)).len() == fresh_of(processed).len(),
        fresh_of(in_order(gathered(processed, workers, done), order)) == fresh_of(processed),
        counted(gathered(processed, workers, done)) == counted(processed),
{
    broadcast use group_to_multiset_ensures;

    let found = gathered(processed, workers, done);
    let shares = |w: usize| share(processed, workers, w).to_multiset();
    let all_workers = range(0, workers as int);
    lemma_gathered_has_all(processed, workers, done);
    lemma_gathered_has_all(processed, workers, all_workers);
    lemma_summed_in_any_order(done, all_workers, shares);
    lemma_gathered_in_turn(processed, workers, workers);
    chunks_cover_everything(processed.len(), workers);
    assert(processed.take(processed.len() as int) =~= processed);
    assert(found.to_multiset() == processed.to_multiset());
    assert(found.len() == found.to_multiset().len());
    assert(processed.len() == processed.to_multiset().len());

    let parts = |i: usize| Multiset::singleton(found[i as int]);
    let places = range(0, found.len() as int);
    lemma_in_order_has_all(found, order);
    lemma_in_order_has_all(found, places);
    lemma_summed_in_any_order(order, places, parts);
    assert(in_order(found, places) =~= found);
    let sorted = in_order(found, order);
    assert(sorted.to_multiset() == processed.to_multiset());
    assert forall|i: int, j: int| 0 <= i < j < sorted.len() implies path_le(
        (#[trigger] sorted[i]).0.path@,
        (#[trigger] sorted[j]).0.path@,
    ) by {
        assert(sorts_before(paths, order[i], order[j]));
        permutation_is_within(order, found.len() as int, i);
        permutation_is_within(order, found.len() as int, j);
        assert(paths[order[i] as int]@ == found[order[i] as int].0.path@);
        assert(paths[order[j] as int]@ == found[order[j] as int].0.path@);
    }
    lemma_sorted_is_unique(sorted, processed);
    lemma_fresh_in_any_order(found);
    lemma_fresh_in_any_order(processed);
    fresh_items_are_written(found, 1);
    fresh_items_are_written(processed, 1);
}

proof fn lemma_medium_is_found(found: Seq<FoundFile>, m: int) -> (i: int)
    requires
        0 <= m < media_of_finds(found).len(),
    ensures
        0 <= i < found.len(),
        media_of_find(found[i]) == Some(media_of_finds(found)[m]),
    decreases found.len(),
{
    let before = media_of_finds(found.drop_last());
    if m < before.len() {
        let i = lemma_medium_is_found(found.drop_last(), m);
        assert(found[i] == found.drop_last()[i]);
        i
    } else {
        found.len() - 1
    }
}

proof fn lemma_found_medium_is_kept(found: Seq<FoundFile>, i: int) -> (m: int)
    requires
        0 <= i < found.len(),
        media_of_find(found[i]) is Some,
    ensures
        0 <= m < media_of_finds(found).len(),
        media_of_find(found[i]) == Some(media_of_finds(found)[m]),
    decreases found.len(),
{
    if i < found.len() - 1 {
        assert(found[i] == found.drop_last()[i]);
        lemma_found_medium_is_kept(found.drop_last(), i)
    } else {
        media_of_finds(found).len() - 1
    }
}

/// The media files that were picked out, one by one.
proof fn lemma_discovered(
    found: Seq<FoundFile>,
    paths: Seq<String>,
    order: Seq<usize>,
    r: Seq<DiscoveredEntry>,
)
    requires
        paths.len() <= usize::MAX,
        sorts_media(media_of_finds(found), paths, order),
        r.len() == media_of_finds(found).len(),
        forall|i: int|
            0 <= i < r.len() ==> entry_view(#[trigger] r[i]) == media_of_finds(
                found,
            )[order[i] as int],
    ensures
        forall|k: int|
            0 <= k < r.len() ==> exists|i: int|
                {
                    &&& 0 <= i < found.len()
                    &&& (#[trigger] found[i]).path@ == (#[trigger] r[k]).path@
                    &&& !found[i].is_dir
                    &&& found[i].stat matches Some(stat) && stat.0 == r[k].mtime && stat.1
                        == r[k].size
                    &&& type_of_extension(lowercase(extension_or_empty(found[i].path@)))
                        == Some(r[k].media_type)
                },
        forall|i: int|
            0 <= i < found.len() && !found[i].is_dir && found[i].stat is Some
                && type_of_extension(lowercase(extension_or_empty(found[i].path@))) is Some
                ==> exists|k: int|
                {
                    &&& 0 <= k < r.len()
                    &&& (#[trigger] r[k]).path@ == (#[trigger] found[i]).path@
                    &&& found[i].stat matches Some(stat) && stat.0 == r[k].mtime && stat.1
                        == r[k].size
                },
        forall|k: int, m: int|
            0 <= k < m < r.len() ==> path_le(
                (#[trigger] r[k]).path@,
                (#[trigger] r[m]).path@,
            ),
{
    let media = media_of_finds(found);
    assert forall|k: int| 0 <= k < r.len() implies exists|i: int|
        {
            &&& 0 <= i < found.len()
            &&& (#[trigger] found[i]).path@ == (#[trigger] r[k]).path@
            &&& !found[i].is_dir
            &&& found[i].stat matches Some(stat) && stat.0 == r[k].mtime && stat.1 == r[k].size
            &&& type_of_extension(lowercase(extension_or_empty(found[i].path@))) == Some(
                r[k].media_type,
            )
        } by {
        permutation_is_within(order, media.len() as int, k);
        let i = lemma_medium_is_found(found, order[k] as int);
        assert(entry_view(r[k]) == media[order[k] as int]);
        assert(found[i].path@ == r[k].path@);
    }
    assert forall|i: int|
        0 <= i < found.len() && !found[i].is_dir && found[i].stat is Some && type_of_extension(
            lowercase(extension_or_empty(found[i].path@)),
        ) is Some implies exists|k: int|
        {
            &&& 0 <= k < r.len()
            &&& (#[trigger] r[k]).path@ == (#[trigger] found[i]).path@
            &&& found[i].stat matches Some(stat) && stat.0 == r[k].mtime && stat.1 == r[k].size
        } by {
        let m = lemma_found_medium_is_kept(found, i);
        permutation_has_all(order, media.len() as int, m as usize);
        let k = choose|k: int| 0 <= k < order.len() && order[k] == m as usize;
        assert(entry_view(r[k]) == media[order[k] as int]);
        assert(r[k].path@ == found[i].path@);
    }
    assert forall|k: int, m: int| 0 <= k < m < r.len() implies path_le(
        (#[trigger] r[k]).path@,
        (#[trigger] r[m]).path@,
    ) by {
        permutation_is_within(order, media.len() as int, k);
        permutation_is_within(order, media.len() as int, m);
        assert(sorts_before(paths, order[k], order[m]));
        assert(paths[order[k] as int]@ == media[order[k] as int].0);
        assert(paths[order[m] as int]@ == media[order[m] as int].0);
        assert(entry_view(r[k]) == media[order[k] as int]);
        assert(entry_view(r[m]) == media[order[m] as int]);
    }
}

/// A batch is handed out as soon as it is full, and not before.
pub proof fn batches_are_full(waiting: Seq<MediaItem>, item: MediaItem, batch: nat)
    requires
        batch > 0,
        waiting.len() < batch,
    ensures
        ({
            let (left, written) = after_item(waiting, item, false, batch);
            &&& written.len() == 0 || written.len() == batch
            &&& written.len() > 0 <==> waiting.len() + 1 == batch
            &&& written + left == waiting.push(item)
        }),
        after_item(waiting, item, true, batch) == (waiting, Seq::<MediaItem>::empty()),
{
    let (left, written) = after_item(waiting, item, false, batch);
    assert(written + left =~= waiting.push(item));
}

/// No worker gets more files than it must: the most that one gets is the least number by
/// which the workers together have them all.
pub proof fn chunks_are_even(total: nat, workers: nat, worker: nat)
    requires
        worker < workers,
    ensures
        ({
            let (start, end) = chunk_range(total, workers, worker);
            let most = chunk_size(total, workers);
            &&& start <= end <= total
            &&& end - start <= most
            &&& most * workers >= total
            &&& most > 0 ==> (most - 1) * workers < total
        }),
{
    let most = chunk_size(total, workers);
    let sum = total + workers - 1;
    let rest = sum % (workers as int);
    assert(sum == most * workers + rest && 0 <= rest < workers) by (nonlinear_arith)
        requires
            most == sum / (workers as int),
            rest == sum % (workers as int),
            workers > 0,
            sum >= 0,
    ;
    assert((most - 1) * workers == most * workers - workers) by (nonlinear_arith);
    assert((worker + 1) * most == worker * most + most) by (nonlinear_arith);
}

/// The items that the cache did not know are those of what was found, in order.
pub proof fn fresh_items_are_those_not_cached(found: Seq<(MediaItem, bool)>)
    ensures
        fresh_of(found) == found.filter(|f: (MediaItem, bool)| !f.1).map_values(
            |f: (MediaItem, bool)| f.0,
        ),
    decreases found.len(),
{
    reveal(Seq::filter);
    let keep = |f: (MediaItem, bool)| !f.1;
    let item = |f: (MediaItem, bool)| f.0;
    if found.len() > 0 {
        fresh_items_are_those_not_cached(found.drop_last());
        assert(fresh_of(found) =~= found.filter(keep).map_values(item));
    } else {
        assert(fresh_of(found) =~= found.filter(keep).map_values(item));
    }
}

} // verus!
