//! The queue of thumbnail requests: what is asked for, in which order, and what
//! is still under way.
use vstd::prelude::*;

use crate::hashing::xxh3;
use crate::paths::{is_same_path, same_path};
use crate::thumbnails::cache::{key_bytes, CacheKey, CachedThumbnail, ThumbnailCache};

verus! {

/// Number of workers that is taken where none is given.
pub const DEFAULT_WORKERS: usize = 2;

/// Greatest number of workers.
pub const MAX_WORKERS: usize = 4;

/// Greatest number of requests in the queue.
pub const MAX_QUEUE_SIZE: usize = 256;

/// Number of rows around the visible ones for which thumbnails are asked ahead.
pub const PREFETCH_MARGIN: u32 = 3;

/// A request for a thumbnail.
#[derive(Debug)]
pub struct ThumbnailRequest {
    pub path: String,
    pub mtime: i64,
    pub size: i64,
    /// The lower, the sooner.
    pub priority: u32,
    /// The row of the grid that the item is in.
    pub row_index: u32,
}

impl Clone for ThumbnailRequest {
    fn clone(&self) -> (r: Self)
        ensures
            r == *self,
    {
        ThumbnailRequest {
            path: self.path.clone(),
            mtime: self.mtime,
            size: self.size,
            priority: self.priority,
            row_index: self.row_index,
        }
    }
}

impl ThumbnailRequest {
    /// A request of ordinary priority.
    pub fn new(path: String, mtime: i64, size: i64) -> (r: Self)
        ensures
            r.path@ == path@,
            r.mtime == mtime,
            r.size == size,
            r.priority == 100,
            r.row_index == 0,
    {
        ThumbnailRequest { path, mtime, size, priority: 100, row_index: 0 }
    }

    /// The same request with another priority.
    pub fn with_priority(self, priority: u32) -> (r: Self)
        ensures
            r == (ThumbnailRequest { priority, ..self }),
    {
        ThumbnailRequest {
            path: self.path,
            mtime: self.mtime,
            size: self.size,
            priority,
            row_index: self.row_index,
        }
    }

    /// The same request for another row.
    pub fn with_row(self, row_index: u32) -> (r: Self)
        ensures
            r == (ThumbnailRequest { row_index, ..self }),
    {
        ThumbnailRequest {
            path: self.path,
            mtime: self.mtime,
            size: self.size,
            priority: self.priority,
            row_index,
        }
    }

    /// The cache key of the file asked for.
    pub fn cache_key(&self) -> (r: CacheKey)
        ensures
            r.hash == xxh3(key_bytes(self.path@, self.mtime, self.size)),
    {
        CacheKey::new(self.path.as_str(), self.mtime, self.size)
    }
}

/// The outcome of a request, for the grid.
#[derive(Debug)]
pub struct ThumbnailResult {
    pub path: String,
    pub mtime: i64,
    pub size: i64,
    /// The number of the texture, where there is one.
    pub texture: Option<u64>,
    pub width: u32,
    pub height: u32,
    /// What went wrong, where something did.
    pub error: Option<String>,
}

/// The outcome of a request once its thumbnail was retrieved, or could not be.
pub fn result_of_request(req: &ThumbnailRequest, outcome: Result<CachedThumbnail, String>) -> (r:
    ThumbnailResult)
    ensures
        r.path@ == req.path@,
        r.mtime == req.mtime,
        r.size == req.size,
        match outcome {
            Ok(cached) => r.texture == Some(cached.texture) && r.width == cached.width && r.height
                == cached.height && r.error is None,
            Err(e) => r.texture is None && r.width == 0 && r.height == 0 && r.error == Some(e),
        },
{
    match outcome {
        Ok(cached) => ThumbnailResult {
            path: req.path.clone(),
            mtime: req.mtime,
            size: req.size,
            texture: Some(cached.texture),
            width: cached.width,
            height: cached.height,
            error: None,
        },
        Err(e) => ThumbnailResult {
            path: req.path.clone(),
            mtime: req.mtime,
            size: req.size,
            texture: None,
            width: 0,
            height: 0,
            error: Some(e),
        },
    }
}

/// What became of a request that was handed to the workers.
#[derive(Clone, Copy, PartialEq, Eq, Structural, Debug)]
pub enum SendOutcome {
    Sent,
    /// The queue was full.
    Full,
    /// There are no workers any more.
    Disconnected,
}

/// A row of the grid, with what thumbnails are asked by.
#[derive(Debug)]
pub struct RowFiles {
    pub row_index: u32,
    pub files: Vec<(String, i64, i64)>,
}

/// The first row for which thumbnails are asked.
pub open spec fn prefetch_start(first: u32) -> int {
    if first < PREFETCH_MARGIN {
        0
    } else {
        first - PREFETCH_MARGIN
    }
}

/// The last row for which thumbnails are asked.
pub open spec fn prefetch_end(last: u32) -> int {
    if last > u32::MAX - PREFETCH_MARGIN {
        u32::MAX as int
    } else {
        last + PREFETCH_MARGIN
    }
}

/// How soon a row gets its thumbnails: visible rows first, then by distance. Rows
/// further away get none.
pub open spec fn row_priority(row: u32, first: u32, last: u32) -> Option<u32> {
    if row < prefetch_start(first) || row > prefetch_end(last) {
        None
    } else if first <= row <= last {
        Some(0)
    } else if row < first {
        Some((first - row + 1) as u32)
    } else {
        Some((row - last + 1) as u32)
    }
}

/// A request as plain values: path, time, size, priority, row.
pub open spec fn request_view(r: ThumbnailRequest) -> (Seq<char>, i64, i64, u32, u32) {
    (r.path@, r.mtime, r.size, r.priority, r.row_index)
}

/// Requests as plain values.
pub open spec fn requests_view(rs: Seq<ThumbnailRequest>) -> Seq<(Seq<char>, i64, i64, u32, u32)> {
    Seq::new(rs.len(), |i: int| request_view(rs[i]))
}

/// The requests for the files of one row.
pub open spec fn row_requests(row: RowFiles, priority: u32) -> Seq<
    (Seq<char>, i64, i64, u32, u32),
> {
    Seq::new(
        row.files@.len(),
        |i: int|
            (row.files@[i].0@, row.files@[i].1, row.files@[i].2, priority, row.row_index),
    )
}

/// The requests of one priority for some rows, in the order of rows and files.
pub open spec fn requests_at(rows: Seq<RowFiles>, first: u32, last: u32, priority: u32) -> Seq<
    (Seq<char>, i64, i64, u32, u32),
>
    decreases rows.len(),
{
    if rows.len() == 0 {
        seq![]
    } else {
        requests_at(rows.drop_last(), first, last, priority) + if row_priority(
            rows.last().row_index,
            first,
            last,
        ) == Some(priority) {
            row_requests(rows.last(), priority)
        } else {
            seq![]
        }
    }
}

/// The requests of all priorities below `end`, the lowest first.
pub open spec fn requests_below(rows: Seq<RowFiles>, first: u32, last: u32, end: nat) -> Seq<
    (Seq<char>, i64, i64, u32, u32),
>
    decreases end,
{
    if end == 0 {
        seq![]
    } else {
        requests_below(rows, first, last, (end - 1) as nat) + requests_at(
            rows,
            first,
            last,
            (end - 1) as u32,
        )
    }
}

fn priority_of_row(row: u32, first: u32, last: u32) -> (r: Option<u32>)
    ensures
        r == row_priority(row, first, last),
        r matches Some(p) ==> p <= 1 + PREFETCH_MARGIN,
{
    let start: u32 = if first < PREFETCH_MARGIN {
        0
    } else {
        first - PREFETCH_MARGIN
    };
    let end: u32 = if last > u32::MAX - PREFETCH_MARGIN {
        u32::MAX
    } else {
        last + PREFETCH_MARGIN
    };
    if row < start || row > end {
        None
    } else if first <= row && row <= last {
        Some(0)
    } else if row < first {
        Some(first - row + 1)
    } else {
        Some(row - last + 1)
    }
}

fn push_row_requests(out: &mut Vec<ThumbnailRequest>, row: &RowFiles, priority: u32)
    ensures
        requests_view(final(out)@) == requests_view(old(out)@) + row_requests(*row, priority),
{
    let ghost start = requests_view(out@);
    let mut i: usize = 0;
    assert(requests_view(out@) =~= start + row_requests(*row, priority).take(0));
    while i < row.files.len()
        invariant
            i <= row.files@.len(),
            requests_view(out@) == start + row_requests(*row, priority).take(i as int),
        decreases row.files@.len() - i,
    {
        let ghost before = out@;
        let req = ThumbnailRequest {
            path: row.files[i].0.clone(),
            mtime: row.files[i].1,
            size: row.files[i].2,
            priority,
            row_index: row.row_index,
        };
        let ghost v = request_view(req);
        out.push(req);
        assert(requests_view(out@) =~= requests_view(before).push(v));
        i = i + 1;
        assert(requests_view(out@) =~= start + row_requests(*row, priority).take(i as int));
    }
    assert(row_requests(*row, priority).take(row.files@.len() as int) =~= row_requests(
        *row,
        priority,
    ));
}

/// The requests that visible rows and the rows around them make: visible ones
/// first, then nearer before further, and in the order of rows and files within
/// one priority.
pub fn requests_for_rows(rows: &Vec<RowFiles>, first_visible: u32, last_visible: u32) -> (r: Vec<
    ThumbnailRequest,
>)
    ensures
        requests_view(r@) == requests_below(rows@, first_visible, last_visible, 5),
{
    let mut out: Vec<ThumbnailRequest> = Vec::new();
    let mut priority: u32 = 0;
    assert(requests_view(out@) =~= requests_below(rows@, first_visible, last_visible, 0));
    while priority < 5
        invariant
            priority <= 5,
            requests_view(out@) == requests_below(
                rows@,
                first_visible,
                last_visible,
                priority as nat,
            ),
        decreases 5 - priority,
    {
        let ghost start = requests_view(out@);
        let mut i: usize = 0;
        assert(start + requests_at(rows@.take(0), first_visible, last_visible, priority) =~= start);
        while i < rows.len()
            invariant
                i <= rows@.len(),
                requests_view(out@) == start + requests_at(
                    rows@.take(i as int),
                    first_visible,
                    last_visible,
                    priority,
                ),
            decreases rows@.len() - i,
        {
            assert(rows@.take(i + 1).drop_last() =~= rows@.take(i as int));
            let ghost before = requests_view(out@);
            if let Some(p) = priority_of_row(rows[i].row_index, first_visible, last_visible) {
                if p == priority {
                    push_row_requests(&mut out, &rows[i], priority);
                }
            }
            i = i + 1;
            assert(requests_view(out@) =~= start + requests_at(
                rows@.take(i as int),
                first_visible,
                last_visible,
                priority,
            ));
        }
        assert(rows@.take(rows@.len() as int) =~= rows@);
        priority = priority + 1;
    }
    out
}

proof fn lemma_requests_at_priority(rows: Seq<RowFiles>, first: u32, last: u32, priority: u32)
    ensures
        forall|i: int|
            0 <= i < requests_at(rows, first, last, priority).len() ==> (#[trigger] requests_at(
                rows,
                first,
                last,
                priority,
            )[i]).3 == priority,
    decreases rows.len(),
{
    if rows.len() > 0 {
        lemma_requests_at_priority(rows.drop_last(), first, last, priority);
        let head = requests_at(rows.drop_last(), first, last, priority);
        let all = requests_at(rows, first, last, priority);
        assert forall|i: int| 0 <= i < all.len() implies (#[trigger] all[i]).3 == priority by {
            if i < head.len() {
                assert(all[i] == head[i]);
            } else {
                assert(all[i] == row_requests(rows.last(), priority)[i - head.len()]);
            }
        }
    }
}

/// Requests come in the order of their priority, and each priority is that of
/// the row.
pub proof fn requests_are_ordered(rows: Seq<RowFiles>, first: u32, last: u32, end: nat)
    requires
        end <= 5,
    ensures
        forall|i: int|
            0 <= i < requests_below(rows, first, last, end).len() ==> (#[trigger] requests_below(
                rows,
                first,
                last,
                end,
            )[i]).3 < end,
        forall|i: int, j: int|
            0 <= i < j < requests_below(rows, first, last, end).len() ==> (
            #[trigger] requests_below(rows, first, last, end)[i]).3 <= (#[trigger] requests_below(
                rows,
                first,
                last,
                end,
            )[j]).3,
    decreases end,
{
    if end > 0 {
        requests_are_ordered(rows, first, last, (end - 1) as nat);
        lemma_requests_at_priority(rows, first, last, (end - 1) as u32);
        let head = requests_below(rows, first, last, (end - 1) as nat);
        let tail = requests_at(rows, first, last, (end - 1) as u32);
        let all = requests_below(rows, first, last, end);
        assert(all == head + tail);
        assert forall|i: int| 0 <= i < all.len() implies (#[trigger] all[i]).3 < end && (i
            >= head.len() ==> all[i].3 == end - 1) && (i < head.len() ==> all[i].3 < end - 1) by {
            if i < head.len() {
                assert(all[i] == head[i]);
            } else {
                assert(all[i] == tail[i - head.len()]);
            }
        }
        assert forall|i: int, j: int| 0 <= i < j < all.len() implies (#[trigger] all[i]).3 <= (
        #[trigger] all[j]).3 by {
            if j < head.len() {
                assert(all[i] == head[i] && all[j] == head[j]);
            }
        }
    }
}

/// Every row within reach of the visible ones has one of the priorities that
/// are served.
pub proof fn served_priorities_are_all(row: u32, first: u32, last: u32)
    ensures
        row_priority(row, first, last) matches Some(p) ==> p < 5,
{
}

/// Whether a path is among some others, however it is written.
pub open spec fn has_path(paths: Seq<Seq<char>>, path: Seq<char>) -> bool {
    exists|i: int| 0 <= i < paths.len() && same_path(#[trigger] paths[i], path)
}

/// Some paths without the given one, however it is written.
pub open spec fn without_path(paths: Seq<Seq<char>>, path: Seq<char>) -> Seq<Seq<char>>
    decreases paths.len(),
{
    if paths.len() == 0 {
        seq![]
    } else {
        let rest = without_path(paths.drop_last(), path);
        if same_path(paths.last(), path) {
            rest
        } else {
            rest.push(paths.last())
        }
    }
}

/// No path occurs twice.
pub open spec fn paths_differ(paths: Seq<Seq<char>>) -> bool {
    forall|i: int, j: int|
        0 <= i < j < paths.len() ==> !same_path(#[trigger] paths[i], #[trigger] paths[j])
}

proof fn lemma_without_path(paths: Seq<Seq<char>>, path: Seq<char>)
    ensures
        forall|i: int|
            0 <= i < without_path(paths, path).len() ==> paths.contains(
                #[trigger] without_path(paths, path)[i],
            ),
        paths_differ(paths) ==> paths_differ(without_path(paths, path)),
    decreases paths.len(),
{
    if paths.len() > 0 {
        let before = paths.drop_last();
        let rest = without_path(before, path);
        lemma_without_path(before, path);
        let all = without_path(paths, path);
        assert forall|i: int| 0 <= i < all.len() implies paths.contains(#[trigger] all[i]) by {
            if i < rest.len() {
                assert(before.contains(rest[i]));
                let k = choose|k: int| 0 <= k < before.len() && before[k] == rest[i];
                assert(paths[k] == all[i]);
            } else {
                assert(paths[paths.len() - 1] == all[i]);
            }
        }
        if paths_differ(paths) {
            assert(paths_differ(before)) by {
                assert forall|i: int, j: int| 0 <= i < j < before.len() implies !same_path(
                    #[trigger] before[i],
                    #[trigger] before[j],
                ) by {
                    assert(!same_path(paths[i], paths[j]));
                }
            }
            assert forall|i: int, j: int| 0 <= i < j < all.len() implies !same_path(
                #[trigger] all[i],
                #[trigger] all[j],
            ) by {
                if j < rest.len() {
                    assert(!same_path(rest[i], rest[j]));
                } else {
                    assert(before.contains(rest[i]));
                    let k = choose|k: int| 0 <= k < before.len() && before[k] == rest[i];
                    assert(!same_path(paths[k], paths[paths.len() - 1]));
                }
            }
        }
    }
}

/// The queue of thumbnail requests, seen from the side that makes them.
pub struct ThumbnailQueue {
    workers: usize,
    pending: Vec<String>,
    visible_range: (u32, u32),
}

impl ThumbnailQueue {
    /// The paths that are asked for and not done yet, in the order of asking.
    pub closed spec fn pending(self) -> Seq<Seq<char>> {
        self.pending@.map_values(|p: String| p@)
    }

    /// How many workers serve the queue.
    pub closed spec fn worker_count(self) -> usize {
        self.workers
    }

    /// The first and last row that are visible.
    pub closed spec fn visible(self) -> (u32, u32) {
        self.visible_range
    }

    /// No path is pending twice.
    pub open spec fn wf(self) -> bool {
        paths_differ(self.pending())
    }

    /// A queue with nothing pending; the number of workers is kept between one
    /// and the greatest.
    pub fn new(workers: usize) -> (r: Self)
        ensures
            r.wf(),
            r.pending().len() == 0,
            r.visible() == (0u32, 0u32),
            r.worker_count() == if workers < 1 {
                1
            } else if workers > MAX_WORKERS {
                MAX_WORKERS
            } else {
                workers
            },
    {
        let n: usize = if workers < 1 {
            1
        } else if workers > MAX_WORKERS {
            MAX_WORKERS
        } else {
            workers
        };
        ThumbnailQueue { workers: n, pending: Vec::new(), visible_range: (0, 0) }
    }

    /// How many workers serve the queue.
    pub fn workers(&self) -> (r: usize)
        ensures
            r == self.worker_count(),
    {
        self.workers
    }

    /// The first and last row that are visible.
    pub fn visible_range(&self) -> (r: (u32, u32))
        ensures
            r == self.visible(),
    {
        self.visible_range
    }

    /// Takes a request up unless its path is pending or its thumbnail is cached.
    /// Tells whether the request is to be handed to the workers now.
    pub fn request(&mut self, req: &ThumbnailRequest, cached: bool) -> (r: bool)
        requires
            old(self).wf(),
        ensures
            final(self).wf(),
            final(self).worker_count() == old(self).worker_count(),
            final(self).visible() == old(self).visible(),
            r == (!has_path(old(self).pending(), req.path@) && !cached),
            final(self).pending() == if r {
                old(self).pending().push(req.path@)
            } else {
                old(self).pending()
            },
    {
        let mut i: usize = 0;
        while i < self.pending.len()
            invariant
                i <= self.pending@.len(),
                self.pending@ == old(self).pending@,
                self.workers == old(self).workers,
                self.visible_range == old(self).visible_range,
                forall|k: int| 0 <= k < i ==> !same_path(#[trigger] self.pending()[k], req.path@),
                old(self).wf(),
            decreases self.pending@.len() - i,
        {
            if is_same_path(&self.pending[i], &req.path) {
                assert(same_path(self.pending()[i as int], req.path@));
                return false;
            }
            i = i + 1;
        }
        if cached {
            return false;
        }
        self.pending.push(req.path.clone());
        assert(self.pending() =~= old(self).pending().push(req.path@));
        true
    }

    fn forget(&mut self, path: &str)
        requires
            old(self).wf(),
        ensures
            final(self).wf(),
            final(self).worker_count() == old(self).worker_count(),
            final(self).visible() == old(self).visible(),
            final(self).pending() == without_path(old(self).pending(), path@),
    {
        let ghost before = self.pending();
        let mut kept: Vec<String> = Vec::new();
        let mut i: usize = 0;
        assert(before.take(0) =~= seq![]);
        while i < self.pending.len()
            invariant
                i <= self.pending@.len(),
                before == self.pending(),
                self.workers == old(self).workers,
                self.visible_range == old(self).visible_range,
                kept@.map_values(|p: String| p@) == without_path(before.take(i as int), path@),
            decreases self.pending@.len() - i,
        {
            assert(before.take(i + 1).drop_last() =~= before.take(i as int));
            assert(before[i as int] == self.pending@[i as int]@);
            if !is_same_path(&self.pending[i], path) {
                let ghost had = kept@.map_values(|p: String| p@);
                kept.push(self.pending[i].clone());
                assert(kept@.map_values(|p: String| p@) =~= had.push(before[i as int]));
            }
            i = i + 1;
        }
        assert(before.take(before.len() as int) =~= before);
        self.pending = kept;
        proof {
            lemma_without_path(before, path@);
        }
    }

    /// Notes what became of a request that was handed to the workers: only a full
    /// queue gives the path up again. Tells whether the request was taken.
    pub fn sent(&mut self, path: &str, outcome: SendOutcome) -> (r: bool)
        requires
            old(self).wf(),
        ensures
            final(self).wf(),
            final(self).worker_count() == old(self).worker_count(),
            final(self).visible() == old(self).visible(),
            r == (outcome == SendOutcome::Sent),
            final(self).pending() == if outcome == SendOutcome::Full {
                without_path(old(self).pending(), path@)
            } else {
                old(self).pending()
            },
    {
        match outcome {
            SendOutcome::Sent => true,
            SendOutcome::Full => {
                self.forget(path);
                false
            },
            SendOutcome::Disconnected => false,
        }
    }

    /// Notes that a request is done.
    pub fn finished(&mut self, path: &str)
        requires
            old(self).wf(),
        ensures
            final(self).wf(),
            final(self).worker_count() == old(self).worker_count(),
            final(self).visible() == old(self).visible(),
            final(self).pending() == without_path(old(self).pending(), path@),
    {
        self.forget(path);
    }

    /// Notes which rows are visible and lists the requests that they and the rows
    /// around them make.
    pub fn request_visible_rows(
        &mut self,
        rows: &Vec<RowFiles>,
        first_visible: u32,
        last_visible: u32,
    ) -> (r: Vec<ThumbnailRequest>)
        requires
            old(self).wf(),
        ensures
            final(self).wf(),
            final(self).worker_count() == old(self).worker_count(),
            final(self).visible() == (first_visible, last_visible),
            final(self).pending() == old(self).pending(),
            requests_view(r@) == requests_below(rows@, first_visible, last_visible, 5),
    {
        self.visible_range = (first_visible, last_visible);
        requests_for_rows(rows, first_visible, last_visible)
    }

    /// The number of paths that are asked for and not done yet.
    pub fn pending_count(&self) -> (r: usize)
        ensures
            r == self.pending().len(),
    {
        self.pending.len()
    }

    /// Whether anything is under way.
    pub fn is_busy(&self, active_workers: usize) -> (r: bool)
        ensures
            r == (self.pending().len() > 0 || active_workers > 0),
    {
        self.pending.len() > 0 || active_workers > 0
    }

    /// Forgets what is pending, so that it can be asked for again.
    pub fn cancel_all(&mut self)
        ensures
            final(self).wf(),
            final(self).worker_count() == old(self).worker_count(),
            final(self).visible() == old(self).visible(),
            final(self).pending().len() == 0,
    {
        self.pending.clear();
    }
}

/// A path that was taken up and is done can be asked for again, and nothing else that
/// is pending is touched by it.
pub proof fn finished_path_can_be_asked_for(pending: Seq<Seq<char>>, path: Seq<char>)
    requires
        !has_path(pending, path),
    ensures
        without_path(pending.push(path), path) == pending,
    decreases pending.len(),
{
    assert(pending.push(path).drop_last() =~= pending);
    lemma_nothing_to_leave_out(pending, path);
}

proof fn lemma_nothing_to_leave_out(paths: Seq<Seq<char>>, path: Seq<char>)
    requires
        !has_path(paths, path),
    ensures
        without_path(paths, path) == paths,
    decreases paths.len(),
{
    if paths.len() > 0 {
        let before = paths.drop_last();
        assert(!has_path(before, path)) by {
            if has_path(before, path) {
                let i = choose|i: int| 0 <= i < before.len() && same_path(#[trigger] before[i], path);
                assert(same_path(paths[i], path));
            }
        }
        lemma_nothing_to_leave_out(before, path);
        assert(!same_path(paths[paths.len() - 1], path));
        assert(before.push(paths.last()) =~= paths);
    }
}

/// Settings of a queue that is to be made.
#[derive(Debug)]
pub struct ThumbnailQueueBuilder {
    pub workers: usize,
    pub max_memory_mb: usize,
    pub cache_dir: Option<String>,
}

impl ThumbnailQueueBuilder {
    /// Two workers, 192 megabytes, and the default directory.
    pub fn new() -> (r: Self)
        ensures
            r.workers == DEFAULT_WORKERS,
            r.max_memory_mb == 192,
            r.cache_dir is None,
    {
        ThumbnailQueueBuilder { workers: DEFAULT_WORKERS, max_memory_mb: 192, cache_dir: None }
    }

    /// The same settings with another number of workers.
    pub fn workers(self, count: usize) -> (r: Self)
        ensures
            r == (ThumbnailQueueBuilder { workers: count, ..self }),
    {
        ThumbnailQueueBuilder {
            workers: count,
            max_memory_mb: self.max_memory_mb,
            cache_dir: self.cache_dir,
        }
    }

    /// The same settings with another memory limit.
    pub fn max_memory_mb(self, mb: usize) -> (r: Self)
        ensures
            r == (ThumbnailQueueBuilder { max_memory_mb: mb, ..self }),
    {
        ThumbnailQueueBuilder {
            workers: self.workers,
            max_memory_mb: mb,
            cache_dir: self.cache_dir,
        }
    }

    /// The same settings with a directory.
    pub fn cache_dir(self, dir: String) -> (r: Self)
        ensures
            r == (ThumbnailQueueBuilder { cache_dir: Some(dir), ..self }),
    {
        ThumbnailQueueBuilder {
            workers: self.workers,
            max_memory_mb: self.max_memory_mb,
            cache_dir: Some(dir),
        }
    }

    /// The queue and its cache; the default directory is used where none was set.
    pub fn build(self, default_dir: String) -> (r: (ThumbnailQueue, ThumbnailCache))
        ensures
            r.0.wf(),
            r.0.pending().len() == 0,
            r.0.worker_count() == if self.workers < 1 {
                1
            } else if self.workers > MAX_WORKERS {
                MAX_WORKERS
            } else {
                self.workers
            },
            r.1.wf(),
            r.1.entries().len() == 0,
            r.1.dir() == match self.cache_dir {
                Some(dir) => dir@,
                None => default_dir@,
            },
            r.1.limit() == (if self.max_memory_mb < 64 {
                64
            } else if self.max_memory_mb > 512 {
                512
            } else {
                self.max_memory_mb as int
            }) * 1048576,
    {
        let dir = match self.cache_dir {
            Some(dir) => dir,
            None => default_dir,
        };
        (ThumbnailQueue::new(self.workers), ThumbnailCache::new(dir, self.max_memory_mb))
    }
}

impl Default for ThumbnailQueueBuilder {
    fn default() -> (r: Self)
        ensures
            r.workers == DEFAULT_WORKERS,
            r.max_memory_mb == 192,
            r.cache_dir is None,
    {
        ThumbnailQueueBuilder::new()
    }
}

/// How far a row is from the visible ones.
pub open spec fn rows_away(row: u32, first: u32, last: u32) -> int {
    if row < first {
        first - row
    } else if row > last {
        row - last
    } else {
        0
    }
}

/// Thumbnails are made for the visible rows and the three rows before and behind them,
/// and for no other; visible rows come first, and a nearer row before one further off.
pub proof fn nearer_rows_come_sooner(a: u32, b: u32, first: u32, last: u32)
    requires
        first <= last,
    ensures
        row_priority(a, first, last) is Some <==> rows_away(a, first, last) <= 3,
        rows_away(a, first, last) == 0 <==> row_priority(a, first, last) == Some(0u32),
        row_priority(a, first, last) is Some && row_priority(b, first, last) is Some ==> (
        rows_away(a, first, last) < rows_away(b, first, last) <==> row_priority(a, first, last)->0
            < row_priority(b, first, last)->0),
{
}

proof fn lemma_requests_at_come_from(
    rows: Seq<RowFiles>,
    first: u32,
    last: u32,
    priority: u32,
    i: int,
) -> (from: (int, int))
    requires
        0 <= i < requests_at(rows, first, last, priority).len(),
    ensures
        0 <= from.0 < rows.len(),
        0 <= from.1 < rows[from.0].files@.len(),
        row_priority(rows[from.0].row_index, first, last) == Some(priority),
        requests_at(rows, first, last, priority)[i] == (
            rows[from.0].files@[from.1].0@,
            rows[from.0].files@[from.1].1,
            rows[from.0].files@[from.1].2,
            priority,
            rows[from.0].row_index,
        ),
    decreases rows.len(),
{
    let before = requests_at(rows.drop_last(), first, last, priority);
    if i < before.len() {
        let from = lemma_requests_at_come_from(rows.drop_last(), first, last, priority, i);
        assert(rows.drop_last()[from.0] == rows[from.0]);
        from
    } else {
        (rows.len() - 1, i - before.len())
    }
}

proof fn lemma_file_is_requested_at(
    rows: Seq<RowFiles>,
    first: u32,
    last: u32,
    priority: u32,
    r: int,
    f: int,
) -> (i: int)
    requires
        0 <= r < rows.len(),
        0 <= f < rows[r].files@.len(),
        row_priority(rows[r].row_index, first, last) == Some(priority),
    ensures
        0 <= i < requests_at(rows, first, last, priority).len(),
        requests_at(rows, first, last, priority)[i] == (
            rows[r].files@[f].0@,
            rows[r].files@[f].1,
            rows[r].files@[f].2,
            priority,
            rows[r].row_index,
        ),
    decreases rows.len(),
{
    let before = requests_at(rows.drop_last(), first, last, priority);
    if r < rows.len() - 1 {
        assert(rows.drop_last()[r] == rows[r]);
        lemma_file_is_requested_at(rows.drop_last(), first, last, priority, r, f)
    } else {
        before.len() + f
    }
}

/// Every request is for a file of a row within reach: it tells the path, the time and
/// the size of the file, the row, and the priority of the row.
pub proof fn requests_are_for_files(
    rows: Seq<RowFiles>,
    first: u32,
    last: u32,
    end: nat,
    i: int,
) -> (from: (int, int))
    requires
        end <= 5,
        0 <= i < requests_below(rows, first, last, end).len(),
    ensures
        0 <= from.0 < rows.len(),
        0 <= from.1 < rows[from.0].files@.len(),
        ({
            let request = requests_below(rows, first, last, end)[i];
            let file = rows[from.0].files@[from.1];
            &&& request.0 == file.0@ && request.1 == file.1 && request.2 == file.2
            &&& Some(request.3) == row_priority(rows[from.0].row_index, first, last)
            &&& request.4 == rows[from.0].row_index
        }),
    decreases end,
{
    let before = requests_below(rows, first, last, (end - 1) as nat);
    if i < before.len() {
        requests_are_for_files(rows, first, last, (end - 1) as nat, i)
    } else {
        lemma_requests_at_come_from(rows, first, last, (end - 1) as u32, i - before.len())
    }
}

/// Every file of a row within reach is asked for.
pub proof fn files_are_requested(
    rows: Seq<RowFiles>,
    first: u32,
    last: u32,
    end: nat,
    r: int,
    f: int,
) -> (i: int)
    requires
        end <= 5,
        0 <= r < rows.len(),
        0 <= f < rows[r].files@.len(),
        row_priority(rows[r].row_index, first, last) matches Some(p) && p < end,
    ensures
        0 <= i < requests_below(rows, first, last, end).len(),
        ({
            let request = requests_below(rows, first, last, end)[i];
            let file = rows[r].files@[f];
            &&& request.0 == file.0@ && request.1 == file.1 && request.2 == file.2
            &&& Some(request.3) == row_priority(rows[r].row_index, first, last)
            &&& request.4 == rows[r].row_index
        }),
    decreases end,
{
    let before = requests_below(rows, first, last, (end - 1) as nat);
    if row_priority(rows[r].row_index, first, last)->0 < end - 1 {
        files_are_requested(rows, first, last, (end - 1) as nat, r, f)
    } else {
        before.len() + lemma_file_is_requested_at(rows, first, last, (end - 1) as u32, r, f)
    }
}

/// Leaving a path out leaves just the other paths, in their order.
pub proof fn other_paths_stay(paths: Seq<Seq<char>>, path: Seq<char>)
    ensures
        without_path(paths, path) == paths.filter(|p: Seq<char>| !same_path(p, path)),
        !has_path(without_path(paths, path), path),
    decreases paths.len(),
{
    let keep = |p: Seq<char>| !same_path(p, path);
    reveal(Seq::filter);
    if paths.len() > 0 {
        other_paths_stay(paths.drop_last(), path);
        let rest = without_path(paths.drop_last(), path);
        let all = without_path(paths, path);
        if has_path(all, path) {
            let i = choose|i: int| 0 <= i < all.len() && same_path(#[trigger] all[i], path);
            if i < rest.len() {
                assert(same_path(rest[i], path));
                assert(has_path(rest, path));
            }
        }
    }
}

/// Two workers make thumbnails, four at most, of up to 256 requests that wait; three rows
/// beyond those that are seen are asked for.
pub proof fn limits_of_the_queue()
    ensures
        DEFAULT_WORKERS == 2,
        MAX_WORKERS == 4,
        MAX_QUEUE_SIZE == 256,
        PREFETCH_MARGIN == 3,
{
}

/// The plain values of requests are their own, one by one.
pub proof fn requests_are_as_they_say(rs: Seq<ThumbnailRequest>, i: int)
    requires
        0 <= i < rs.len(),
    ensures
        requests_view(rs).len() == rs.len(),
        requests_view(rs)[i].0 == rs[i].path@,
        requests_view(rs)[i].1 == rs[i].mtime,
        requests_view(rs)[i].2 == rs[i].size,
        requests_view(rs)[i].3 == rs[i].priority,
        requests_view(rs)[i].4 == rs[i].row_index,
{
}

} // verus!
