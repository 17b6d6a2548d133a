//! The course of a benchmark run: which thumbnails are made in which order,
//! when a phase ends, what is counted, and how the report is put together.
use vstd::prelude::*;

use crate::bench::args::BenchmarkArgs;
use crate::bench::gpu::{
    apply_nvidia_smi_fallback, fallback_applied, nvidia_samples_as_devices, GpuDeviceSnapshot,
    NvidiaSmiSample,
};
use crate::bench::report::{
    BenchmarkAggregate, BenchmarkReport, BenchmarkRun, GpuRunSummary,
};
use crate::bench::stats::{average, mean};
use crate::double::{of_whole, Double, ZERO};
use crate::models::media_item::MediaItem;
use crate::sorting::{is_permutation, is_sorted, sort_paths};
use crate::text::{
    decimal, from_chars, parse_number, parsed_number, push_number, to_chars, trim_chars, trimmed,
};
use crate::thumbnails::generator::{format_of_path, mode_name, ResizeMode, ThumbnailGenerator};

verus! {

/// Why a directory cannot be benchmarked.
#[derive(Clone, Copy, PartialEq, Eq, Structural, Debug)]
pub enum TargetError {
    Missing,
    NotADirectory,
}

/// Whether a path can be benchmarked.
pub fn check_target(path_exists: bool, is_dir: bool) -> (r: Result<(), TargetError>)
    ensures
        r == if !path_exists {
            Err::<(), _>(TargetError::Missing)
        } else if !is_dir {
            Err(TargetError::NotADirectory)
        } else {
            Ok(())
        },
{
    if !path_exists {
        Err(TargetError::Missing)
    } else if !is_dir {
        Err(TargetError::NotADirectory)
    } else {
        Ok(())
    }
}

/// The name of the report file of a moment.
pub fn report_file_name(generated_at_unix_ms: u128) -> (r: String)
    ensures
        r@ == "scan-"@ + decimal(generated_at_unix_ms as nat) + ".json"@,
{
    let mut out = "scan-".to_owned();
    push_number(&mut out, generated_at_unix_ms);
    out.push_str(".json");
    out
}

/// The files that make up a database: itself and its two companions.
pub fn cache_files(db: &str) -> (r: Vec<String>)
    ensures
        r@.len() == 3,
        r@[0]@ == db@,
        r@[1]@ == db@ + "-wal"@,
        r@[2]@ == db@ + "-shm"@,
{
    let mut wal = db.to_owned();
    wal.push_str("-wal");
    let mut shm = db.to_owned();
    shm.push_str("-shm");
    vec![db.to_owned(), wal, shm]
}

/// The text of a small file without the white space around it.
pub fn read_trimmed(raw: &str) -> (r: String)
    ensures
        r@ == trimmed(raw@),
{
    let chars = to_chars(raw);
    from_chars(trim_chars(chars.as_slice()).as_slice())
}

/// The number in a small file.
pub fn read_u64(raw: &str) -> (r: Option<u64>)
    ensures
        match r {
            Some(n) => parsed_number(trimmed(raw@), u64::MAX as nat) == Some(n as nat),
            None => parsed_number(trimmed(raw@), u64::MAX as nat) is None,
        },
{
    let text = read_trimmed(raw);
    parse_number(&text, u64::MAX)
}

/// The places of the items that thumbnails can be made of, among the first `n`.
pub open spec fn candidates(items: Seq<MediaItem>, n: int) -> Seq<usize>
    decreases n,
{
    if n <= 0 {
        seq![]
    } else if format_of_path(items[n - 1].path@) is Some {
        candidates(items, n - 1).push((n - 1) as usize)
    } else {
        candidates(items, n - 1)
    }
}

/// The paths of items at the given places.
pub open spec fn are_paths_of(paths: Seq<String>, items: Seq<MediaItem>, places: Seq<usize>) -> bool {
    &&& paths.len() == places.len()
    &&& forall|i: int|
        0 <= i < paths.len() ==> (#[trigger] paths[i])@ == items[places[i] as int].path@
}

/// How many of `total` thumbnails are made under a limit; zero means no limit.
pub open spec fn selected_count(total: nat, limit: nat) -> nat {
    if limit == 0 || limit > total {
        total
    } else {
        limit
    }
}

/// Which thumbnails a run makes.
#[derive(Debug)]
pub struct ThumbPlan {
    /// The places of the items, in the order of their paths.
    pub tasks: Vec<usize>,
    /// How many of the first tasks count as visible.
    pub visible: usize,
    /// How many items thumbnails can be made of.
    pub total: usize,
}

/// Plans the thumbnails of a run: of the items that thumbnails can be made of,
/// in the order of their paths, the first up to the limit; the first of these
/// count as visible.
pub fn plan_thumbnails(items: &Vec<MediaItem>, limit: usize, visible_count: usize) -> (r: ThumbPlan)
    ensures
        ({
            let cand = candidates(items@, items@.len() as int);
            let chosen = selected_count(cand.len(), limit as nat);
            &&& r.total == cand.len()
            &&& r.tasks@.len() == chosen
            &&& r.visible == if visible_count < chosen {
                visible_count as nat
            } else {
                chosen
            }
            &&& exists|paths: Seq<String>, order: Seq<usize>|
                {
                    &&& #[trigger] are_paths_of(paths, items@, cand)
                    &&& #[trigger] is_sorted(paths, order)
                    &&& is_permutation(order, 0, cand.len() as int)
                    &&& order.len() == cand.len()
                    &&& forall|i: int|
                        0 <= i < chosen ==> #[trigger] r.tasks@[i] == cand[order[i] as int]
                }
        }),
{
    let mut places: Vec<usize> = Vec::new();
    let mut paths: Vec<String> = Vec::new();
    let mut i: usize = 0;
    while i < items.len()
        invariant
            i <= items@.len(),
            places@ == candidates(items@, i as int),
            are_paths_of(paths@, items@, places@),
            forall|k: int| 0 <= k < places@.len() ==> (#[trigger] places@[k]) < i,
        decreases items@.len() - i,
    {
        if ThumbnailGenerator::can_generate(&items[i].path) {
            places.push(i);
            paths.push(items[i].path.clone());
        }
        i = i + 1;
    }
    let order = sort_paths(&paths);
    let total: usize = places.len();
    let chosen: usize = if limit == 0 || limit > total {
        total
    } else {
        limit
    };
    let visible: usize = if visible_count < chosen {
        visible_count
    } else {
        chosen
    };
    let mut tasks: Vec<usize> = Vec::new();
    let mut k: usize = 0;
    while k < chosen
        invariant
            k <= chosen <= total,
            total == places@.len(),
            order@.len() == total,
            forall|m: int| 0 <= m < order@.len() ==> (#[trigger] order@[m]) < total,
            tasks@.len() == k,
            forall|m: int| 0 <= m < k ==> #[trigger] tasks@[m] == places@[order@[m] as int],
        decreases chosen - k,
    {
        tasks.push(places[order[k]]);
        k = k + 1;
    }
    assert(are_paths_of(paths@, items@, places@));
    assert(is_sorted(paths@, order@));
    ThumbPlan { tasks, visible, total }
}

/// Whether work may be handed to a graphics device.
#[derive(Clone, Copy, PartialEq, Eq, Structural, Debug)]
pub struct ThumbOffloadConfig {
    pub enabled: bool,
    pub available: bool,
}

/// What became of one thumbnail.
#[derive(Clone, Copy, PartialEq, Eq, Structural, Debug)]
pub struct ThumbOutcome {
    pub cache_hit: bool,
    pub success: bool,
    pub offload_attempted: bool,
    pub offload_used: bool,
}

/// What becomes of a thumbnail: one that is on disk already counts as made;
/// `generated` tells whether making it worked otherwise. Handing work to a
/// graphics device is tried where it is possible but never used yet.
pub fn thumb_outcome(cache_hit: bool, offload: ThumbOffloadConfig, generated: bool) -> (r:
    ThumbOutcome)
    ensures
        r == (ThumbOutcome {
            cache_hit,
            success: cache_hit || generated,
            offload_attempted: !cache_hit && offload.enabled && offload.available,
            offload_used: false,
        }),
{
    ThumbOutcome {
        cache_hit,
        success: cache_hit || generated,
        offload_attempted: !cache_hit && offload.enabled && offload.available,
        offload_used: false,
    }
}

/// How many outcomes satisfy a condition.
pub open spec fn count_where(
    outcomes: Seq<ThumbOutcome>,
    condition: spec_fn(ThumbOutcome) -> bool,
) -> nat
    decreases outcomes.len(),
{
    if outcomes.len() == 0 {
        0
    } else {
        count_where(outcomes.drop_last(), condition) + if condition(outcomes.last()) {
            1nat
        } else {
            0nat
        }
    }
}

/// Made in this run.
pub open spec fn was_generated() -> spec_fn(ThumbOutcome) -> bool {
    |o: ThumbOutcome| o.success && !o.cache_hit
}

/// On disk already.
pub open spec fn was_cached() -> spec_fn(ThumbOutcome) -> bool {
    |o: ThumbOutcome| o.cache_hit
}

/// Not made.
pub open spec fn has_failed() -> spec_fn(ThumbOutcome) -> bool {
    |o: ThumbOutcome| !o.success
}

/// Tried on a graphics device.
pub open spec fn was_attempted() -> spec_fn(ThumbOutcome) -> bool {
    |o: ThumbOutcome| o.offload_attempted
}

/// Made on a graphics device.
pub open spec fn was_offloaded() -> spec_fn(ThumbOutcome) -> bool {
    |o: ThumbOutcome| o.offload_used
}

/// How many thumbnails fared how.
#[derive(Clone, Copy, PartialEq, Eq, Structural, Debug)]
pub struct ThumbCounts {
    pub generated: usize,
    pub skipped_cached: usize,
    pub failed: usize,
    pub offload_attempted: usize,
    pub offload_used: usize,
}

/// Counts how thumbnails fared.
pub fn count_outcomes(outcomes: &Vec<ThumbOutcome>) -> (r: ThumbCounts)
    ensures
        r.generated == count_where(outcomes@, was_generated()),
        r.skipped_cached == count_where(outcomes@, was_cached()),
        r.failed == count_where(outcomes@, has_failed()),
        r.offload_attempted == count_where(outcomes@, was_attempted()),
        r.offload_used == count_where(outcomes@, was_offloaded()),
{
    let mut r = ThumbCounts {
        generated: 0,
        skipped_cached: 0,
        failed: 0,
        offload_attempted: 0,
        offload_used: 0,
    };
    let mut i: usize = 0;
    while i < outcomes.len()
        invariant
            i <= outcomes@.len(),
            r.generated == count_where(outcomes@.take(i as int), was_generated()),
            r.skipped_cached == count_where(outcomes@.take(i as int), was_cached()),
            r.failed == count_where(outcomes@.take(i as int), has_failed()),
            r.offload_attempted == count_where(outcomes@.take(i as int), was_attempted()),
            r.offload_used == count_where(outcomes@.take(i as int), was_offloaded()),
            r.generated <= i,
            r.skipped_cached <= i,
            r.failed <= i,
            r.offload_attempted <= i,
            r.offload_used <= i,
        decreases outcomes@.len() - i,
    {
        let o = outcomes[i];
        assert(outcomes@.take(i + 1).drop_last() =~= outcomes@.take(i as int));
        assert(outcomes@.take(i + 1).last() == o);
        if o.success && !o.cache_hit {
            r.generated = r.generated + 1;
        }
        if o.cache_hit {
            r.skipped_cached = r.skipped_cached + 1;
        }
        if !o.success {
            r.failed = r.failed + 1;
        }
        if o.offload_attempted {
            r.offload_attempted = r.offload_attempted + 1;
        }
        if o.offload_used {
            r.offload_used = r.offload_used + 1;
        }
        i = i + 1;
    }
    assert(outcomes@.take(outcomes@.len() as int) =~= outcomes@);
    r
}

/// Every thumbnail is made, skipped or failed, and only one of them.
pub proof fn outcomes_add_up(outcomes: Seq<ThumbOutcome>)
    requires
        forall|i: int|
            0 <= i < outcomes.len() ==> ((#[trigger] outcomes[i]).cache_hit ==> outcomes[i].success),
    ensures
        count_where(outcomes, was_generated()) + count_where(outcomes, was_cached()) + count_where(
            outcomes,
            has_failed(),
        ) == outcomes.len(),
    decreases outcomes.len(),
{
    if outcomes.len() > 0 {
        assert(outcomes.last() == outcomes[outcomes.len() - 1]);
        assert(forall|i: int|
            0 <= i < outcomes.drop_last().len() ==> #[trigger] outcomes.drop_last()[i]
                == outcomes[i]);
        outcomes_add_up(outcomes.drop_last());
    }
}

/// The number of workers of a phase.
pub fn phase_workers(workers: usize) -> (r: usize)
    ensures
        r == if workers < 1 {
            1
        } else if workers > 32 {
            32
        } else {
            workers
        },
{
    if workers < 1 {
        1
    } else if workers > 32 {
        32
    } else {
        workers
    }
}

/// Where a thumbnail of a phase stands.
#[derive(Clone, Copy, PartialEq, Eq, Structural, Debug)]
pub enum TaskState {
    /// No worker has taken it up.
    Waiting,
    /// A worker has made it since this time, in nanoseconds from the start of the phase.
    Running(u128),
    /// Its result has come.
    Done,
    /// It took too long and was given up.
    Skipped,
    /// The workers went away before it was done.
    Lost,
}

/// Whether nothing more is waited for.
pub open spec fn is_settled(state: TaskState) -> bool {
    !(state is Waiting) && !(state is Running)
}

/// How many thumbnails nothing more is waited for.
pub open spec fn settled_count(tasks: Seq<TaskState>) -> nat
    decreases tasks.len(),
{
    if tasks.len() == 0 {
        0
    } else {
        settled_count(tasks.drop_last()) + if is_settled(tasks.last()) {
            1nat
        } else {
            0
        }
    }
}

/// Whether a thumbnail takes longer than it may; without a timeout none does.
pub open spec fn is_overdue(state: TaskState, timeout_ms: u64, now: u128) -> bool {
    match state {
        TaskState::Running(since) => timeout_ms > 0 && now - since > timeout_ms * 1000000,
        _ => false,
    }
}

/// The first thumbnail from `i` on that takes longer than it may, or how many there are.
pub open spec fn first_overdue(tasks: Seq<TaskState>, timeout_ms: u64, now: u128, i: int) -> int
    decreases tasks.len() - i,
{
    if i >= tasks.len() || is_overdue(tasks[i], timeout_ms, now) {
        i
    } else {
        first_overdue(tasks, timeout_ms, now, i + 1)
    }
}

/// What happens in a phase of thumbnail making.
#[derive(Clone, Copy, PartialEq, Eq, Structural, Debug)]
pub enum PhaseEvent {
    /// A worker took this thumbnail up at this time.
    Started(usize, u128),
    /// The result of this thumbnail came.
    Result(usize),
    /// It is this late, in nanoseconds from the start of the phase.
    Time(u128),
    /// The workers are gone.
    Disconnected,
}

/// What a phase of thumbnail making does next.
#[derive(Clone, Copy, PartialEq, Eq, Structural, Debug)]
pub enum PhaseStep {
    /// Wait for the next event.
    Wait,
    /// Keep the result, then wait.
    Keep,
    /// Keep the result and tell how many are done, then wait.
    Report(usize),
    /// Keep the result and tell how many are done, then end: it was all of them.
    ReportAndEnd(usize),
    /// Leave the result out: its thumbnail was given up before.
    Late,
    /// Give up this thumbnail and let another worker take the place of the one that
    /// makes it.
    Skip(usize),
    /// End.
    End,
}

/// What an event makes of the thumbnails of a phase, and what is done about it.
pub open spec fn phase_after(tasks: Seq<TaskState>, timeout_ms: u64, event: PhaseEvent) -> (
    Seq<TaskState>,
    PhaseStep,
) {
    match event {
        PhaseEvent::Started(task, now) => if task < tasks.len() && tasks[task as int] is Waiting {
            (tasks.update(task as int, TaskState::Running(now)), PhaseStep::Wait)
        } else {
            (tasks, PhaseStep::Wait)
        },
        PhaseEvent::Result(task) => if task < tasks.len() && !is_settled(tasks[task as int]) {
            let next = tasks.update(task as int, TaskState::Done);
            let done = settled_count(next);
            (
                next,
                if done == next.len() {
                    PhaseStep::ReportAndEnd(done as usize)
                } else if done % 10 == 0 {
                    PhaseStep::Report(done as usize)
                } else {
                    PhaseStep::Keep
                },
            )
        } else {
            (tasks, PhaseStep::Late)
        },
        PhaseEvent::Time(now) => {
            let task = first_overdue(tasks, timeout_ms, now, 0);
            if task < tasks.len() {
                (tasks.update(task, TaskState::Skipped), PhaseStep::Skip(task as usize))
            } else {
                (tasks, PhaseStep::Wait)
            }
        },
        PhaseEvent::Disconnected => (
            tasks.map_values(
                |state: TaskState|
                    if is_settled(state) {
                        state
                    } else {
                        TaskState::Lost
                    },
            ),
            PhaseStep::End,
        ),
    }
}

proof fn lemma_settled_at_most(tasks: Seq<TaskState>)
    ensures
        settled_count(tasks) <= tasks.len(),
        settled_count(tasks) == tasks.len() <==> (forall|i: int|
            0 <= i < tasks.len() ==> is_settled(#[trigger] tasks[i])),
    decreases tasks.len(),
{
    if tasks.len() > 0 {
        let rest = tasks.drop_last();
        lemma_settled_at_most(rest);
        assert(tasks.last() == tasks[tasks.len() - 1]);
        assert forall|i: int| 0 <= i < rest.len() implies rest[i] == #[trigger] tasks[i] by {}
        if settled_count(tasks) == tasks.len() {
            assert forall|i: int| 0 <= i < tasks.len() implies is_settled(#[trigger] tasks[i]) by {
                if i < rest.len() {
                    assert(is_settled(rest[i]));
                }
            }
        } else if forall|i: int| 0 <= i < tasks.len() ==> is_settled(#[trigger] tasks[i]) {
            assert forall|i: int| 0 <= i < rest.len() implies is_settled(#[trigger] rest[i]) by {
                assert(is_settled(tasks[i]));
            }
        }
    }
}

proof fn lemma_settled_update(tasks: Seq<TaskState>, i: int, state: TaskState)
    requires
        0 <= i < tasks.len(),
        !is_settled(tasks[i]),
    ensures
        settled_count(tasks.update(i, state)) == settled_count(tasks) + if is_settled(state) {
            1nat
        } else {
            0
        },
    decreases tasks.len(),
{
    let next = tasks.update(i, state);
    if i == tasks.len() - 1 {
        assert(next.drop_last() =~= tasks.drop_last());
    } else {
        assert(next.drop_last() =~= tasks.drop_last().update(i, state));
        lemma_settled_update(tasks.drop_last(), i, state);
    }
}

proof fn lemma_first_overdue(tasks: Seq<TaskState>, timeout_ms: u64, now: u128, i: int)
    requires
        0 <= i <= tasks.len(),
    ensures
        i <= first_overdue(tasks, timeout_ms, now, i) <= tasks.len(),
        first_overdue(tasks, timeout_ms, now, i) < tasks.len() ==> is_overdue(
            tasks[first_overdue(tasks, timeout_ms, now, i)],
            timeout_ms,
            now,
        ),
        forall|k: int|
            i <= k < first_overdue(tasks, timeout_ms, now, i) ==> !is_overdue(
                #[trigger] tasks[k],
                timeout_ms,
                now,
            ),
    decreases tasks.len() - i,
{
    if i < tasks.len() && !is_overdue(tasks[i], timeout_ms, now) {
        lemma_first_overdue(tasks, timeout_ms, now, i + 1);
    }
}

/// Progress of a phase of thumbnail making.
pub struct PhaseProgress {
    pub tasks: Vec<TaskState>,
    /// How many of them nothing more is waited for.
    pub done: usize,
    /// How long a thumbnail may take; zero means for ever.
    pub timeout_ms: u64,
}

impl PhaseProgress {
    /// The number of thumbnails that are settled is right.
    pub open spec fn wf(self) -> bool {
        self.done == settled_count(self.tasks@)
    }

    /// The beginning of a phase: all thumbnails wait.
    pub fn new(total: usize, timeout_ms: u64) -> (r: Self)
        ensures
            r.wf(),
            r.tasks@ == Seq::new(total as nat, |i: int| TaskState::Waiting),
            r.done == 0,
            r.timeout_ms == timeout_ms,
    {
        let mut tasks: Vec<TaskState> = Vec::new();
        let mut i: usize = 0;
        while i < total
            invariant
                i <= total,
                tasks@ == Seq::new(i as nat, |i: int| TaskState::Waiting),
                settled_count(tasks@) == 0,
            decreases total - i,
        {
            let ghost before = tasks@;
            tasks.push(TaskState::Waiting);
            i = i + 1;
            assert(tasks@.drop_last() =~= before);
            assert(tasks@ =~= Seq::new(i as nat, |i: int| TaskState::Waiting));
        }
        PhaseProgress { tasks, done: 0, timeout_ms }
    }

    /// Whether every thumbnail is settled.
    pub fn is_over(&self) -> (r: bool)
        requires
            self.wf(),
        ensures
            r == (forall|i: int| 0 <= i < self.tasks@.len() ==> is_settled(#[trigger] self.tasks@[i])),
    {
        proof {
            lemma_settled_at_most(self.tasks@);
        }
        self.done == self.tasks.len()
    }

    /// Decides what to do on an event.
    pub fn on_event(&mut self, event: PhaseEvent) -> (r: PhaseStep)
        requires
            old(self).wf(),
        ensures
            final(self).wf(),
            final(self).timeout_ms == old(self).timeout_ms,
            (final(self).tasks@, r) == phase_after(old(self).tasks@, old(self).timeout_ms, event),
            final(self).tasks@.len() == old(self).tasks@.len(),
    {
        let ghost before = self.tasks@;
        match event {
            PhaseEvent::Started(task, now) => {
                if task < self.tasks.len() {
                    if let TaskState::Waiting = self.tasks[task] {
                        proof {
                            lemma_settled_update(before, task as int, TaskState::Running(now));
                        }
                        self.tasks.set(task, TaskState::Running(now));
                    }
                }
                PhaseStep::Wait
            },
            PhaseEvent::Result(task) => {
                if task >= self.tasks.len() {
                    return PhaseStep::Late;
                }
                match self.tasks[task] {
                    TaskState::Waiting | TaskState::Running(_) => {},
                    _ => return PhaseStep::Late,
                }
                self.tasks.set(task, TaskState::Done);
                proof {
                    lemma_settled_update(before, task as int, TaskState::Done);
                    lemma_settled_at_most(self.tasks@);
                }
                self.done = self.done + 1;
                if self.done == self.tasks.len() {
                    PhaseStep::ReportAndEnd(self.done)
                } else if self.done % 10 == 0 {
                    PhaseStep::Report(self.done)
                } else {
                    PhaseStep::Keep
                }
            },
            PhaseEvent::Time(now) => {
                let limit: u128 = self.timeout_ms as u128 * 1000000;
                let mut i: usize = 0;
                while i < self.tasks.len()
                    invariant
                        i <= self.tasks@.len(),
                        event == PhaseEvent::Time(now),
                        self.tasks@ == before,
                        before == old(self).tasks@,
                        self.done == old(self).done,
                        self.timeout_ms == old(self).timeout_ms,
                        old(self).wf(),
                        limit == self.timeout_ms * 1000000,
                        first_overdue(before, self.timeout_ms, now, 0) == first_overdue(
                            before,
                            self.timeout_ms,
                            now,
                            i as int,
                        ),
                    decreases self.tasks@.len() - i,
                {
                    if let TaskState::Running(since) = self.tasks[i] {
                        if self.timeout_ms > 0 && now > since && now - since > limit {
                            assert(is_overdue(before[i as int], self.timeout_ms, now));
                            self.tasks.set(i, TaskState::Skipped);
                            assert(self.tasks@ =~= before.update(i as int, TaskState::Skipped));
                            proof {
                                lemma_settled_update(before, i as int, TaskState::Skipped);
                                lemma_settled_at_most(self.tasks@);
                            }
                            self.done = self.done + 1;
                            return PhaseStep::Skip(i);
                        }
                    }
                    i = i + 1;
                }
                PhaseStep::Wait
            },
            PhaseEvent::Disconnected => {
                let ghost lost = phase_after(before, self.timeout_ms, event).0;
                let mut i: usize = 0;
                while i < self.tasks.len()
                    invariant
                        i <= self.tasks@.len(),
                        self.tasks@.len() == before.len(),
                        lost == phase_after(before, self.timeout_ms, PhaseEvent::Disconnected).0,
                        before == old(self).tasks@,
                        self.timeout_ms == old(self).timeout_ms,
                        forall|k: int| 0 <= k < i ==> #[trigger] self.tasks@[k] == lost[k],
                        forall|k: int|
                            i <= k < before.len() ==> #[trigger] self.tasks@[k] == before[k],
                    decreases self.tasks@.len() - i,
                {
                    match self.tasks[i] {
                        TaskState::Waiting | TaskState::Running(_) => {
                            self.tasks.set(i, TaskState::Lost);
                        },
                        _ => {},
                    }
                    i = i + 1;
                }
                assert(self.tasks@ =~= lost);
                proof {
                    lemma_settled_at_most(self.tasks@);
                }
                self.done = self.tasks.len();
                PhaseStep::End
            },
        }
    }
}

/// A thumbnail is given up only where it takes longer than it may; that settles one
/// more, and every other thumbnail stays as it is.
pub proof fn only_overdue_is_skipped(
    tasks: Seq<TaskState>,
    timeout_ms: u64,
    event: PhaseEvent,
    task: int,
)
    requires
        0 <= task < tasks.len() <= usize::MAX,
    ensures
        ({
            let (next, step) = phase_after(tasks, timeout_ms, event);
            &&& step == PhaseStep::Skip(task as usize) ==> {
                &&& event matches PhaseEvent::Time(now) && is_overdue(tasks[task], timeout_ms, now)
                &&& next == tasks.update(task, TaskState::Skipped)
                &&& settled_count(next) == settled_count(tasks) + 1
            }
            &&& next[task] is Skipped && !(tasks[task] is Skipped) ==> step == PhaseStep::Skip(
                task as usize,
            )
        }),
{
    if let PhaseEvent::Time(now) = event {
        lemma_first_overdue(tasks, timeout_ms, now, 0);
        let first = first_overdue(tasks, timeout_ms, now, 0);
        if first < tasks.len() {
            lemma_settled_update(tasks, first, TaskState::Skipped);
        }
    }
}

/// As long as a thumbnail takes longer than it may, telling the time gives one up.
pub proof fn overdue_is_skipped(tasks: Seq<TaskState>, timeout_ms: u64, now: u128, task: int)
    requires
        0 <= task < tasks.len() <= usize::MAX,
        is_overdue(tasks[task], timeout_ms, now),
    ensures
        phase_after(tasks, timeout_ms, PhaseEvent::Time(now)).1 is Skip,
{
    lemma_first_overdue(tasks, timeout_ms, now, 0);
}

/// A phase ends only when every thumbnail is settled.
pub proof fn phase_ends_when_all_are_settled(
    tasks: Seq<TaskState>,
    timeout_ms: u64,
    event: PhaseEvent,
    task: int,
)
    requires
        0 <= task < tasks.len(),
        ({
            let step = phase_after(tasks, timeout_ms, event).1;
            step is End || step is ReportAndEnd
        }),
    ensures
        is_settled(phase_after(tasks, timeout_ms, event).0[task]),
{
    lemma_settled_at_most(phase_after(tasks, timeout_ms, event).0);
}

/// The thumbnails of a phase after some events.
pub open spec fn phase_after_all(
    tasks: Seq<TaskState>,
    timeout_ms: u64,
    events: Seq<PhaseEvent>,
) -> Seq<TaskState>
    decreases events.len(),
{
    if events.len() == 0 {
        tasks
    } else {
        phase_after(
            phase_after_all(tasks, timeout_ms, events.drop_last()),
            timeout_ms,
            events.last(),
        ).0
    }
}

/// A thumbnail that does not itself take too long is still waited for, however long
/// others take and whether or not they are given up, and its result is kept.
pub proof fn others_do_not_cost_a_thumbnail(
    tasks: Seq<TaskState>,
    timeout_ms: u64,
    events: Seq<PhaseEvent>,
    task: int,
)
    requires
        0 <= task < tasks.len() <= usize::MAX,
        !is_settled(tasks[task]),
        forall|k: int|
            0 <= k < events.len() ==> match #[trigger] events[k] {
                PhaseEvent::Result(t) => t != task,
                PhaseEvent::Time(now) => !is_overdue(
                    phase_after_all(tasks, timeout_ms, events.take(k))[task],
                    timeout_ms,
                    now,
                ),
                PhaseEvent::Started(t, now) => true,
                PhaseEvent::Disconnected => false,
            },
    ensures
        ({
            let now = phase_after_all(tasks, timeout_ms, events);
            let (next, step) = phase_after(now, timeout_ms, PhaseEvent::Result(task as usize));
            &&& now.len() == tasks.len()
            &&& !is_settled(now[task])
            &&& next[task] is Done
            &&& step is Keep || step is Report || step is ReportAndEnd
        }),
    decreases events.len(),
{
    if events.len() > 0 {
        let rest = events.drop_last();
        assert forall|k: int| 0 <= k < rest.len() implies rest[k] == #[trigger] events[k]
            && rest.take(k) == events.take(k) by {
            assert(rest.take(k) =~= events.take(k));
        }
        others_do_not_cost_a_thumbnail(tasks, timeout_ms, rest, task);
        let last = events[events.len() - 1];
        assert(events.take(events.len() - 1) =~= rest);
        let before = phase_after_all(tasks, timeout_ms, rest);
        if let PhaseEvent::Time(now) = last {
            lemma_first_overdue(before, timeout_ms, now, 0);
        }
    }
}

/// The line that tells the progress of a phase.
pub fn progress_line(run: usize, phase: &str, done: usize, total: usize) -> (r: String)
    ensures
        r@ == "run="@ + decimal(run as nat) + " phase=thumbnails:"@ + phase@ + " progress="@
            + decimal(done as nat) + "/"@ + decimal(total as nat),
{
    let mut out = "run=".to_owned();
    push_number(&mut out, run as u128);
    out.push_str(" phase=thumbnails:");
    out.push_str(phase);
    out.push_str(" progress=");
    push_number(&mut out, done as u128);
    out.push_str("/");
    push_number(&mut out, total as u128);
    out
}

/// The line that tells that a phase took too long.
pub fn timeout_line(run: usize, phase: &str, remaining: usize, timeout_ms: u64) -> (r: String)
    ensures
        r@ == "run="@ + decimal(run as nat) + " phase=thumbnails:"@ + phase@
            + " timeout remaining="@ + decimal(remaining as nat) + " timeout_ms="@ + decimal(
            timeout_ms as nat,
        ),
{
    let mut out = "run=".to_owned();
    push_number(&mut out, run as u128);
    out.push_str(" phase=thumbnails:");
    out.push_str(phase);
    out.push_str(" timeout remaining=");
    push_number(&mut out, remaining as u128);
    out.push_str(" timeout_ms=");
    push_number(&mut out, timeout_ms as u128);
    out
}

/// How many items a simulated frame lays out.
pub open spec fn window_size(n: nat) -> nat {
    if n < 180 {
        n
    } else {
        180
    }
}

/// By how many items simulated frames are apart.
pub open spec fn window_step(n: nat) -> nat {
    if window_size(n) / 6 == 0 {
        1
    } else {
        window_size(n) / 6
    }
}

/// The ranges of items of simulated frames from `at` on: each starts a step
/// after the one before, and the first that reaches the end is the last.
pub open spec fn windows_from(n: nat, at: nat) -> Seq<(usize, usize)>
    decreases n - at,
{
    if at >= n {
        seq![]
    } else if at + window_size(n) >= n {
        seq![(at as usize, n as usize)]
    } else {
        seq![(at as usize, (at + window_size(n)) as usize)] + windows_from(n, at + window_step(n))
    }
}

/// The ranges of items that simulated scrolling lays out, frame by frame.
pub fn layout_windows(n: usize) -> (r: Vec<(usize, usize)>)
    ensures
        r@ == windows_from(n as nat, 0),
{
    let mut out: Vec<(usize, usize)> = Vec::new();
    let size: usize = if n < 180 {
        n
    } else {
        180
    };
    let step: usize = if size / 6 == 0 {
        1
    } else {
        size / 6
    };
    let mut at: usize = 0;
    assert(out@ + windows_from(n as nat, 0) =~= windows_from(n as nat, 0));
    while at < n
        invariant
            size == window_size(n as nat),
            step == window_step(n as nat),
            size > 0 || n == 0,
            step <= size || n == 0,
            at <= n,
            out@ + windows_from(n as nat, at as nat) == windows_from(n as nat, 0),
        decreases n - at,
    {
        let ghost rest = windows_from(n as nat, at as nat);
        if size >= n - at {
            let ghost before = out@;
            out.push((at, n));
            assert(out@ =~= before + rest);
            return out;
        }
        let ghost before = out@;
        out.push((at, at + size));
        assert(out@ + windows_from(n as nat, (at + step) as nat) =~= before + rest);
        at = at + step;
    }
    assert(out@ + windows_from(n as nat, at as nat) =~= out@);
    out
}

/// Simulated frames leave out no item: each starts at or before the end of the
/// one before it, and the last one reaches the last item.
pub proof fn windows_cover_everything(n: nat, at: nat)
    requires
        at < n <= usize::MAX,
    ensures
        ({
            let w = windows_from(n, at);
            &&& w.len() > 0
            &&& w[0].0 == at
            &&& w.last().1 == n
            &&& forall|i: int|
                0 <= i < w.len() - 1 ==> (#[trigger] w[i]).0 < w[i + 1].0 <= w[i].1 <= n
        }),
    decreases n - at,
{
    let w = windows_from(n, at);
    if at + window_size(n) < n {
        let next = at + window_step(n);
        windows_cover_everything(n, next);
        let rest = windows_from(n, next);
        assert(w.last() == rest.last());
        assert forall|i: int| 0 <= i < w.len() - 1 implies (#[trigger] w[i]).0 < w[i + 1].0
            <= w[i].1 <= n by {
            if i > 0 {
                assert(w[i] == rest[i - 1]);
                assert(w[i + 1] == rest[i]);
            } else {
                assert(w[1] == rest[0]);
            }
        }
    }
}

/// How long to wait between two samples of the graphics devices.
pub fn sample_interval_ms(sample_ms: u64) -> (r: u64)
    ensures
        r == if sample_ms < 20 {
            20
        } else {
            sample_ms
        },
{
    if sample_ms < 20 {
        20
    } else {
        sample_ms
    }
}

/// Puts together what the system and the NVIDIA tool say of the devices: gaps
/// are filled from the tool, and where the system knows no device those of the
/// tool are taken. Without any device there is nothing.
pub fn merge_devices(
    devices: Vec<GpuDeviceSnapshot>,
    smi: &Option<Vec<NvidiaSmiSample>>,
) -> (r: Option<Vec<GpuDeviceSnapshot>>)
    ensures
        devices@.len() > 0 ==> (r matches Some(out) && out@.len() == devices@.len() && match smi {
            Some(samples) => forall|i: int|
                0 <= i < out@.len() ==> fallback_applied(
                    devices@,
                    samples@,
                    i,
                    #[trigger] out@[i],
                ),
            None => out@ == devices@,
        }),
        devices@.len() == 0 ==> match smi {
            Some(samples) => if samples@.len() == 0 {
                r is None
            } else {
                r matches Some(out) && out@.len() == samples@.len() && forall|i: int|
                    0 <= i < out@.len() ==> {
                        &&& (#[trigger] out@[i]).card@ == "nvidia"@ + decimal(i as nat)
                        &&& out@[i].vendor@ == "0x10de"@
                        &&& out@[i].busy_percent == Some(samples@[i].gpu_util_percent)
                        &&& out@[i].vram_used_bytes == Some(samples@[i].memory_used_bytes)
                        &&& out@[i].vram_total_bytes == Some(samples@[i].memory_total_bytes)
                    }
            },
            None => r is None,
        },
{
    match smi {
        Some(samples) => {
            if devices.len() > 0 {
                Some(apply_nvidia_smi_fallback(devices, samples))
            } else if samples.len() > 0 {
                Some(nvidia_samples_as_devices(samples))
            } else {
                None
            }
        },
        None => if devices.len() > 0 {
            Some(devices)
        } else {
            None
        },
    }
}

/// What a scan found, in numbers.
#[derive(Clone, Copy, PartialEq, Eq, Structural, Debug)]
pub struct ScanCounts {
    pub total_files: usize,
    pub new_items: usize,
    pub cached_items: usize,
    pub error_count: usize,
}

/// What laying out measured.
#[derive(Debug)]
pub struct LayoutMetrics {
    pub rows: usize,
    pub total_ms: u128,
    pub frames_simulated: usize,
    pub frame_p50_ms: Double,
    pub frame_p95_ms: Double,
    pub frames_over_16ms: usize,
    pub frames_over_33ms: usize,
}

/// What making thumbnails measured.
#[derive(Debug)]
pub struct ThumbMetrics {
    pub images_total: usize,
    pub images_selected: usize,
    pub images_visible: usize,
    pub counts: ThumbCounts,
    pub total_ms: u128,
    pub time_to_visible_ms: u128,
    pub end_to_end_avg_ms: Double,
    pub end_to_end_p95_ms: Double,
    pub queue_wait_avg_ms: Double,
    pub queue_wait_p95_ms: Double,
    pub worker_avg_ms: Double,
    pub worker_p95_ms: Double,
    pub decode_avg_ms: Double,
    pub decode_p95_ms: Double,
    pub resize_avg_ms: Double,
    pub resize_p95_ms: Double,
    pub encode_avg_ms: Double,
    pub encode_p95_ms: Double,
    pub offload_available: bool,
}

/// What a run measured as a whole.
#[derive(Debug)]
pub struct RunMetrics {
    pub elapsed_ms: u128,
    pub files_per_sec: Double,
    pub load_items_ms: u128,
    pub loaded_items: usize,
}

/// The record of one run, counted from one.
pub fn assemble_run(
    run_index: usize,
    args: &BenchmarkArgs,
    scan: ScanCounts,
    run: RunMetrics,
    layout: LayoutMetrics,
    thumbs: ThumbMetrics,
    gpu: Option<GpuRunSummary>,
) -> (r: BenchmarkRun)
    requires
        run_index < usize::MAX,
    ensures
        r.run_index == run_index + 1,
        r.elapsed_ms == run.elapsed_ms,
        r.total_files == scan.total_files,
        r.new_items == scan.new_items,
        r.cached_items == scan.cached_items,
        r.error_count == scan.error_count,
        r.files_per_sec == run.files_per_sec,
        r.load_items_ms == run.load_items_ms,
        r.loaded_items == run.loaded_items,
        r.layout_rows == layout.rows,
        r.layout_total_ms == layout.total_ms,
        r.layout_frames_simulated == layout.frames_simulated,
        r.layout_frame_p50_ms == layout.frame_p50_ms,
        r.layout_frame_p95_ms == layout.frame_p95_ms,
        r.layout_frames_over_16ms == layout.frames_over_16ms,
        r.layout_frames_over_33ms == layout.frames_over_33ms,
        r.thumb_images_total == thumbs.images_total,
        r.thumb_images_selected == thumbs.images_selected,
        r.thumb_images_visible == thumbs.images_visible,
        r.thumb_images_generated == thumbs.counts.generated,
        r.thumb_images_skipped_cached == thumbs.counts.skipped_cached,
        r.thumb_images_failed == thumbs.counts.failed,
        r.thumb_total_ms == thumbs.total_ms,
        r.thumb_time_to_visible_ms == thumbs.time_to_visible_ms,
        r.thumb_end_to_end_avg_ms == thumbs.end_to_end_avg_ms,
        r.thumb_end_to_end_p95_ms == thumbs.end_to_end_p95_ms,
        r.thumb_queue_wait_avg_ms == thumbs.queue_wait_avg_ms,
        r.thumb_queue_wait_p95_ms == thumbs.queue_wait_p95_ms,
        r.thumb_worker_avg_ms == thumbs.worker_avg_ms,
        r.thumb_worker_p95_ms == thumbs.worker_p95_ms,
        r.thumb_decode_avg_ms == thumbs.decode_avg_ms,
        r.thumb_decode_p95_ms == thumbs.decode_p95_ms,
        r.thumb_resize_avg_ms == thumbs.resize_avg_ms,
        r.thumb_resize_p95_ms == thumbs.resize_p95_ms,
        r.thumb_encode_avg_ms == thumbs.encode_avg_ms,
        r.thumb_encode_p95_ms == thumbs.encode_p95_ms,
        r.thumb_workers == args.thumb_workers,
        r.thumb_resize_mode@ == mode_name(
            if args.thumb_fast_resize {
                ResizeMode::Fast
            } else {
                ResizeMode::Quality
            },
        ),
        r.thumb_nv_offload_enabled == args.thumb_nv_offload,
        r.thumb_nv_offload_available == thumbs.offload_available,
        r.thumb_nv_offload_attempted == thumbs.counts.offload_attempted,
        r.thumb_nv_offload_used == thumbs.counts.offload_used,
        r.gpu == gpu,
{
    BenchmarkRun {
        run_index: run_index + 1,
        elapsed_ms: run.elapsed_ms,
        total_files: scan.total_files,
        new_items: scan.new_items,
        cached_items: scan.cached_items,
        error_count: scan.error_count,
        files_per_sec: run.files_per_sec,
        load_items_ms: run.load_items_ms,
        loaded_items: run.loaded_items,
        layout_rows: layout.rows,
        layout_total_ms: layout.total_ms,
        layout_frames_simulated: layout.frames_simulated,
        layout_frame_p50_ms: layout.frame_p50_ms,
        layout_frame_p95_ms: layout.frame_p95_ms,
        layout_frames_over_16ms: layout.frames_over_16ms,
        layout_frames_over_33ms: layout.frames_over_33ms,
        thumb_images_total: thumbs.images_total,
        thumb_images_selected: thumbs.images_selected,
        thumb_images_visible: thumbs.images_visible,
        thumb_images_generated: thumbs.counts.generated,
        thumb_images_skipped_cached: thumbs.counts.skipped_cached,
        thumb_images_failed: thumbs.counts.failed,
        thumb_total_ms: thumbs.total_ms,
        thumb_time_to_visible_ms: thumbs.time_to_visible_ms,
        thumb_end_to_end_avg_ms: thumbs.end_to_end_avg_ms,
        thumb_end_to_end_p95_ms: thumbs.end_to_end_p95_ms,
        thumb_queue_wait_avg_ms: thumbs.queue_wait_avg_ms,
        thumb_queue_wait_p95_ms: thumbs.queue_wait_p95_ms,
        thumb_worker_avg_ms: thumbs.worker_avg_ms,
        thumb_worker_p95_ms: thumbs.worker_p95_ms,
        thumb_decode_avg_ms: thumbs.decode_avg_ms,
        thumb_decode_p95_ms: thumbs.decode_p95_ms,
        thumb_resize_avg_ms: thumbs.resize_avg_ms,
        thumb_resize_p95_ms: thumbs.resize_p95_ms,
        thumb_encode_avg_ms: thumbs.encode_avg_ms,
        thumb_encode_p95_ms: thumbs.encode_p95_ms,
        thumb_workers: args.thumb_workers,
        thumb_resize_mode: ResizeMode::from_flag(args.thumb_fast_resize).name(),
        thumb_nv_offload_enabled: args.thumb_nv_offload,
        thumb_nv_offload_available: thumbs.offload_available,
        thumb_nv_offload_attempted: thumbs.counts.offload_attempted,
        thumb_nv_offload_used: thumbs.counts.offload_used,
        gpu,
    }
}

/// Whether `m` is the least elapsed time of some runs, or zero without runs.
pub open spec fn is_least_elapsed(m: u128, runs: Seq<BenchmarkRun>) -> bool {
    if runs.len() == 0 {
        m == 0
    } else {
        &&& exists|i: int| 0 <= i < runs.len() && m == (#[trigger] runs[i]).elapsed_ms
        &&& forall|i: int| 0 <= i < runs.len() ==> m <= (#[trigger] runs[i]).elapsed_ms
    }
}

/// Whether `m` is the greatest elapsed time of some runs, or zero without runs.
pub open spec fn is_greatest_elapsed(m: u128, runs: Seq<BenchmarkRun>) -> bool {
    if runs.len() == 0 {
        m == 0
    } else {
        &&& exists|i: int| 0 <= i < runs.len() && m == (#[trigger] runs[i]).elapsed_ms
        &&& forall|i: int| 0 <= i < runs.len() ==> m >= (#[trigger] runs[i]).elapsed_ms
    }
}

/// The elapsed time of some runs together.
pub open spec fn elapsed_sum(runs: Seq<BenchmarkRun>) -> nat
    decreases runs.len(),
{
    if runs.len() == 0 {
        0
    } else {
        elapsed_sum(runs.drop_last()) + runs.last().elapsed_ms as nat
    }
}

proof fn lemma_elapsed_sum_grows(runs: Seq<BenchmarkRun>, k: int)
    requires
        0 <= k <= runs.len(),
    ensures
        elapsed_sum(runs.take(k)) <= elapsed_sum(runs),
    decreases runs.len() - k,
{
    if k == runs.len() {
        assert(runs.take(k) =~= runs);
    } else {
        assert(runs.take(k + 1).drop_last() =~= runs.take(k));
        lemma_elapsed_sum_grows(runs, k + 1);
    }
}

/// The elapsed time of some runs together, unless it is too great a number.
pub fn total_elapsed(runs: &Vec<BenchmarkRun>) -> (r: Option<u128>)
    ensures
        match r {
            Some(n) => n == elapsed_sum(runs@),
            None => elapsed_sum(runs@) > u128::MAX,
        },
{
    let mut sum: u128 = 0;
    let mut i: usize = 0;
    while i < runs.len()
        invariant
            i <= runs@.len(),
            sum == elapsed_sum(runs@.take(i as int)),
        decreases runs@.len() - i,
    {
        assert(runs@.take(i + 1).drop_last() =~= runs@.take(i as int));
        proof {
            lemma_elapsed_sum_grows(runs@, i + 1);
        }
        match sum.checked_add(runs[i].elapsed_ms) {
            Some(s) => {
                sum = s;
            },
            None => {
                return None;
            },
        }
        i = i + 1;
    }
    assert(runs@.take(runs@.len() as int) =~= runs@);
    Some(sum)
}

/// What some runs measured, one by one.
pub open spec fn measured(runs: Seq<BenchmarkRun>, what: spec_fn(BenchmarkRun) -> Double) -> Seq<
    Double,
> {
    Seq::new(runs.len(), |i: int| what(runs[i]))
}

/// Sums up the runs of a benchmark.
pub fn build_aggregate(runs: &Vec<BenchmarkRun>) -> (r: BenchmarkAggregate)
    requires
        elapsed_sum(runs@) <= u128::MAX,
    ensures
        r.runs == runs@.len(),
        r.avg_elapsed_ms == if runs@.len() == 0 {
            Double { bits: ZERO }
        } else {
            of_whole(elapsed_sum(runs@)).quotient(of_whole(runs@.len()))
        },
        is_least_elapsed(r.min_elapsed_ms, runs@),
        is_greatest_elapsed(r.max_elapsed_ms, runs@),
        r.avg_files_per_sec == mean(measured(runs@, |x: BenchmarkRun| x.files_per_sec)),
        r.avg_layout_p95_ms == mean(measured(runs@, |x: BenchmarkRun| x.layout_frame_p95_ms)),
        r.avg_thumb_p95_ms == mean(measured(runs@, |x: BenchmarkRun| x.thumb_end_to_end_p95_ms)),
        r.avg_thumb_visible_ms == mean(
            measured(runs@, |x: BenchmarkRun| of_whole(x.thumb_time_to_visible_ms as nat)),
        ),
{
    let sum: u128 = match total_elapsed(runs) {
        Some(n) => n,
        None => 0,
    };
    let mut files: Vec<Double> = Vec::new();
    let mut layout: Vec<Double> = Vec::new();
    let mut thumbs: Vec<Double> = Vec::new();
    let mut visible: Vec<Double> = Vec::new();
    let mut least: u128 = 0;
    let mut greatest: u128 = 0;
    let mut i: usize = 0;
    while i < runs.len()
        invariant
            i <= runs@.len(),
            is_least_elapsed(least, runs@.take(i as int)),
            is_greatest_elapsed(greatest, runs@.take(i as int)),
            files@ =~= measured(runs@.take(i as int), |x: BenchmarkRun| x.files_per_sec),
            layout@ =~= measured(runs@.take(i as int), |x: BenchmarkRun| x.layout_frame_p95_ms),
            thumbs@ =~= measured(
                runs@.take(i as int),
                |x: BenchmarkRun| x.thumb_end_to_end_p95_ms,
            ),
            visible@ =~= measured(
                runs@.take(i as int),
                |x: BenchmarkRun| of_whole(x.thumb_time_to_visible_ms as nat),
            ),
        decreases runs@.len() - i,
    {
        files.push(runs[i].files_per_sec);
        layout.push(runs[i].layout_frame_p95_ms);
        thumbs.push(runs[i].thumb_end_to_end_p95_ms);
        visible.push(Double::from_wide(runs[i].thumb_time_to_visible_ms));
        let ms: u128 = runs[i].elapsed_ms;
        let ghost before = runs@.take(i as int);
        let ghost after = runs@.take(i + 1);
        let ghost old_least = least;
        let ghost old_greatest = greatest;
        if i == 0 || ms < least {
            least = ms;
        }
        if i == 0 || ms > greatest {
            greatest = ms;
        }
        proof {
            assert(after[i as int].elapsed_ms == ms);
            assert forall|k: int| 0 <= k < after.len() implies least <= (
            #[trigger] after[k]).elapsed_ms && greatest >= after[k].elapsed_ms by {
                if k < i {
                    assert(after[k] == before[k]);
                }
            }
            if i > 0 {
                let a = choose|a: int|
                    0 <= a < before.len() && old_least == (#[trigger] before[a]).elapsed_ms;
                assert(after[a] == before[a]);
                let b = choose|b: int|
                    0 <= b < before.len() && old_greatest == (#[trigger] before[b]).elapsed_ms;
                assert(after[b] == before[b]);
            }
        }
        i = i + 1;
    }
    assert(runs@.take(runs@.len() as int) =~= runs@);
    BenchmarkAggregate {
        runs: runs.len(),
        avg_elapsed_ms: if runs.len() == 0 {
            Double { bits: ZERO }
        } else {
            Double::from_wide(sum).over(Double::from_whole(runs.len() as u64))
        },
        min_elapsed_ms: least,
        max_elapsed_ms: greatest,
        avg_files_per_sec: average(&files),
        avg_layout_p95_ms: average(&layout),
        avg_thumb_p95_ms: average(&thumbs),
        avg_thumb_visible_ms: average(&visible),
    }
}

/// The report of a benchmark.
pub fn assemble_report(
    args: &BenchmarkArgs,
    generated_at_unix_ms: u128,
    db_path: String,
    thumbs_dir: String,
    results: Vec<BenchmarkRun>,
    aggregate: BenchmarkAggregate,
) -> (r: BenchmarkReport)
    ensures
        r.schema_version == 4,
        r.generated_at_unix_ms == generated_at_unix_ms,
        r.benchmark@ == "scan_layout_thumb_staged_gpu_v4"@,
        r.path@ == args.path@,
        r.runs_requested == args.runs,
        r.cold_cache == args.cold_cache,
        r.thumb_limit == args.thumb_limit,
        r.thumb_timeout_ms == args.thumb_timeout_ms,
        r.thumb_workers == args.thumb_workers,
        r.thumb_visible_count == args.thumb_visible_count,
        r.thumb_fast_resize == args.thumb_fast_resize,
        r.thumb_nv_offload == args.thumb_nv_offload,
        r.gpu_telemetry_enabled == args.gpu_telemetry,
        r.gpu_sample_ms == args.gpu_sample_ms,
        r.db_path@ == db_path@,
        r.thumbs_dir@ == thumbs_dir@,
        r.results == results,
        r.aggregate == aggregate,
{
    BenchmarkReport {
        schema_version: 4,
        generated_at_unix_ms,
        benchmark: "scan_layout_thumb_staged_gpu_v4".to_owned(),
        path: args.path.clone(),
        runs_requested: args.runs,
        cold_cache: args.cold_cache,
        thumb_limit: args.thumb_limit,
        thumb_timeout_ms: args.thumb_timeout_ms,
        thumb_workers: args.thumb_workers,
        thumb_visible_count: args.thumb_visible_count,
        thumb_fast_resize: args.thumb_fast_resize,
        thumb_nv_offload: args.thumb_nv_offload,
        gpu_telemetry_enabled: args.gpu_telemetry,
        gpu_sample_ms: args.gpu_sample_ms,
        db_path,
        thumbs_dir,
        results,
        aggregate,
    }
}

/// Thumbnails are planned for the items whose names say that they are pictures, and for no
/// others, in the order of the items.
pub proof fn thumbnails_are_planned_for_pictures(items: Seq<MediaItem>, n: int)
    requires
        0 <= n <= items.len() <= usize::MAX,
    ensures
        forall|k: usize| #[trigger]
            candidates(items, n).contains(k) <==> k < n && format_of_path(
                items[k as int].path@,
            ) is Some,
        forall|i: int, j: int|
            0 <= i < j < candidates(items, n).len() ==> candidates(items, n)[i] < candidates(
                items,
                n,
            )[j],
        candidates(items, n).len() <= n,
    decreases n,
{
    if n > 0 {
        thumbnails_are_planned_for_pictures(items, n - 1);
        let before = candidates(items, n - 1);
        let now = candidates(items, n);
        let last = (n - 1) as usize;
        assert forall|k: usize| #[trigger] now.contains(k) <==> k < n && format_of_path(
            items[k as int].path@,
        ) is Some by {
            if format_of_path(items[n - 1].path@) is Some {
                assert(now[before.len() as int] == last);
                if before.contains(k) {
                    let i = before.index_of(k);
                    assert(now[i] == k);
                }
                if now.contains(k) && k != last {
                    let i = now.index_of(k);
                    assert(before[i] == k);
                }
                assert(before.contains(k) <==> k < n - 1 && format_of_path(
                    items[k as int].path@,
                ) is Some);
            } else {
                assert(before.contains(k) <==> k < n - 1 && format_of_path(
                    items[k as int].path@,
                ) is Some);
            }
        }
        assert forall|i: int, j: int| 0 <= i < j < now.len() implies now[i] < now[j] by {
            if j == before.len() {
                assert(before.contains(before[i]));
            }
        }
    } else {
        assert forall|k: usize| !#[trigger] candidates(items, n).contains(k) by {
            assert(candidates(items, n).len() == 0);
        }
    }
}

/// No more are chosen than there are and than the limit says, where there is one, and as
/// many as that.
pub proof fn limit_is_kept_and_used(total: nat, limit: nat)
    ensures
        selected_count(total, limit) <= total,
        limit > 0 ==> selected_count(total, limit) <= limit,
        selected_count(total, limit) == total || (limit > 0 && selected_count(total, limit)
            == limit),
{
}

/// What is counted is how many thumbnails meet the condition.
pub proof fn counts_are_of_those_that_meet(
    outcomes: Seq<ThumbOutcome>,
    condition: spec_fn(ThumbOutcome) -> bool,
)
    ensures
        count_where(outcomes, condition) == outcomes.filter(condition).len(),
    decreases outcomes.len(),
{
    reveal(Seq::filter);
    if outcomes.len() > 0 {
        counts_are_of_those_that_meet(outcomes.drop_last(), condition);
    }
}

/// A thumbnail is made where it came about and was not found, found where it was in the
/// cache, and has failed where it did not come about.
pub proof fn outcomes_are_told_apart(o: ThumbOutcome)
    ensures
        was_generated()(o) <==> o.success && !o.cache_hit,
        was_cached()(o) <==> o.cache_hit,
        has_failed()(o) <==> !o.success,
        was_attempted()(o) <==> o.offload_attempted,
        was_offloaded()(o) <==> o.offload_used,
{
}

/// A thumbnail is overdue once it has been worked on for longer than the time limit, in
/// milliseconds, and never without a limit or before work on it began.
pub proof fn only_long_work_is_overdue(since: u128, timeout_ms: u64, elapsed: u128, state: TaskState)
    requires
        since + elapsed <= u128::MAX,
    ensures
        is_overdue(TaskState::Running(since), timeout_ms, (since + elapsed) as u128)
            <==> timeout_ms > 0 && elapsed > timeout_ms * 1_000_000,
        !(state is Running) ==> !is_overdue(state, timeout_ms, since),
        is_settled(state) <==> state is Done || state is Skipped || state is Lost,
{
}

/// The tasks that are done, skipped or lost are counted as settled, and no others.
pub proof fn settled_tasks_are_counted(tasks: Seq<TaskState>)
    ensures
        settled_count(tasks) == tasks.filter(
            |state: TaskState| state is Done || state is Skipped || state is Lost,
        ).len(),
    decreases tasks.len(),
{
    reveal(Seq::filter);
    if tasks.len() > 0 {
        settled_tasks_are_counted(tasks.drop_last());
    }
}

/// Work that begins is timed from then on, once; a result settles its own thumbnail and no
/// other; one that comes after its thumbnail was settled is of no use; and where the
/// workers are gone, what is not settled is lost.
pub proof fn events_concern_their_thumbnail(
    tasks: Seq<TaskState>,
    timeout_ms: u64,
    task: usize,
    now: u128,
    other: int,
)
    requires
        task < tasks.len() <= usize::MAX,
        0 <= other < tasks.len(),
    ensures
        ({
            let (next, step) = phase_after(tasks, timeout_ms, PhaseEvent::Started(task, now));
            &&& step is Wait
            &&& tasks[task as int] is Waiting ==> next[task as int] == TaskState::Running(now)
            &&& !(tasks[task as int] is Waiting) ==> next == tasks
            &&& other != task ==> next[other] == tasks[other]
        }),
        ({
            let (next, step) = phase_after(tasks, timeout_ms, PhaseEvent::Result(task));
            let open = tasks[task as int] is Waiting || tasks[task as int] is Running;
            &&& open ==> next[task as int] is Done && !(step is Late)
            &&& !open ==> next == tasks && step is Late
            &&& other != task ==> next[other] == tasks[other]
        }),
        ({
            let (next, step) = phase_after(tasks, timeout_ms, PhaseEvent::Disconnected);
            &&& step is End
            &&& next.len() == tasks.len()
            &&& next[other] == if tasks[other] is Waiting || tasks[other] is Running {
                TaskState::Lost
            } else {
                tasks[other]
            }
        }),
{
}

/// Progress is told at every tenth thumbnail that is settled, and at the last.
pub proof fn progress_is_told_at_tens(tasks: Seq<TaskState>, timeout_ms: u64, task: usize)
    requires
        task < tasks.len() <= usize::MAX,
        tasks[task as int] is Waiting || tasks[task as int] is Running,
    ensures
        ({
            let step = phase_after(tasks, timeout_ms, PhaseEvent::Result(task)).1;
            let done = settled_count(tasks) + 1;
            &&& done == tasks.len() ==> step == PhaseStep::ReportAndEnd(done as usize)
            &&& done < tasks.len() && done % 10 == 0 ==> step == PhaseStep::Report(done as usize)
            &&& done < tasks.len() && done % 10 != 0 ==> step is Keep
        }),
{
    lemma_settled_update(tasks, task as int, TaskState::Done);
    lemma_settled_at_most(tasks.update(task as int, TaskState::Done));
}

/// All windows but the last hold 180 items, or all there are, and each begins a sixth of
/// that further on; the last is the first to get to the end.
pub proof fn windows_are_of_one_size(n: nat, at: nat)
    requires
        at < n <= usize::MAX,
    ensures
        ({
            let w = windows_from(n, at);
            &&& forall|i: int|
                0 <= i < w.len() - 1 ==> {
                    &&& n > 180
                    &&& (#[trigger] w[i]).1 - w[i].0 == 180
                    &&& w[i].0 == at + 30 * i
                    &&& w[i].1 < n
                }
            &&& w.last().0 == at + (if n >= 180 { 30 * (w.len() - 1) } else { 0 })
            &&& n <= w.last().0 + 180
        }),
    decreases n - at,
{
    let w = windows_from(n, at);
    if at + window_size(n) >= n {
        assert(w.len() == 1 && w[0] == (at as usize, n as usize));
    } else {
        assert(n > 180);
        assert(window_step(n) == 30);
        let rest = windows_from(n, at + 30);
        windows_are_of_one_size(n, at + 30);
        windows_cover_everything(n, at + 30);
        assert(w == seq![(at as usize, (at + 180) as usize)] + rest);
        assert forall|i: int| 0 <= i < w.len() - 1 implies {
            &&& (#[trigger] w[i]).1 - w[i].0 == 180
            &&& w[i].0 == at + 30 * i
            &&& w[i].1 < n
        } by {
            if i > 0 {
                assert(w[i] == rest[i - 1]);
            }
        }
        assert(w.last() == rest.last());
    }
}

/// The time of all runs is the sum of the times of any two parts of them, and that of one
/// run is its own.
pub proof fn elapsed_times_add_up(first: Seq<BenchmarkRun>, second: Seq<BenchmarkRun>, run: BenchmarkRun)
    ensures
        elapsed_sum(first + second) == elapsed_sum(first) + elapsed_sum(second),
        elapsed_sum(seq![run]) == run.elapsed_ms,
    decreases second.len(),
{
    assert(seq![run].drop_last() =~= Seq::<BenchmarkRun>::empty());
    assert(elapsed_sum(Seq::<BenchmarkRun>::empty()) == 0);
    if second.len() == 0 {
        assert(first + second =~= first);
    } else {
        assert((first + second).drop_last() =~= first + second.drop_last());
        elapsed_times_add_up(first, second.drop_last(), run);
    }
}

} // verus!
