//! What the phases of a benchmark run measured, worked out of single times.
use vstd::arithmetic::power2::{
    lemma2_to64, lemma2_to64_rest, lemma_pow2_adds, lemma_pow2_pos, pow2,
};
use vstd::prelude::*;

use crate::bench::plan::{
    count_outcomes, count_where, has_failed, was_attempted, was_cached, was_generated,
    was_offloaded, LayoutMetrics, ThumbMetrics, ThumbOutcome,
};
use crate::bench::stats::{average, mean, percentile, percentile_ms, MAX_COUNT};
use crate::double::{lemma_units_of, of_whole, units, whole_is_exact, Double, ZERO};
use crate::precision::{distance, quotient_of_some_size_is_near};

verus! {

/// The bits of the middle percentile.
pub const MEDIAN: u64 = 0x3fe0_0000_0000_0000;

/// The bits of the high percentile, 95 of 100.
pub const HIGH: u64 = 0x3fee_6666_6666_6666;

/// The bits of the milliseconds of a frame at sixty frames a second, 16.67.
pub const FRAME_AT_60: u64 = 0x4030_ab85_1eb8_51ec;

/// The bits of the milliseconds of a frame at thirty frames a second, 33.33.
pub const FRAME_AT_30: u64 = 0x4040_aa3d_70a3_d70a;

/// How many files a second a scan takes in; all of them if no time went by.
pub fn files_per_second(total_files: usize, seconds: Double) -> (r: Double)
    ensures
        r == if (Double { bits: ZERO }.less(seconds)) {
            of_whole(total_files as nat).quotient(seconds)
        } else {
            of_whole(total_files as nat)
        },
        total_files < 0x20_0000_0000_0000 && (Double { bits: ZERO }.less(seconds))
            && !seconds.infinite() && total_files * pow2(1074) <= pow2(20) * seconds.value()
            ==> distance(
            r.value() * seconds.value(),
            total_files * pow2(1074) * pow2(1074),
        ) <= pow2(1040) * seconds.value(),
{
    let files = Double::from_whole(total_files as u64);
    if (Double { bits: ZERO }).is_less(seconds) {
        proof {
            if total_files < 0x20_0000_0000_0000 && !seconds.infinite() && total_files * pow2(1074)
                <= pow2(20) * seconds.value() {
                lemma_files_by_seconds(total_files as nat, seconds);
            }
        }
        files.over(seconds)
    } else {
        files
    }
}

/// How many times are longer than a limit.
pub open spec fn count_longer(times: Seq<Double>, limit: Double) -> nat
    decreases times.len(),
{
    if times.len() == 0 {
        0
    } else {
        count_longer(times.drop_last(), limit) + if limit.less(times.last()) {
            1nat
        } else {
            0nat
        }
    }
}

fn how_many_longer(times: &Vec<Double>, limit: Double) -> (r: usize)
    ensures
        r == count_longer(times@, limit),
{
    let mut n: usize = 0;
    let mut i: usize = 0;
    while i < times.len()
        invariant
            n <= i <= times@.len(),
            n == count_longer(times@.take(i as int), limit),
        decreases times@.len() - i,
    {
        assert(times@.take(i + 1).drop_last() =~= times@.take(i as int));
        if limit.is_less(times[i]) {
            n = n + 1;
        }
        i = i + 1;
    }
    assert(times@.take(times@.len() as int) =~= times@);
    n
}

/// What laying out measured: the rows of the whole layout and the time it took, and
/// the times of the frames that were laid out in turn.
pub fn layout_metrics(rows: usize, total_ms: u128, frames: &Vec<Double>) -> (r: LayoutMetrics)
    requires
        frames@.len() <= MAX_COUNT,
    ensures
        r.rows == rows,
        r.total_ms == total_ms,
        r.frames_simulated == frames@.len(),
        r.frame_p50_ms == percentile(frames@, Double { bits: MEDIAN }),
        r.frame_p95_ms == percentile(frames@, Double { bits: HIGH }),
        r.frames_over_16ms == count_longer(frames@, Double { bits: FRAME_AT_60 }),
        r.frames_over_33ms == count_longer(frames@, Double { bits: FRAME_AT_30 }),
{
    LayoutMetrics {
        rows,
        total_ms,
        frames_simulated: frames.len(),
        frame_p50_ms: percentile_ms(frames, Double { bits: MEDIAN }),
        frame_p95_ms: percentile_ms(frames, Double { bits: HIGH }),
        frames_over_16ms: how_many_longer(frames, Double { bits: FRAME_AT_60 }),
        frames_over_33ms: how_many_longer(frames, Double { bits: FRAME_AT_30 }),
    }
}

/// What became of one thumbnail and how long its steps took, in milliseconds.
#[derive(Clone, Copy, PartialEq, Eq, Structural, Debug)]
pub struct ThumbResult {
    pub outcome: ThumbOutcome,
    pub queue_wait_ms: Double,
    pub worker_ms: Double,
    pub end_to_end_ms: Double,
    pub decode_ms: Double,
    pub resize_ms: Double,
    pub encode_ms: Double,
}

/// What became of some thumbnails.
pub open spec fn outcomes_of(results: Seq<ThumbResult>) -> Seq<ThumbOutcome> {
    Seq::new(results.len(), |i: int| results[i].outcome)
}

/// One of the times of all results.
pub open spec fn times_of(results: Seq<ThumbResult>, what: spec_fn(ThumbResult) -> Double) -> Seq<
    Double,
> {
    Seq::new(results.len(), |i: int| what(results[i]))
}

/// The results of thumbnails that were made, not found.
pub open spec fn generated_of(results: Seq<ThumbResult>) -> Seq<ThumbResult>
    decreases results.len(),
{
    if results.len() == 0 {
        seq![]
    } else if results.last().outcome.success && !results.last().outcome.cache_hit {
        generated_of(results.drop_last()).push(results.last())
    } else {
        generated_of(results.drop_last())
    }
}

proof fn lemma_generated_are_some(results: Seq<ThumbResult>)
    ensures
        generated_of(results).len() <= results.len(),
    decreases results.len(),
{
    if results.len() > 0 {
        lemma_generated_are_some(results.drop_last());
    }
}

/// Which times of a result.
#[derive(Clone, Copy, PartialEq, Eq, Structural, Debug)]
pub enum Stage {
    QueueWait,
    Worker,
    EndToEnd,
    Decode,
    Resize,
    Encode,
}

/// One time of a result.
pub open spec fn stage_time(stage: Stage) -> spec_fn(ThumbResult) -> Double {
    |r: ThumbResult|
        match stage {
            Stage::QueueWait => r.queue_wait_ms,
            Stage::Worker => r.worker_ms,
            Stage::EndToEnd => r.end_to_end_ms,
            Stage::Decode => r.decode_ms,
            Stage::Resize => r.resize_ms,
            Stage::Encode => r.encode_ms,
        }
}

fn stage_times(results: &Vec<ThumbResult>, stage: Stage) -> (r: Vec<Double>)
    ensures
        r@ == times_of(results@, stage_time(stage)),
{
    let mut out: Vec<Double> = Vec::new();
    let mut i: usize = 0;
    while i < results.len()
        invariant
            i <= results@.len(),
            out@ =~= times_of(results@.take(i as int), stage_time(stage)),
        decreases results@.len() - i,
    {
        let one = &results[i];
        out.push(
            match stage {
                Stage::QueueWait => one.queue_wait_ms,
                Stage::Worker => one.worker_ms,
                Stage::EndToEnd => one.end_to_end_ms,
                Stage::Decode => one.decode_ms,
                Stage::Resize => one.resize_ms,
                Stage::Encode => one.encode_ms,
            },
        );
        i = i + 1;
    }
    assert(results@.take(results@.len() as int) =~= results@);
    out
}

fn outcomes(results: &Vec<ThumbResult>) -> (r: Vec<ThumbOutcome>)
    ensures
        r@ == outcomes_of(results@),
{
    let mut out: Vec<ThumbOutcome> = Vec::new();
    let mut i: usize = 0;
    while i < results.len()
        invariant
            i <= results@.len(),
            out@ =~= outcomes_of(results@.take(i as int)),
        decreases results@.len() - i,
    {
        out.push(results[i].outcome);
        i = i + 1;
    }
    assert(results@.take(results@.len() as int) =~= results@);
    out
}

fn generated(results: &Vec<ThumbResult>) -> (r: Vec<ThumbResult>)
    ensures
        r@ == generated_of(results@),
{
    let mut out: Vec<ThumbResult> = Vec::new();
    let mut i: usize = 0;
    while i < results.len()
        invariant
            i <= results@.len(),
            out@ =~= generated_of(results@.take(i as int)),
        decreases results@.len() - i,
    {
        assert(results@.take(i + 1).drop_last() =~= results@.take(i as int));
        if results[i].outcome.success && !results[i].outcome.cache_hit {
            out.push(results[i]);
        }
        i = i + 1;
    }
    assert(results@.take(results@.len() as int) =~= results@);
    out
}

/// What making thumbnails measured. The times of the single steps count only for
/// thumbnails that were made.
pub fn thumb_metrics(
    images_total: usize,
    images_selected: usize,
    images_visible: usize,
    results: &Vec<ThumbResult>,
    total_ms: u128,
    time_to_visible_ms: u128,
    offload_available: bool,
) -> (r: ThumbMetrics)
    requires
        results@.len() <= MAX_COUNT,
    ensures
        r.images_total == images_total,
        r.images_selected == images_selected,
        r.images_visible == images_visible,
        r.counts.generated == count_where(outcomes_of(results@), was_generated()),
        r.counts.skipped_cached == count_where(outcomes_of(results@), was_cached()),
        r.counts.failed == count_where(outcomes_of(results@), has_failed()),
        r.counts.offload_attempted == count_where(outcomes_of(results@), was_attempted()),
        r.counts.offload_used == count_where(outcomes_of(results@), was_offloaded()),
        r.total_ms == total_ms,
        r.time_to_visible_ms == time_to_visible_ms,
        ({
            let high = Double { bits: HIGH };
            let waits = times_of(results@, stage_time(Stage::QueueWait));
            let works = times_of(results@, stage_time(Stage::Worker));
            let ends = times_of(results@, stage_time(Stage::EndToEnd));
            &&& r.end_to_end_avg_ms == mean(ends) && r.end_to_end_p95_ms == percentile(ends, high)
            &&& r.queue_wait_avg_ms == mean(waits) && r.queue_wait_p95_ms == percentile(waits, high)
            &&& r.worker_avg_ms == mean(works) && r.worker_p95_ms == percentile(works, high)
        }),
        ({
            let high = Double { bits: HIGH };
            let made = generated_of(results@);
            let decodes = times_of(made, stage_time(Stage::Decode));
            let resizes = times_of(made, stage_time(Stage::Resize));
            let encodes = times_of(made, stage_time(Stage::Encode));
            &&& r.decode_avg_ms == mean(decodes) && r.decode_p95_ms == percentile(decodes, high)
            &&& r.resize_avg_ms == mean(resizes) && r.resize_p95_ms == percentile(resizes, high)
            &&& r.encode_avg_ms == mean(encodes) && r.encode_p95_ms == percentile(encodes, high)
        }),
        r.offload_available == offload_available,
{
    let high = Double { bits: HIGH };
    let made = generated(results);
    proof {
        lemma_generated_are_some(results@);
    }
    let waits = stage_times(results, Stage::QueueWait);
    let works = stage_times(results, Stage::Worker);
    let ends = stage_times(results, Stage::EndToEnd);
    let decodes = stage_times(&made, Stage::Decode);
    let resizes = stage_times(&made, Stage::Resize);
    let encodes = stage_times(&made, Stage::Encode);
    ThumbMetrics {
        images_total,
        images_selected,
        images_visible,
        counts: count_outcomes(&outcomes(results)),
        total_ms,
        time_to_visible_ms,
        end_to_end_avg_ms: average(&ends),
        end_to_end_p95_ms: percentile_ms(&ends, high),
        queue_wait_avg_ms: average(&waits),
        queue_wait_p95_ms: percentile_ms(&waits, high),
        worker_avg_ms: average(&works),
        worker_p95_ms: percentile_ms(&works, high),
        decode_avg_ms: average(&decodes),
        decode_p95_ms: percentile_ms(&decodes, high),
        resize_avg_ms: average(&resizes),
        resize_p95_ms: percentile_ms(&resizes, high),
        encode_avg_ms: average(&encodes),
        encode_p95_ms: percentile_ms(&encodes, high),
        offload_available,
    }
}

/// The times that are longer than a limit are counted, and no others.
pub proof fn longer_times_are_counted(times: Seq<Double>, limit: Double)
    ensures
        count_longer(times, limit) == times.filter(|t: Double| limit.less(t)).len(),
    decreases times.len(),
{
    reveal(Seq::filter);
    if times.len() > 0 {
        longer_times_are_counted(times.drop_last(), limit);
    }
}

/// The thumbnails that were made are those that came about and were not found on disk.
pub proof fn made_thumbnails_are_those_not_found(results: Seq<ThumbResult>)
    ensures
        generated_of(results) == results.filter(
            |r: ThumbResult| r.outcome.success && !r.outcome.cache_hit,
        ),
    decreases results.len(),
{
    reveal(Seq::filter);
    if results.len() > 0 {
        made_thumbnails_are_those_not_found(results.drop_last());
    }
}

/// Each stage has its own time.
pub proof fn stages_have_their_times(r: ThumbResult)
    ensures
        stage_time(Stage::QueueWait)(r) == r.queue_wait_ms,
        stage_time(Stage::Worker)(r) == r.worker_ms,
        stage_time(Stage::EndToEnd)(r) == r.end_to_end_ms,
        stage_time(Stage::Decode)(r) == r.decode_ms,
        stage_time(Stage::Resize)(r) == r.resize_ms,
        stage_time(Stage::Encode)(r) == r.encode_ms,
{
}

/// The median is in the middle, the high percentile at 95 of a hundred, and frames are
/// slow from 16.67 and from 33.33 milliseconds on, to rounding.
pub proof fn limits_of_frames()
    ensures
        2 * (Double { bits: MEDIAN }).value() == pow2(1074),
        distance(100 * (Double { bits: HIGH }).value(), 95 * (pow2(1074) as int)) <= pow2(1028),
        distance(100 * (Double { bits: FRAME_AT_60 }).value(), 1667 * (pow2(1074) as int)) <= pow2(1032),
        distance(100 * (Double { bits: FRAME_AT_30 }).value(), 3333 * (pow2(1074) as int)) <= pow2(1033),
{
    lemma2_to64();
    lemma2_to64_rest();
    lemma_pow2_adds(1021, 52);
    lemma_pow2_adds(1021, 53);
    lemma_pow2_adds(1026, 48);
    lemma_pow2_adds(1027, 47);
    lemma_pow2_adds(1021, 7);
    lemma_pow2_adds(1026, 6);
    lemma_pow2_adds(1027, 6);
    lemma_units_of(1021, 0x10_0000_0000_0000);
    lemma_units_of(1021, 0x1e_6666_6666_6666);
    lemma_units_of(1026, 0x10_ab85_1eb8_51ec);
    lemma_units_of(1027, 0x10_aa3d_70a3_d70a);
    let f = pow2(1021) as int;
    let g = pow2(1026) as int;
    let h = pow2(1027) as int;
    assert(2 * (0x10_0000_0000_0000 * f) == f * 0x20_0000_0000_0000) by (nonlinear_arith);
    assert(100 * (0x1e_6666_6666_6666 * f) == 95 * (f * 0x20_0000_0000_0000) + (100
        * 0x1e_6666_6666_6666 - 95 * 0x20_0000_0000_0000) * f) by (nonlinear_arith);
    assert(100 * (0x10_ab85_1eb8_51ec * g) == 1667 * (g * 0x1_0000_0000_0000) + (100
        * 0x10_ab85_1eb8_51ec - 1667 * 0x1_0000_0000_0000) * g) by (nonlinear_arith);
    assert(100 * (0x10_aa3d_70a3_d70a * h) == 3333 * (h * 0x8000_0000_0000) + (100
        * 0x10_aa3d_70a3_d70a - 3333 * 0x8000_0000_0000) * h) by (nonlinear_arith);
}

proof fn lemma_files_by_seconds(files: nat, seconds: Double)
    requires
        files < 0x20_0000_0000_0000,
        (Double { bits: ZERO }).less(seconds),
        !seconds.infinite(),
        files * pow2(1074) <= pow2(20) * seconds.value(),
    ensures
        distance(
            of_whole(files).quotient(seconds).value() * seconds.value(),
            (files * pow2(1074) * pow2(1074)) as int,
        ) <= pow2(1040) * seconds.value(),
{
    let u = pow2(1074) as int;
    whole_is_exact(files);
    assert(units(0) == 0);
    lemma_pow2_pos(1074);
    lemma_pow2_adds(20, 1074);
    let s = seconds.value();
    let x = (files * pow2(1074)) as int;
    let g = pow2(20) as int;
    assert(!seconds.negative() && seconds.size() == s);
    assert(x * u <= (g * u) * s) by (nonlinear_arith)
        requires
            x <= g * s,
            u > 0,
    ;
    quotient_of_some_size_is_near(of_whole(files), seconds, 20);
}

} // verus!
