//! What a report says, entry by entry, whatever stands around the entries.
use vstd::prelude::*;

use crate::bench::report::{
    aggregate_fields, closing_fields, device_bodies, device_fields, ending, escaped, escaped_char,
    field_line, gpu_fields, gpu_json, object_list, object_text, open_fields, opening,
    report_fields, report_json, run_bodies, run_body, scan_fields, thumb_count_fields,
    thumb_mode_fields, thumb_time_fields, BenchmarkAggregate, BenchmarkReport, BenchmarkRun,
    GpuDeviceSummary, GpuRunSummary,
};
use crate::decimals::three_decimals;
use crate::text::{decimal, hex_digits, spaces};

verus! {

/// Whether a part stands at a place of a text.
pub open spec fn stands_at(text: Seq<char>, part: Seq<char>, at: int) -> bool {
    &&& 0 <= at
    &&& at + part.len() <= text.len()
    &&& text.subrange(at, at + part.len()) == part
}

/// Whether a text holds a part.
pub open spec fn holds(text: Seq<char>, part: Seq<char>) -> bool {
    exists|at: int| stands_at(text, part, at)
}

/// Whether a text gives a value under a name.
pub open spec fn says(text: Seq<char>, name: Seq<char>, value: Seq<char>) -> bool {
    holds(text, seq!['"'] + name + seq!['"', ':', ' '] + value)
}

proof fn lemma_held_among(a: Seq<char>, b: Seq<char>, c: Seq<char>, part: Seq<char>)
    requires
        holds(b, part),
    ensures
        holds(a + b + c, part),
{
    let at = choose|at: int| stands_at(b, part, at);
    let text = a + b + c;
    let n = a.len() + at;
    assert(text.subrange(n, n + part.len()) =~= b.subrange(at, at + part.len()));
    assert(stands_at(text, part, n));
}

/// A text holds what is held by a part of it.
pub proof fn parts_of_parts_are_held(text: Seq<char>, middle: Seq<char>, part: Seq<char>)
    requires
        holds(text, middle),
        holds(middle, part),
    ensures
        holds(text, part),
{
    let at = choose|at: int| stands_at(text, middle, at);
    let end = at + middle.len();
    lemma_held_among(text.take(at), middle, text.skip(end), part);
    assert(text.take(at) + middle + text.skip(end) =~= text) by {
        assert forall|i: int| 0 <= i < text.len() implies (text.take(at) + middle + text.skip(end))[i]
            == text[i] by {
            if at <= i < end {
                assert(text.subrange(at, end)[i - at] == text[i]);
            }
        }
    }
}

proof fn lemma_whole_is_held(text: Seq<char>)
    ensures
        holds(text, text),
{
    assert(text.subrange(0, text.len() as int) =~= text);
    assert(stands_at(text, text, 0));
}

proof fn lemma_held_in_front(a: Seq<char>, b: Seq<char>, part: Seq<char>)
    requires
        holds(a, part),
    ensures
        holds(a + b, part),
{
    lemma_held_among(seq![], a, b, part);
    assert(Seq::<char>::empty() + a + b =~= a + b);
}

proof fn lemma_held_behind(a: Seq<char>, b: Seq<char>, part: Seq<char>)
    requires
        holds(b, part),
    ensures
        holds(a + b, part),
{
    lemma_held_among(a, b, seq![], part);
    assert(a + b + Seq::<char>::empty() =~= a + b);
}

proof fn lemma_joined_in_any_order(
    a: Seq<char>,
    b: Seq<char>,
    c: Seq<char>,
    d: Seq<char>,
    e: Seq<char>,
)
    ensures
        a + (b + c + d + e) == a + b + c + d + e,
{
    assert(a + (b + c + d + e) =~= a + b + c + d + e);
}

proof fn lemma_line_says(indent: nat, field: (Seq<char>, Seq<char>), comma: bool)
    ensures
        says(field_line(indent, field, comma), field.0, field.1),
{
    let part = seq!['"'] + field.0 + seq!['"', ':', ' '] + field.1;
    let rest = if comma {
        seq![',', '\n']
    } else {
        seq!['\n']
    };
    let front = spaces(indent);
    let mark = seq!['"'];
    let colon = seq!['"', ':', ' '];
    lemma_whole_is_held(part);
    lemma_held_among(front, part, rest, part);
    lemma_joined_in_any_order(front, mark, field.0, colon, field.1);
    assert(field_line(indent, field, comma) == front + mark + field.0 + colon + field.1 + rest);
}

proof fn lemma_fields_say(indent: nat, fields: Seq<(Seq<char>, Seq<char>)>)
    ensures
        forall|i: int|
            0 <= i < fields.len() ==> says(
                open_fields(indent, fields),
                (#[trigger] fields[i]).0,
                fields[i].1,
            ),
        fields.len() > 0 ==> forall|i: int|
            0 <= i < fields.len() ==> says(
                closing_fields(indent, fields),
                (#[trigger] fields[i]).0,
                fields[i].1,
            ),
    decreases fields.len(),
{
    if fields.len() > 0 {
        let rest = fields.drop_last();
        lemma_fields_say(indent, rest);
        let front = open_fields(indent, rest);
        lemma_line_says(indent, fields.last(), true);
        lemma_line_says(indent, fields.last(), false);
        assert forall|i: int| 0 <= i < fields.len() implies says(
            open_fields(indent, fields),
            (#[trigger] fields[i]).0,
            fields[i].1,
        ) && says(closing_fields(indent, fields), fields[i].0, fields[i].1) by {
            let part = seq!['"'] + fields[i].0 + seq!['"', ':', ' '] + fields[i].1;
            if i < rest.len() {
                assert(rest[i] == fields[i]);
                lemma_held_in_front(front, field_line(indent, fields.last(), true), part);
                lemma_held_in_front(front, field_line(indent, fields.last(), false), part);
            } else {
                lemma_held_behind(front, field_line(indent, fields.last(), true), part);
                lemma_held_behind(front, field_line(indent, fields.last(), false), part);
            }
        }
    }
}

proof fn lemma_list_holds(indent: nat, bodies: Seq<Seq<char>>, total: int)
    ensures
        forall|i: int|
            0 <= i < bodies.len() ==> holds(object_list(indent, bodies, total), #[trigger] bodies[i]),
    decreases bodies.len(),
{
    if bodies.len() > 0 {
        let rest = bodies.drop_last();
        lemma_list_holds(indent, rest, total);
        let front = object_list(indent, rest, total);
        let more = bodies.len() < total;
        let last = object_text(indent, bodies.last(), more);
        lemma_whole_is_held(bodies.last());
        lemma_held_among(opening(indent), bodies.last(), ending(indent, more), bodies.last());
        assert forall|i: int| 0 <= i < bodies.len() implies holds(
            object_list(indent, bodies, total),
            #[trigger] bodies[i],
        ) by {
            if i < rest.len() {
                assert(rest[i] == bodies[i]);
                lemma_held_in_front(front, last, bodies[i]);
            } else {
                lemma_held_behind(front, last, bodies[i]);
            }
        }
    }
}

proof fn lemma_fields_said_among(
    text: Seq<char>,
    indent: nat,
    fields: Seq<(Seq<char>, Seq<char>)>,
)
    requires
        holds(text, open_fields(indent, fields)),
    ensures
        forall|i: int|
            0 <= i < fields.len() ==> says(text, (#[trigger] fields[i]).0, fields[i].1),
{
    lemma_fields_say(indent, fields);
    assert forall|i: int| 0 <= i < fields.len() implies says(
        text,
        (#[trigger] fields[i]).0,
        fields[i].1,
    ) by {
        parts_of_parts_are_held(
            text,
            open_fields(indent, fields),
            seq!['"'] + fields[i].0 + seq!['"', ':', ' '] + fields[i].1,
        );
    }
}

proof fn lemma_run_holds(r: BenchmarkRun)
    ensures
        holds(run_body(r), open_fields(6, scan_fields(r))),
        holds(run_body(r), open_fields(6, thumb_count_fields(r))),
        holds(run_body(r), open_fields(6, thumb_time_fields(r))),
        holds(run_body(r), open_fields(6, thumb_mode_fields(r))),
        holds(run_body(r), gpu_json(r.gpu, 6)),
{
    reveal(run_body);
    let a = open_fields(6, scan_fields(r));
    let b = open_fields(6, thumb_count_fields(r));
    let c = open_fields(6, thumb_time_fields(r));
    let d = open_fields(6, thumb_mode_fields(r));
    let e = "      \"gpu\": "@;
    let f = gpu_json(r.gpu, 6);
    let g = seq!['\n'];
    lemma_whole_is_held(a);
    lemma_whole_is_held(b);
    lemma_whole_is_held(c);
    lemma_whole_is_held(d);
    lemma_whole_is_held(f);
    lemma_held_among(seq![], a, b + c + d + e + f + g, a);
    assert(Seq::<char>::empty() + a + (b + c + d + e + f + g) =~= run_body(r));
    lemma_held_among(a, b, c + d + e + f + g, b);
    assert(a + b + (c + d + e + f + g) =~= run_body(r));
    lemma_held_among(a + b, c, d + e + f + g, c);
    assert(a + b + c + (d + e + f + g) =~= run_body(r));
    lemma_held_among(a + b + c, d, e + f + g, d);
    assert(a + b + c + d + (e + f + g) =~= run_body(r));
    lemma_held_among(a + b + c + d + e, f, g, f);
}

/// A run tells of its scan and its layout under the names of its values.
pub proof fn run_scan_is_told(r: BenchmarkRun)
    ensures
        says(run_body(r), "run_index"@, decimal(r.run_index as nat)),
        says(run_body(r), "elapsed_ms"@, decimal(r.elapsed_ms as nat)),
        says(run_body(r), "total_files"@, decimal(r.total_files as nat)),
        says(run_body(r), "new_items"@, decimal(r.new_items as nat)),
        says(run_body(r), "cached_items"@, decimal(r.cached_items as nat)),
        says(run_body(r), "error_count"@, decimal(r.error_count as nat)),
        says(run_body(r), "files_per_sec"@, three_decimals(r.files_per_sec)),
        says(run_body(r), "load_items_ms"@, decimal(r.load_items_ms as nat)),
        says(run_body(r), "loaded_items"@, decimal(r.loaded_items as nat)),
        says(run_body(r), "layout_rows"@, decimal(r.layout_rows as nat)),
        says(run_body(r), "layout_total_ms"@, decimal(r.layout_total_ms as nat)),
        says(run_body(r), "layout_frames_simulated"@, decimal(r.layout_frames_simulated as nat)),
        says(run_body(r), "layout_frame_p50_ms"@, three_decimals(r.layout_frame_p50_ms)),
        says(run_body(r), "layout_frame_p95_ms"@, three_decimals(r.layout_frame_p95_ms)),
        says(run_body(r), "layout_frames_over_16ms"@, decimal(r.layout_frames_over_16ms as nat)),
        says(run_body(r), "layout_frames_over_33ms"@, decimal(r.layout_frames_over_33ms as nat)),
{
    lemma_run_holds(r);
    lemma_fields_said_among(run_body(r), 6, scan_fields(r));
    let fields = scan_fields(r);
    assert(fields[0].0 == "run_index"@);
    assert(fields[1].0 == "elapsed_ms"@);
    assert(fields[2].0 == "total_files"@);
    assert(fields[3].0 == "new_items"@);
    assert(fields[4].0 == "cached_items"@);
    assert(fields[5].0 == "error_count"@);
    assert(fields[6].0 == "files_per_sec"@);
    assert(fields[7].0 == "load_items_ms"@);
    assert(fields[8].0 == "loaded_items"@);
    assert(fields[9].0 == "layout_rows"@);
    assert(fields[10].0 == "layout_total_ms"@);
    assert(fields[11].0 == "layout_frames_simulated"@);
    assert(fields[12].0 == "layout_frame_p50_ms"@);
    assert(fields[13].0 == "layout_frame_p95_ms"@);
    assert(fields[14].0 == "layout_frames_over_16ms"@);
    assert(fields[15].0 == "layout_frames_over_33ms"@);
}

/// A run tells how many thumbnails there were of each kind, under the names of its values.
pub proof fn run_thumbnails_are_told(r: BenchmarkRun)
    ensures
        says(run_body(r), "thumb_images_total"@, decimal(r.thumb_images_total as nat)),
        says(run_body(r), "thumb_images_selected"@, decimal(r.thumb_images_selected as nat)),
        says(run_body(r), "thumb_images_visible"@, decimal(r.thumb_images_visible as nat)),
        says(run_body(r), "thumb_images_generated"@, decimal(r.thumb_images_generated as nat)),
        says(run_body(r), "thumb_images_skipped_cached"@, decimal(r.thumb_images_skipped_cached as nat)),
        says(run_body(r), "thumb_images_failed"@, decimal(r.thumb_images_failed as nat)),
        says(run_body(r), "thumb_total_ms"@, decimal(r.thumb_total_ms as nat)),
        says(run_body(r), "thumb_time_to_visible_ms"@, decimal(r.thumb_time_to_visible_ms as nat)),
{
    lemma_run_holds(r);
    lemma_fields_said_among(run_body(r), 6, thumb_count_fields(r));
    let fields = thumb_count_fields(r);
    assert(fields[0].0 == "thumb_images_total"@);
    assert(fields[1].0 == "thumb_images_selected"@);
    assert(fields[2].0 == "thumb_images_visible"@);
    assert(fields[3].0 == "thumb_images_generated"@);
    assert(fields[4].0 == "thumb_images_skipped_cached"@);
    assert(fields[5].0 == "thumb_images_failed"@);
    assert(fields[6].0 == "thumb_total_ms"@);
    assert(fields[7].0 == "thumb_time_to_visible_ms"@);
}

/// A run tells the times of each stage of thumbnails, under the names of its values.
pub proof fn run_times_are_told(r: BenchmarkRun)
    ensures
        says(run_body(r), "thumb_end_to_end_avg_ms"@, three_decimals(r.thumb_end_to_end_avg_ms)),
        says(run_body(r), "thumb_end_to_end_p95_ms"@, three_decimals(r.thumb_end_to_end_p95_ms)),
        says(run_body(r), "thumb_queue_wait_avg_ms"@, three_decimals(r.thumb_queue_wait_avg_ms)),
        says(run_body(r), "thumb_queue_wait_p95_ms"@, three_decimals(r.thumb_queue_wait_p95_ms)),
        says(run_body(r), "thumb_worker_avg_ms"@, three_decimals(r.thumb_worker_avg_ms)),
        says(run_body(r), "thumb_worker_p95_ms"@, three_decimals(r.thumb_worker_p95_ms)),
        says(run_body(r), "thumb_decode_avg_ms"@, three_decimals(r.thumb_decode_avg_ms)),
        says(run_body(r), "thumb_decode_p95_ms"@, three_decimals(r.thumb_decode_p95_ms)),
        says(run_body(r), "thumb_resize_avg_ms"@, three_decimals(r.thumb_resize_avg_ms)),
        says(run_body(r), "thumb_resize_p95_ms"@, three_decimals(r.thumb_resize_p95_ms)),
        says(run_body(r), "thumb_encode_avg_ms"@, three_decimals(r.thumb_encode_avg_ms)),
        says(run_body(r), "thumb_encode_p95_ms"@, three_decimals(r.thumb_encode_p95_ms)),
{
    lemma_run_holds(r);
    lemma_fields_said_among(run_body(r), 6, thumb_time_fields(r));
    let fields = thumb_time_fields(r);
    assert(fields[0].0 == "thumb_end_to_end_avg_ms"@);
    assert(fields[1].0 == "thumb_end_to_end_p95_ms"@);
    assert(fields[2].0 == "thumb_queue_wait_avg_ms"@);
    assert(fields[3].0 == "thumb_queue_wait_p95_ms"@);
    assert(fields[4].0 == "thumb_worker_avg_ms"@);
    assert(fields[5].0 == "thumb_worker_p95_ms"@);
    assert(fields[6].0 == "thumb_decode_avg_ms"@);
    assert(fields[7].0 == "thumb_decode_p95_ms"@);
    assert(fields[8].0 == "thumb_resize_avg_ms"@);
    assert(fields[9].0 == "thumb_resize_p95_ms"@);
    assert(fields[10].0 == "thumb_encode_avg_ms"@);
    assert(fields[11].0 == "thumb_encode_p95_ms"@);
}

/// A run tells how thumbnails were made, under the names of its values.
pub proof fn run_modes_are_told(r: BenchmarkRun)
    ensures
        says(run_body(r), "thumb_workers"@, decimal(r.thumb_workers as nat)),
        says(run_body(r), "thumb_resize_mode"@, seq!['"'] + escaped(r.thumb_resize_mode@) + seq!['"']),
        says(run_body(r), "thumb_nv_offload_enabled"@, if r.thumb_nv_offload_enabled { "true"@ } else { "false"@ }),
        says(run_body(r), "thumb_nv_offload_available"@, if r.thumb_nv_offload_available { "true"@ } else { "false"@ }),
        says(run_body(r), "thumb_nv_offload_attempted"@, decimal(r.thumb_nv_offload_attempted as nat)),
        says(run_body(r), "thumb_nv_offload_used"@, decimal(r.thumb_nv_offload_used as nat)),
{
    lemma_run_holds(r);
    lemma_fields_said_among(run_body(r), 6, thumb_mode_fields(r));
    let fields = thumb_mode_fields(r);
    assert(fields[0].0 == "thumb_workers"@);
    assert(fields[1].0 == "thumb_resize_mode"@);
    assert(fields[2].0 == "thumb_nv_offload_enabled"@);
    assert(fields[3].0 == "thumb_nv_offload_available"@);
    assert(fields[4].0 == "thumb_nv_offload_attempted"@);
    assert(fields[5].0 == "thumb_nv_offload_used"@);
}

/// A device tells of its card under the names of its values; what is not known is null.
pub proof fn device_is_told(d: GpuDeviceSummary, indent: nat)
    ensures
        says(closing_fields(indent, device_fields(d)), "card"@, seq!['"'] + escaped(d.card@) + seq!['"']),
        says(closing_fields(indent, device_fields(d)), "vendor"@, seq!['"'] + escaped(d.vendor@) + seq!['"']),
        says(closing_fields(indent, device_fields(d)), "samples"@, decimal(d.samples as nat)),
        says(closing_fields(indent, device_fields(d)), "avg_busy_percent"@, match d.avg_busy_percent { Some(x) => three_decimals(x), None => "null"@ }),
        says(closing_fields(indent, device_fields(d)), "max_busy_percent"@, match d.max_busy_percent { Some(x) => three_decimals(x), None => "null"@ }),
        says(closing_fields(indent, device_fields(d)), "max_vram_used_bytes"@, match d.max_vram_used_bytes { Some(x) => decimal(x as nat), None => "null"@ }),
        says(closing_fields(indent, device_fields(d)), "max_vram_util_percent"@, match d.max_vram_util_percent { Some(x) => three_decimals(x), None => "null"@ }),
{
    lemma_fields_say(indent, device_fields(d));
    let fields = device_fields(d);
    assert(fields[0].0 == "card"@);
    assert(fields[1].0 == "vendor"@);
    assert(fields[2].0 == "samples"@);
    assert(fields[3].0 == "avg_busy_percent"@);
    assert(fields[4].0 == "max_busy_percent"@);
    assert(fields[5].0 == "max_vram_used_bytes"@);
    assert(fields[6].0 == "max_vram_util_percent"@);
}

/// Where a run has telemetry, it tells how many samples there are, what went wrong, if
/// anything, and of each device; where it has none, it says null.
pub proof fn telemetry_is_told(g: GpuRunSummary, indent: nat, i: int)
    ensures
        gpu_json(None, indent) == "null"@,
        says(gpu_json(Some(g), indent), "sample_count"@, decimal(g.sample_count as nat)),
        g.collection_error matches Some(e) ==> says(
            gpu_json(Some(g), indent),
            "collection_error"@,
            seq!['"'] + escaped(e@) + seq!['"'],
        ),
        g.collection_error is None ==> says(
            gpu_json(Some(g), indent),
            "collection_error"@,
            "null"@,
        ),
        0 <= i < g.devices@.len() ==> holds(
            gpu_json(Some(g), indent),
            closing_fields(indent + 6, device_fields(g.devices@[i])),
        ),
{
    let text = gpu_json(Some(g), indent);
    let a = open_fields(indent + 2, gpu_fields(g));
    let bodies = device_bodies(indent + 6, g.devices@);
    let list = object_list(indent + 4, bodies, g.devices@.len() as int);
    let brace = seq!['{', '\n'];
    let name = "\"devices\": [\n"@;
    let rest = spaces(indent + 2) + seq![']', '\n'] + spaces(indent) + seq!['}'];
    lemma_whole_is_held(a);
    lemma_whole_is_held(list);
    lemma_held_among(brace, a, spaces(indent + 2) + name + list + rest, a);
    assert(brace + a + (spaces(indent + 2) + name + list + rest) =~= text);
    lemma_held_among(brace + a + spaces(indent + 2) + name, list, rest, list);
    assert(brace + a + spaces(indent + 2) + name + list + rest =~= text);
    lemma_fields_said_among(text, indent + 2, gpu_fields(g));
    let fields = gpu_fields(g);
    assert(fields[0].0 == "sample_count"@);
    assert(fields[1].0 == "collection_error"@);
    if 0 <= i < g.devices@.len() {
        lemma_list_holds(indent + 4, bodies, g.devices@.len() as int);
        assert(bodies[i] == closing_fields(indent + 6, device_fields(g.devices@[i])));
        parts_of_parts_are_held(text, list, bodies[i]);
    }
}

proof fn lemma_report_holds(r: BenchmarkReport)
    ensures
        holds(report_json(r), open_fields(2, report_fields(r))),
        holds(
            report_json(r),
            object_list(4, run_bodies(r.results@), r.results@.len() as int),
        ),
        holds(report_json(r), closing_fields(4, aggregate_fields(r.aggregate))),
{
    let a = seq!['{', '\n'];
    let b = open_fields(2, report_fields(r));
    let c = "  \"results\": [\n"@;
    let d = object_list(4, run_bodies(r.results@), r.results@.len() as int);
    let e = "  ],\n"@;
    let f = "  \"aggregate\": {\n"@;
    let g = closing_fields(4, aggregate_fields(r.aggregate));
    let h = "  }\n"@;
    let i = "}\n"@;
    lemma_whole_is_held(b);
    lemma_whole_is_held(d);
    lemma_whole_is_held(g);
    lemma_held_among(a, b, c + d + e + f + g + h + i, b);
    assert(a + b + (c + d + e + f + g + h + i) =~= report_json(r));
    lemma_held_among(a + b + c, d, e + f + g + h + i, d);
    assert(a + b + c + d + (e + f + g + h + i) =~= report_json(r));
    lemma_held_among(a + b + c + d + e + f, g, h + i, g);
    assert(a + b + c + d + e + f + g + (h + i) =~= report_json(r));
}

/// A report tells what was asked for, under the names of its values.
pub proof fn request_is_told(r: BenchmarkReport)
    ensures
        says(report_json(r), "schema_version"@, decimal(r.schema_version as nat)),
        says(report_json(r), "generated_at_unix_ms"@, decimal(r.generated_at_unix_ms as nat)),
        says(report_json(r), "benchmark"@, seq!['"'] + escaped(r.benchmark@) + seq!['"']),
        says(report_json(r), "path"@, seq!['"'] + escaped(r.path@) + seq!['"']),
        says(report_json(r), "runs_requested"@, decimal(r.runs_requested as nat)),
        says(report_json(r), "cold_cache"@, if r.cold_cache { "true"@ } else { "false"@ }),
        says(report_json(r), "thumb_limit"@, decimal(r.thumb_limit as nat)),
        says(report_json(r), "thumb_timeout_ms"@, decimal(r.thumb_timeout_ms as nat)),
        says(report_json(r), "thumb_workers"@, decimal(r.thumb_workers as nat)),
        says(report_json(r), "thumb_visible_count"@, decimal(r.thumb_visible_count as nat)),
        says(report_json(r), "thumb_fast_resize"@, if r.thumb_fast_resize { "true"@ } else { "false"@ }),
        says(report_json(r), "thumb_nv_offload"@, if r.thumb_nv_offload { "true"@ } else { "false"@ }),
        says(report_json(r), "gpu_telemetry_enabled"@, if r.gpu_telemetry_enabled { "true"@ } else { "false"@ }),
        says(report_json(r), "gpu_sample_ms"@, decimal(r.gpu_sample_ms as nat)),
        says(report_json(r), "db_path"@, seq!['"'] + escaped(r.db_path@) + seq!['"']),
        says(report_json(r), "thumbs_dir"@, seq!['"'] + escaped(r.thumbs_dir@) + seq!['"']),
{
    lemma_report_holds(r);
    lemma_fields_said_among(report_json(r), 2, report_fields(r));
    let fields = report_fields(r);
    assert(fields[0].0 == "schema_version"@);
    assert(fields[1].0 == "generated_at_unix_ms"@);
    assert(fields[2].0 == "benchmark"@);
    assert(fields[3].0 == "path"@);
    assert(fields[4].0 == "runs_requested"@);
    assert(fields[5].0 == "cold_cache"@);
    assert(fields[6].0 == "thumb_limit"@);
    assert(fields[7].0 == "thumb_timeout_ms"@);
    assert(fields[8].0 == "thumb_workers"@);
    assert(fields[9].0 == "thumb_visible_count"@);
    assert(fields[10].0 == "thumb_fast_resize"@);
    assert(fields[11].0 == "thumb_nv_offload"@);
    assert(fields[12].0 == "gpu_telemetry_enabled"@);
    assert(fields[13].0 == "gpu_sample_ms"@);
    assert(fields[14].0 == "db_path"@);
    assert(fields[15].0 == "thumbs_dir"@);
}

/// A report tells of all runs together, under the names of its values.
pub proof fn aggregate_is_told(a: BenchmarkAggregate, indent: nat)
    ensures
        says(closing_fields(indent, aggregate_fields(a)), "runs"@, decimal(a.runs as nat)),
        says(closing_fields(indent, aggregate_fields(a)), "avg_elapsed_ms"@, three_decimals(a.avg_elapsed_ms)),
        says(closing_fields(indent, aggregate_fields(a)), "min_elapsed_ms"@, decimal(a.min_elapsed_ms as nat)),
        says(closing_fields(indent, aggregate_fields(a)), "max_elapsed_ms"@, decimal(a.max_elapsed_ms as nat)),
        says(closing_fields(indent, aggregate_fields(a)), "avg_files_per_sec"@, three_decimals(a.avg_files_per_sec)),
        says(closing_fields(indent, aggregate_fields(a)), "avg_layout_p95_ms"@, three_decimals(a.avg_layout_p95_ms)),
        says(closing_fields(indent, aggregate_fields(a)), "avg_thumb_p95_ms"@, three_decimals(a.avg_thumb_p95_ms)),
        says(closing_fields(indent, aggregate_fields(a)), "avg_thumb_visible_ms"@, three_decimals(a.avg_thumb_visible_ms)),
{
    lemma_fields_say(indent, aggregate_fields(a));
    let fields = aggregate_fields(a);
    assert(fields[0].0 == "runs"@);
    assert(fields[1].0 == "avg_elapsed_ms"@);
    assert(fields[2].0 == "min_elapsed_ms"@);
    assert(fields[3].0 == "max_elapsed_ms"@);
    assert(fields[4].0 == "avg_files_per_sec"@);
    assert(fields[5].0 == "avg_layout_p95_ms"@);
    assert(fields[6].0 == "avg_thumb_p95_ms"@);
    assert(fields[7].0 == "avg_thumb_visible_ms"@);
}

/// A report holds what each of its runs tells and what all of them together do.
pub proof fn runs_are_told(r: BenchmarkReport, i: int)
    ensures
        0 <= i < r.results@.len() ==> holds(report_json(r), run_body(r.results@[i])),
        holds(report_json(r), closing_fields(4, aggregate_fields(r.aggregate))),
{
    lemma_report_holds(r);
    if 0 <= i < r.results@.len() {
        let bodies = run_bodies(r.results@);
        lemma_list_holds(4, bodies, r.results@.len() as int);
        assert(bodies[i] == run_body(r.results@[i]));
        parts_of_parts_are_held(
            report_json(r),
            object_list(4, bodies, r.results@.len() as int),
            bodies[i],
        );
    }
}

/// The marks that would end a text or break a line are written with a backslash and the
/// letter for each, other controls by their number, and all else as it is; the written
/// form of two texts is that of the one and of the other.
pub proof fn marks_are_escaped(a: Seq<char>, b: Seq<char>, c: char)
    ensures
        escaped(a + b) == escaped(a) + escaped(b),
        escaped(seq!['"']) == seq!['\\', '"'],
        escaped(seq!['\\']) == seq!['\\', '\\'],
        escaped(seq!['\n']) == seq!['\\', 'n'],
        escaped(seq!['\r']) == seq!['\\', 'r'],
        escaped(seq!['\t']) == seq!['\\', 't'],
        (c < ' ' || '\u{7f}' <= c <= '\u{9f}') && c != '\n' && c != '\r' && c != '\t' ==> escaped(
            seq![c],
        ) == seq!['\\', 'u'] + hex_digits(c as u32 as nat, 4),
        ' ' <= c < '\u{7f}' && c != '"' && c != '\\' ==> escaped(seq![c]) == seq![c],
        c > '\u{9f}' ==> escaped(seq![c]) == seq![c],
    decreases b.len(),
{
    let none = Seq::<char>::empty();
    assert(escaped(none) =~= none);
    assert forall|x: char| escaped(seq![x]) == #[trigger] escaped_char(x) by {
        assert(seq![x].drop_last() =~= none);
        assert(escaped(seq![x]) =~= escaped_char(x));
    }
    assert(escaped(seq!['"']) == escaped_char('"'));
    assert(escaped(seq!['\\']) == escaped_char('\\'));
    assert(escaped(seq!['\n']) == escaped_char('\n'));
    assert(escaped(seq!['\r']) == escaped_char('\r'));
    assert(escaped(seq!['\t']) == escaped_char('\t'));
    assert(escaped(seq![c]) == escaped_char(c));
    if b.len() == 0 {
        assert(a + b =~= a);
        assert(escaped(a) + escaped(b) =~= escaped(a));
    } else {
        assert((a + b).drop_last() =~= a + b.drop_last());
        marks_are_escaped(a, b.drop_last(), c);
        assert(escaped(a + b) =~= escaped(a) + escaped(b));
    }
}

} // verus!
