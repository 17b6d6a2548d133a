//! The benchmark report as JSON.
use vstd::prelude::*;

use crate::decimals::{push_three_decimals, three_decimals};
use crate::double::Double;
use crate::text::{decimal, hex_digits, push_hex, push_number, push_spaces, spaces, to_chars};

verus! {

/// Whether a character is a control character.
pub open spec fn is_control(c: char) -> bool {
    c <= '\u{1f}' || '\u{7f}' <= c <= '\u{9f}'
}

/// How one character is written in a JSON string.
pub open spec fn escaped_char(c: char) -> Seq<char> {
    if c == '"' {
        seq!['\\', '"']
    } else if c == '\\' {
        seq!['\\', '\\']
    } else if c == '\n' {
        seq!['\\', 'n']
    } else if c == '\r' {
        seq!['\\', 'r']
    } else if c == '\t' {
        seq!['\\', 't']
    } else if is_control(c) {
        seq!['\\', 'u'] + hex_digits(c as u32 as nat, 4)
    } else {
        seq![c]
    }
}

/// How a text is written in a JSON string.
pub open spec fn escaped(s: Seq<char>) -> Seq<char>
    decreases s.len(),
{
    if s.len() == 0 {
        seq![]
    } else {
        escaped(s.drop_last()) + escaped_char(s.last())
    }
}

/// Writes a text the way it stands in a JSON string.
pub fn escape_json(input: &str) -> (r: String)
    ensures
        r@ == escaped(input@),
{
    let chars = to_chars(input);
    let mut out = String::new();
    let mut i: usize = 0;
    assert(out@ =~= escaped(chars@.take(0)));
    while i < chars.len()
        invariant
            chars@ == input@,
            i <= chars@.len(),
            out@ == escaped(chars@.take(i as int)),
        decreases chars@.len() - i,
    {
        let c: char = chars[i];
        let ghost before = out@;
        assert(chars@.take(i + 1).drop_last() =~= chars@.take(i as int));
        if c == '"' {
            out.push('\\');
            out.push('"');
            assert(out@ =~= before + seq!['\\', '"']);
        } else if c == '\\' {
            out.push('\\');
            out.push('\\');
            assert(out@ =~= before + seq!['\\', '\\']);
        } else if c == '\n' {
            out.push('\\');
            out.push('n');
            assert(out@ =~= before + seq!['\\', 'n']);
        } else if c == '\r' {
            out.push('\\');
            out.push('r');
            assert(out@ =~= before + seq!['\\', 'r']);
        } else if c == '\t' {
            out.push('\\');
            out.push('t');
            assert(out@ =~= before + seq!['\\', 't']);
        } else if c <= '\u{1f}' || ('\u{7f}' <= c && c <= '\u{9f}') {
            out.push('\\');
            out.push('u');
            push_hex(&mut out, c as u32 as u64, 4);
            assert(out@ =~= before + (seq!['\\', 'u'] + hex_digits(c as u32 as nat, 4)));
        } else {
            out.push(c);
            assert(out@ =~= before + seq![c]);
        }
        i = i + 1;
    }
    assert(chars@.take(chars@.len() as int) =~= chars@);
    out
}

/// The value of a field.
#[derive(Debug)]
pub enum Value {
    Number(u128),
    Flag(bool),
    Text(String),
    /// A fraction, written with three decimals.
    Fraction(Double),
    Null,
}

/// How a value is written.
pub open spec fn value_text(v: Value) -> Seq<char> {
    match v {
        Value::Number(n) => decimal(n as nat),
        Value::Flag(b) => if b {
            "true"@
        } else {
            "false"@
        },
        Value::Text(s) => seq!['"'] + escaped(s@) + seq!['"'],
        Value::Fraction(d) => three_decimals(d),
        Value::Null => "null"@,
    }
}

fn push_value(out: &mut String, v: &Value)
    ensures
        final(out)@ == old(out)@ + value_text(*v),
{
    match v {
        Value::Number(n) => {
            push_number(out, *n);
        },
        Value::Flag(b) => {
            if *b {
                out.push_str("true");
            } else {
                out.push_str("false");
            }
        },
        Value::Text(s) => {
            out.push('"');
            out.push_str(&escape_json(s));
            out.push('"');
            assert(out@ =~= old(out)@ + value_text(*v));
        },
        Value::Fraction(d) => {
            push_three_decimals(out, *d);
        },
        Value::Null => {
            out.push_str("null");
        },
    }
}

/// A named value.
#[derive(Debug)]
pub struct Field {
    pub name: &'static str,
    pub value: Value,
}

/// Name and written value of a field.
pub open spec fn field_view(f: Field) -> (Seq<char>, Seq<char>) {
    (f.name@, value_text(f.value))
}

/// Names and written values of some fields.
pub open spec fn fields_view(fields: Seq<Field>) -> Seq<(Seq<char>, Seq<char>)> {
    Seq::new(fields.len(), |i: int| field_view(fields[i]))
}

/// One line of an object: a name and its value.
pub open spec fn field_line(indent: nat, field: (Seq<char>, Seq<char>), comma: bool) -> Seq<char> {
    spaces(indent) + seq!['"'] + field.0 + seq!['"', ':', ' '] + field.1 + (if comma {
        seq![',', '\n']
    } else {
        seq!['\n']
    })
}

/// The lines of some fields, each with a comma behind it.
pub open spec fn open_fields(indent: nat, fields: Seq<(Seq<char>, Seq<char>)>) -> Seq<char>
    decreases fields.len(),
{
    if fields.len() == 0 {
        seq![]
    } else {
        open_fields(indent, fields.drop_last()) + field_line(indent, fields.last(), true)
    }
}

/// The lines of the last fields of an object: no comma behind the last one.
pub open spec fn closing_fields(indent: nat, fields: Seq<(Seq<char>, Seq<char>)>) -> Seq<char> {
    open_fields(indent, fields.drop_last()) + field_line(indent, fields.last(), false)
}

fn push_field(out: &mut String, indent: usize, field: &Field, comma: bool)
    ensures
        final(out)@ == old(out)@ + field_line(indent as nat, field_view(*field), comma),
{
    push_spaces(out, indent);
    out.push('"');
    out.push_str(field.name);
    out.push('"');
    out.push(':');
    out.push(' ');
    push_value(out, &field.value);
    if comma {
        out.push(',');
    }
    out.push('\n');
    assert(out@ =~= old(out)@ + field_line(indent as nat, field_view(*field), comma));
}

fn push_open_fields(out: &mut String, indent: usize, fields: &Vec<Field>)
    ensures
        final(out)@ == old(out)@ + open_fields(indent as nat, fields_view(fields@)),
{
    let ghost all = fields_view(fields@);
    let mut i: usize = 0;
    assert(out@ =~= old(out)@ + open_fields(indent as nat, all.take(0)));
    while i < fields.len()
        invariant
            i <= fields@.len(),
            all == fields_view(fields@),
            out@ == old(out)@ + open_fields(indent as nat, all.take(i as int)),
        decreases fields@.len() - i,
    {
        assert(all.take(i + 1).drop_last() =~= all.take(i as int));
        assert(all.take(i + 1).last() == field_view(fields@[i as int]));
        push_field(out, indent, &fields[i], true);
        i = i + 1;
        assert(out@ =~= old(out)@ + open_fields(indent as nat, all.take(i as int)));
    }
    assert(all.take(all.len() as int) =~= all);
}

fn push_closing_fields(out: &mut String, indent: usize, fields: &Vec<Field>)
    requires
        fields@.len() > 0,
    ensures
        final(out)@ == old(out)@ + closing_fields(indent as nat, fields_view(fields@)),
{
    let ghost all = fields_view(fields@);
    let last: usize = fields.len() - 1;
    let mut i: usize = 0;
    assert(out@ =~= old(out)@ + open_fields(indent as nat, all.take(0)));
    while i < last
        invariant
            i <= last < fields@.len(),
            all == fields_view(fields@),
            out@ == old(out)@ + open_fields(indent as nat, all.take(i as int)),
        decreases last - i,
    {
        assert(all.take(i + 1).drop_last() =~= all.take(i as int));
        assert(all.take(i + 1).last() == field_view(fields@[i as int]));
        push_field(out, indent, &fields[i], true);
        i = i + 1;
        assert(out@ =~= old(out)@ + open_fields(indent as nat, all.take(i as int)));
    }
    assert(all.take(last as int) =~= all.drop_last());
    push_field(out, indent, &fields[last], false);
    assert(out@ =~= old(out)@ + closing_fields(indent as nat, all));
}

/// Writes a prefix, an optional number and the end of the line.
pub fn write_optional_u64(out: &mut String, prefix: &str, value: Option<u64>, trailing_comma: bool)
    ensures
        final(out)@ == old(out)@ + prefix@ + (match value {
            Some(n) => decimal(n as nat),
            None => "null"@,
        }) + (if trailing_comma {
            seq![',', '\n']
        } else {
            seq!['\n']
        }),
{
    out.push_str(prefix);
    match value {
        Some(n) => push_number(out, n as u128),
        None => out.push_str("null"),
    }
    if trailing_comma {
        out.push(',');
    }
    out.push('\n');
    assert(out@ =~= old(out)@ + prefix@ + (match value {
        Some(n) => decimal(n as nat),
        None => "null"@,
    }) + (if trailing_comma {
        seq![',', '\n']
    } else {
        seq!['\n']
    }));
}

/// What was seen of one graphics device during a run.
#[derive(Debug)]
pub struct GpuDeviceSummary {
    pub card: String,
    pub vendor: String,
    pub samples: usize,
    pub avg_busy_percent: Option<Double>,
    pub max_busy_percent: Option<Double>,
    pub max_vram_used_bytes: Option<u64>,
    pub max_vram_util_percent: Option<Double>,
}

/// What was seen of the graphics devices during a run.
#[derive(Debug)]
pub struct GpuRunSummary {
    pub sample_count: usize,
    pub devices: Vec<GpuDeviceSummary>,
    pub collection_error: Option<String>,
}

/// How an optional fraction is written.
pub open spec fn optional_fraction(v: Option<Double>) -> Seq<char> {
    match v {
        Some(d) => three_decimals(d),
        None => "null"@,
    }
}

/// How an optional number is written.
pub open spec fn optional_number(v: Option<u64>) -> Seq<char> {
    match v {
        Some(n) => decimal(n as nat),
        None => "null"@,
    }
}

/// How a text is written as a value.
pub open spec fn quoted(s: Seq<char>) -> Seq<char> {
    seq!['"'] + escaped(s) + seq!['"']
}

/// The fields of a device.
pub open spec fn device_fields(d: GpuDeviceSummary) -> Seq<(Seq<char>, Seq<char>)> {
    seq![
        ("card"@, quoted(d.card@)),
        ("vendor"@, quoted(d.vendor@)),
        ("samples"@, decimal(d.samples as nat)),
        ("avg_busy_percent"@, optional_fraction(d.avg_busy_percent)),
        ("max_busy_percent"@, optional_fraction(d.max_busy_percent)),
        ("max_vram_used_bytes"@, optional_number(d.max_vram_used_bytes)),
        ("max_vram_util_percent"@, optional_fraction(d.max_vram_util_percent)),
    ]
}

/// An object of a list, in braces on lines of its own, with a comma where more follow.
pub open spec fn object_text(indent: nat, body: Seq<char>, more: bool) -> Seq<char> {
    opening(indent) + body + ending(indent, more)
}

/// The line that begins an object of a list.
pub open spec fn opening(indent: nat) -> Seq<char> {
    spaces(indent) + seq!['{', '\n']
}

/// The line that ends an object of a list.
pub open spec fn ending(indent: nat, more: bool) -> Seq<char> {
    spaces(indent) + if more {
        seq!['}', ',', '\n']
    } else {
        seq!['}', '\n']
    }
}

/// A list of objects, a comma after all but the last.
pub open spec fn object_list(indent: nat, bodies: Seq<Seq<char>>, total: int) -> Seq<char>
    decreases bodies.len(),
{
    if bodies.len() == 0 {
        seq![]
    } else {
        object_list(indent, bodies.drop_last(), total) + object_text(
            indent,
            bodies.last(),
            bodies.len() < total,
        )
    }
}

fn push_opening(out: &mut String, indent: usize)
    ensures
        final(out)@ == old(out)@ + opening(indent as nat),
{
    push_spaces(out, indent);
    out.push('{');
    out.push('\n');
    assert(out@ =~= old(out)@ + opening(indent as nat));
}

fn push_ending(out: &mut String, indent: usize, more: bool)
    ensures
        final(out)@ == old(out)@ + ending(indent as nat, more),
{
    push_spaces(out, indent);
    out.push('}');
    if more {
        out.push(',');
    }
    out.push('\n');
    assert(out@ =~= old(out)@ + ending(indent as nat, more));
}

proof fn lemma_one_more_object(
    start: Seq<char>,
    indent: nat,
    bodies: Seq<Seq<char>>,
    i: int,
    total: int,
)
    requires
        0 <= i < bodies.len(),
    ensures
        start + object_list(indent, bodies.take(i), total) + opening(indent) + bodies[i] + ending(
            indent,
            i + 1 < total,
        ) == start + object_list(indent, bodies.take(i + 1), total),
{
    let before = object_list(indent, bodies.take(i), total);
    let (x, y, z) = (opening(indent), bodies[i], ending(indent, i + 1 < total));
    assert(bodies.take(i + 1).drop_last() =~= bodies.take(i));
    assert(bodies.take(i + 1).last() == y);
    assert(start + before + x + y + z =~= start + (before + (x + y + z)));
}

/// The bodies of the objects of some devices.
pub open spec fn device_bodies(indent: nat, devices: Seq<GpuDeviceSummary>) -> Seq<Seq<char>> {
    Seq::new(devices.len(), |i: int| closing_fields(indent, device_fields(devices[i])))
}

/// The first fields of a summary.
pub open spec fn gpu_fields(g: GpuRunSummary) -> Seq<(Seq<char>, Seq<char>)> {
    seq![
        ("sample_count"@, decimal(g.sample_count as nat)),
        (
            "collection_error"@,
            match g.collection_error {
                Some(e) => quoted(e@),
                None => "null"@,
            },
        ),
    ]
}

/// How the summary of a run is written, with the given indentation.
pub open spec fn gpu_json(gpu: Option<GpuRunSummary>, indent: nat) -> Seq<char> {
    match gpu {
        None => "null"@,
        Some(g) => seq!['{', '\n'] + open_fields(indent + 2, gpu_fields(g)) + spaces(indent + 2)
            + "\"devices\": [\n"@ + object_list(
            indent + 4,
            device_bodies(indent + 6, g.devices@),
            g.devices@.len() as int,
        ) + spaces(indent + 2) + seq![']', '\n'] + spaces(indent) + seq!['}'],
    }
}

fn fraction_value(v: Option<Double>) -> (r: Value)
    ensures
        value_text(r) == optional_fraction(v),
{
    match v {
        Some(d) => Value::Fraction(d),
        None => Value::Null,
    }
}

fn push_device(out: &mut String, indent: usize, d: &GpuDeviceSummary)
    ensures
        final(out)@ == old(out)@ + closing_fields(indent as nat, device_fields(*d)),
{
    let fields: Vec<Field> = vec![
        Field { name: "card", value: Value::Text(d.card.clone()) },
        Field { name: "vendor", value: Value::Text(d.vendor.clone()) },
        Field { name: "samples", value: Value::Number(d.samples as u128) },
        Field { name: "avg_busy_percent", value: fraction_value(d.avg_busy_percent) },
        Field { name: "max_busy_percent", value: fraction_value(d.max_busy_percent) },
        Field {
            name: "max_vram_used_bytes",
            value: match d.max_vram_used_bytes {
                Some(n) => Value::Number(n as u128),
                None => Value::Null,
            },
        },
        Field { name: "max_vram_util_percent", value: fraction_value(d.max_vram_util_percent) },
    ];
    assert(fields_view(fields@) =~= device_fields(*d));
    push_closing_fields(out, indent, &fields);
}

fn push_devices(out: &mut String, indent: usize, devices: &Vec<GpuDeviceSummary>)
    requires
        indent + 6 <= usize::MAX,
    ensures
        final(out)@ == old(out)@ + object_list(
            (indent + 4) as nat,
            device_bodies((indent + 6) as nat, devices@),
            devices@.len() as int,
        ),
{
    let ghost bodies = device_bodies((indent + 6) as nat, devices@);
    let ghost start = out@;
    let total: usize = devices.len();
    let mut i: usize = 0;
    assert(out@ =~= start + object_list((indent + 4) as nat, bodies.take(0), total as int));
    while i < total
        invariant
            indent + 6 <= usize::MAX,
            total == devices@.len(),
            i <= total,
            bodies == device_bodies((indent + 6) as nat, devices@),
            out@ == start + object_list((indent + 4) as nat, bodies.take(i as int), total as int),
        decreases total - i,
    {
        push_opening(out, indent + 4);
        push_device(out, indent + 6, &devices[i]);
        push_ending(out, indent + 4, i + 1 < total);
        proof {
            lemma_one_more_object(start, (indent + 4) as nat, bodies, i as int, total as int);
        }
        i = i + 1;
    }
    assert(bodies.take(total as int) =~= bodies);
}

/// Writes the summary of the graphics devices of a run.
pub fn render_gpu_run_json(out: &mut String, gpu: &Option<GpuRunSummary>, indent: usize)
    requires
        indent + 6 <= usize::MAX,
    ensures
        final(out)@ == old(out)@ + gpu_json(*gpu, indent as nat),
{
    let g = match gpu {
        None => {
            out.push_str("null");
            return;
        },
        Some(g) => g,
    };
    let ghost start = out@;
    out.push('{');
    out.push('\n');
    let ghost begun = seq!['{', '\n'];
    assert(out@ =~= start + begun);
    push_gpu_fields(out, indent + 2, g);
    let ghost named = begun + open_fields((indent + 2) as nat, gpu_fields(*g)) + spaces(
        (indent + 2) as nat,
    ) + "\"devices\": [\n"@;
    push_spaces(out, indent + 2);
    out.push_str("\"devices\": [\n");
    assert(out@ =~= start + named);
    let ghost listed = named + object_list(
        (indent + 4) as nat,
        device_bodies((indent + 6) as nat, g.devices@),
        g.devices@.len() as int,
    );
    push_devices(out, indent, &g.devices);
    assert(out@ =~= start + listed);
    push_spaces(out, indent + 2);
    out.push(']');
    out.push('\n');
    push_spaces(out, indent);
    out.push('}');
    assert(out@ =~= start + (listed + spaces((indent + 2) as nat) + seq![']', '\n'] + spaces(
        indent as nat,
    ) + seq!['}']));
}

fn push_gpu_fields(out: &mut String, indent: usize, g: &GpuRunSummary)
    ensures
        final(out)@ == old(out)@ + open_fields(indent as nat, gpu_fields(*g)),
{
    let fields: Vec<Field> = vec![
        Field { name: "sample_count", value: Value::Number(g.sample_count as u128) },
        Field {
            name: "collection_error",
            value: match &g.collection_error {
                Some(e) => Value::Text(e.clone()),
                None => Value::Null,
            },
        },
    ];
    assert(fields_view(fields@) =~= gpu_fields(*g));
    push_open_fields(out, indent, &fields);
}

/// What one run measured.
#[derive(Debug)]
pub struct BenchmarkRun {
    pub run_index: usize,
    pub elapsed_ms: u128,
    pub total_files: usize,
    pub new_items: usize,
    pub cached_items: usize,
    pub error_count: usize,
    pub files_per_sec: Double,
    pub load_items_ms: u128,
    pub loaded_items: usize,
    pub layout_rows: usize,
    pub layout_total_ms: u128,
    pub layout_frames_simulated: usize,
    pub layout_frame_p50_ms: Double,
    pub layout_frame_p95_ms: Double,
    pub layout_frames_over_16ms: usize,
    pub layout_frames_over_33ms: usize,
    pub thumb_images_total: usize,
    pub thumb_images_selected: usize,
    pub thumb_images_visible: usize,
    pub thumb_images_generated: usize,
    pub thumb_images_skipped_cached: usize,
    pub thumb_images_failed: usize,
    pub thumb_total_ms: u128,
    pub thumb_time_to_visible_ms: u128,
    pub thumb_end_to_end_avg_ms: Double,
    pub thumb_end_to_end_p95_ms: Double,
    pub thumb_queue_wait_avg_ms: Double,
    pub thumb_queue_wait_p95_ms: Double,
    pub thumb_worker_avg_ms: Double,
    pub thumb_worker_p95_ms: Double,
    pub thumb_decode_avg_ms: Double,
    pub thumb_decode_p95_ms: Double,
    pub thumb_resize_avg_ms: Double,
    pub thumb_resize_p95_ms: Double,
    pub thumb_encode_avg_ms: Double,
    pub thumb_encode_p95_ms: Double,
    pub thumb_workers: usize,
    pub thumb_resize_mode: String,
    pub thumb_nv_offload_enabled: bool,
    pub thumb_nv_offload_available: bool,
    pub thumb_nv_offload_attempted: usize,
    pub thumb_nv_offload_used: usize,
    pub gpu: Option<GpuRunSummary>,
}

/// What all runs measured together.
#[derive(Debug)]
pub struct BenchmarkAggregate {
    pub runs: usize,
    pub avg_elapsed_ms: Double,
    pub min_elapsed_ms: u128,
    pub max_elapsed_ms: u128,
    pub avg_files_per_sec: Double,
    pub avg_layout_p95_ms: Double,
    pub avg_thumb_p95_ms: Double,
    pub avg_thumb_visible_ms: Double,
}

/// A benchmark report.
#[derive(Debug)]
pub struct BenchmarkReport {
    pub schema_version: u32,
    pub generated_at_unix_ms: u128,
    pub benchmark: String,
    pub path: String,
    pub runs_requested: usize,
    pub cold_cache: bool,
    pub thumb_limit: usize,
    pub thumb_timeout_ms: u64,
    pub thumb_workers: usize,
    pub thumb_visible_count: usize,
    pub thumb_fast_resize: bool,
    pub thumb_nv_offload: bool,
    pub gpu_telemetry_enabled: bool,
    pub gpu_sample_ms: u64,
    pub db_path: String,
    pub thumbs_dir: String,
    pub results: Vec<BenchmarkRun>,
    pub aggregate: BenchmarkAggregate,
}

/// How a truth value is written.
pub open spec fn flag_text(b: bool) -> Seq<char> {
    if b {
        "true"@
    } else {
        "false"@
    }
}

/// The fields of a run that concern the scan and the layout.
pub open spec fn scan_fields(r: BenchmarkRun) -> Seq<(Seq<char>, Seq<char>)> {
    seq![
        ("run_index"@, decimal(r.run_index as nat)),
        ("elapsed_ms"@, decimal(r.elapsed_ms as nat)),
        ("total_files"@, decimal(r.total_files as nat)),
        ("new_items"@, decimal(r.new_items as nat)),
        ("cached_items"@, decimal(r.cached_items as nat)),
        ("error_count"@, decimal(r.error_count as nat)),
        ("files_per_sec"@, three_decimals(r.files_per_sec)),
        ("load_items_ms"@, decimal(r.load_items_ms as nat)),
        ("loaded_items"@, decimal(r.loaded_items as nat)),
        ("layout_rows"@, decimal(r.layout_rows as nat)),
        ("layout_total_ms"@, decimal(r.layout_total_ms as nat)),
        ("layout_frames_simulated"@, decimal(r.layout_frames_simulated as nat)),
        ("layout_frame_p50_ms"@, three_decimals(r.layout_frame_p50_ms)),
        ("layout_frame_p95_ms"@, three_decimals(r.layout_frame_p95_ms)),
        ("layout_frames_over_16ms"@, decimal(r.layout_frames_over_16ms as nat)),
        ("layout_frames_over_33ms"@, decimal(r.layout_frames_over_33ms as nat)),
    ]
}

/// The fields of a run that count thumbnails.
pub open spec fn thumb_count_fields(r: BenchmarkRun) -> Seq<(Seq<char>, Seq<char>)> {
    seq![
        ("thumb_images_total"@, decimal(r.thumb_images_total as nat)),
        ("thumb_images_selected"@, decimal(r.thumb_images_selected as nat)),
        ("thumb_images_visible"@, decimal(r.thumb_images_visible as nat)),
        ("thumb_images_generated"@, decimal(r.thumb_images_generated as nat)),
        ("thumb_images_skipped_cached"@, decimal(r.thumb_images_skipped_cached as nat)),
        ("thumb_images_failed"@, decimal(r.thumb_images_failed as nat)),
        ("thumb_total_ms"@, decimal(r.thumb_total_ms as nat)),
        ("thumb_time_to_visible_ms"@, decimal(r.thumb_time_to_visible_ms as nat)),
    ]
}

/// The fields of a run that time thumbnails.
pub open spec fn thumb_time_fields(r: BenchmarkRun) -> Seq<(Seq<char>, Seq<char>)> {
    seq![
        ("thumb_end_to_end_avg_ms"@, three_decimals(r.thumb_end_to_end_avg_ms)),
        ("thumb_end_to_end_p95_ms"@, three_decimals(r.thumb_end_to_end_p95_ms)),
        ("thumb_queue_wait_avg_ms"@, three_decimals(r.thumb_queue_wait_avg_ms)),
        ("thumb_queue_wait_p95_ms"@, three_decimals(r.thumb_queue_wait_p95_ms)),
        ("thumb_worker_avg_ms"@, three_decimals(r.thumb_worker_avg_ms)),
        ("thumb_worker_p95_ms"@, three_decimals(r.thumb_worker_p95_ms)),
        ("thumb_decode_avg_ms"@, three_decimals(r.thumb_decode_avg_ms)),
        ("thumb_decode_p95_ms"@, three_decimals(r.thumb_decode_p95_ms)),
        ("thumb_resize_avg_ms"@, three_decimals(r.thumb_resize_avg_ms)),
        ("thumb_resize_p95_ms"@, three_decimals(r.thumb_resize_p95_ms)),
        ("thumb_encode_avg_ms"@, three_decimals(r.thumb_encode_avg_ms)),
        ("thumb_encode_p95_ms"@, three_decimals(r.thumb_encode_p95_ms)),
    ]
}

/// The fields of a run that tell how thumbnails were made.
pub open spec fn thumb_mode_fields(r: BenchmarkRun) -> Seq<(Seq<char>, Seq<char>)> {
    seq![
        ("thumb_workers"@, decimal(r.thumb_workers as nat)),
        ("thumb_resize_mode"@, quoted(r.thumb_resize_mode@)),
        ("thumb_nv_offload_enabled"@, flag_text(r.thumb_nv_offload_enabled)),
        ("thumb_nv_offload_available"@, flag_text(r.thumb_nv_offload_available)),
        ("thumb_nv_offload_attempted"@, decimal(r.thumb_nv_offload_attempted as nat)),
        ("thumb_nv_offload_used"@, decimal(r.thumb_nv_offload_used as nat)),
    ]
}

/// The body of the object of a run.
#[verifier::opaque]
pub open spec fn run_body(r: BenchmarkRun) -> Seq<char> {
    open_fields(6, scan_fields(r)) + open_fields(6, thumb_count_fields(r)) + open_fields(
        6,
        thumb_time_fields(r),
    ) + open_fields(6, thumb_mode_fields(r)) + "      \"gpu\": "@ + gpu_json(r.gpu, 6) + seq!['\n']
}

/// The bodies of the objects of some runs.
pub open spec fn run_bodies(runs: Seq<BenchmarkRun>) -> Seq<Seq<char>> {
    Seq::new(runs.len(), |i: int| run_body(runs[i]))
}

/// The fields that a report begins with.
pub open spec fn report_fields(r: BenchmarkReport) -> Seq<(Seq<char>, Seq<char>)> {
    seq![
        ("schema_version"@, decimal(r.schema_version as nat)),
        ("generated_at_unix_ms"@, decimal(r.generated_at_unix_ms as nat)),
        ("benchmark"@, quoted(r.benchmark@)),
        ("path"@, quoted(r.path@)),
        ("runs_requested"@, decimal(r.runs_requested as nat)),
        ("cold_cache"@, flag_text(r.cold_cache)),
        ("thumb_limit"@, decimal(r.thumb_limit as nat)),
        ("thumb_timeout_ms"@, decimal(r.thumb_timeout_ms as nat)),
        ("thumb_workers"@, decimal(r.thumb_workers as nat)),
        ("thumb_visible_count"@, decimal(r.thumb_visible_count as nat)),
        ("thumb_fast_resize"@, flag_text(r.thumb_fast_resize)),
        ("thumb_nv_offload"@, flag_text(r.thumb_nv_offload)),
        ("gpu_telemetry_enabled"@, flag_text(r.gpu_telemetry_enabled)),
        ("gpu_sample_ms"@, decimal(r.gpu_sample_ms as nat)),
        ("db_path"@, quoted(r.db_path@)),
        ("thumbs_dir"@, quoted(r.thumbs_dir@)),
    ]
}

/// The fields of the aggregate.
pub open spec fn aggregate_fields(a: BenchmarkAggregate) -> Seq<(Seq<char>, Seq<char>)> {
    seq![
        ("runs"@, decimal(a.runs as nat)),
        ("avg_elapsed_ms"@, three_decimals(a.avg_elapsed_ms)),
        ("min_elapsed_ms"@, decimal(a.min_elapsed_ms as nat)),
        ("max_elapsed_ms"@, decimal(a.max_elapsed_ms as nat)),
        ("avg_files_per_sec"@, three_decimals(a.avg_files_per_sec)),
        ("avg_layout_p95_ms"@, three_decimals(a.avg_layout_p95_ms)),
        ("avg_thumb_p95_ms"@, three_decimals(a.avg_thumb_p95_ms)),
        ("avg_thumb_visible_ms"@, three_decimals(a.avg_thumb_visible_ms)),
    ]
}

/// How a report is written.
pub open spec fn report_json(r: BenchmarkReport) -> Seq<char> {
    seq!['{', '\n'] + open_fields(2, report_fields(r)) + "  \"results\": [\n"@ + object_list(
        4,
        run_bodies(r.results@),
        r.results@.len() as int,
    ) + "  ],\n"@ + "  \"aggregate\": {\n"@ + closing_fields(4, aggregate_fields(r.aggregate))
        + "  }\n"@ + "}\n"@
}

fn text_field(name: &'static str, s: &String) -> (r: Field)
    ensures
        field_view(r) == (name@, quoted(s@)),
{
    Field { name, value: Value::Text(s.clone()) }
}

fn number_field(name: &'static str, n: u128) -> (r: Field)
    ensures
        field_view(r) == (name@, decimal(n as nat)),
{
    Field { name, value: Value::Number(n) }
}

fn count_field(name: &'static str, n: usize) -> (r: Field)
    ensures
        field_view(r) == (name@, decimal(n as nat)),
{
    Field { name, value: Value::Number(n as u128) }
}

fn flag_field(name: &'static str, b: bool) -> (r: Field)
    ensures
        field_view(r) == (name@, flag_text(b)),
{
    Field { name, value: Value::Flag(b) }
}

fn fraction_field(name: &'static str, d: Double) -> (r: Field)
    ensures
        field_view(r) == (name@, three_decimals(d)),
{
    Field { name, value: Value::Fraction(d) }
}

fn push_run(out: &mut String, r: &BenchmarkRun)
    ensures
        final(out)@ == old(out)@ + run_body(*r),
{
    let scan: Vec<Field> = vec![
        count_field("run_index", r.run_index),
        number_field("elapsed_ms", r.elapsed_ms),
        count_field("total_files", r.total_files),
        count_field("new_items", r.new_items),
        count_field("cached_items", r.cached_items),
        count_field("error_count", r.error_count),
        fraction_field("files_per_sec", r.files_per_sec),
        number_field("load_items_ms", r.load_items_ms),
        count_field("loaded_items", r.loaded_items),
        count_field("layout_rows", r.layout_rows),
        number_field("layout_total_ms", r.layout_total_ms),
        count_field("layout_frames_simulated", r.layout_frames_simulated),
        fraction_field("layout_frame_p50_ms", r.layout_frame_p50_ms),
        fraction_field("layout_frame_p95_ms", r.layout_frame_p95_ms),
        count_field("layout_frames_over_16ms", r.layout_frames_over_16ms),
        count_field("layout_frames_over_33ms", r.layout_frames_over_33ms),
    ];
    assert(fields_view(scan@) =~= scan_fields(*r));
    push_open_fields(out, 6, &scan);
    let counts: Vec<Field> = vec![
        count_field("thumb_images_total", r.thumb_images_total),
        count_field("thumb_images_selected", r.thumb_images_selected),
        count_field("thumb_images_visible", r.thumb_images_visible),
        count_field("thumb_images_generated", r.thumb_images_generated),
        count_field("thumb_images_skipped_cached", r.thumb_images_skipped_cached),
        count_field("thumb_images_failed", r.thumb_images_failed),
        number_field("thumb_total_ms", r.thumb_total_ms),
        number_field("thumb_time_to_visible_ms", r.thumb_time_to_visible_ms),
    ];
    assert(fields_view(counts@) =~= thumb_count_fields(*r));
    push_open_fields(out, 6, &counts);
    let times: Vec<Field> = vec![
        fraction_field("thumb_end_to_end_avg_ms", r.thumb_end_to_end_avg_ms),
        fraction_field("thumb_end_to_end_p95_ms", r.thumb_end_to_end_p95_ms),
        fraction_field("thumb_queue_wait_avg_ms", r.thumb_queue_wait_avg_ms),
        fraction_field("thumb_queue_wait_p95_ms", r.thumb_queue_wait_p95_ms),
        fraction_field("thumb_worker_avg_ms", r.thumb_worker_avg_ms),
        fraction_field("thumb_worker_p95_ms", r.thumb_worker_p95_ms),
        fraction_field("thumb_decode_avg_ms", r.thumb_decode_avg_ms),
        fraction_field("thumb_decode_p95_ms", r.thumb_decode_p95_ms),
        fraction_field("thumb_resize_avg_ms", r.thumb_resize_avg_ms),
        fraction_field("thumb_resize_p95_ms", r.thumb_resize_p95_ms),
        fraction_field("thumb_encode_avg_ms", r.thumb_encode_avg_ms),
        fraction_field("thumb_encode_p95_ms", r.thumb_encode_p95_ms),
    ];
    assert(fields_view(times@) =~= thumb_time_fields(*r));
    push_open_fields(out, 6, &times);
    let modes: Vec<Field> = vec![
        count_field("thumb_workers", r.thumb_workers),
        text_field("thumb_resize_mode", &r.thumb_resize_mode),
        flag_field("thumb_nv_offload_enabled", r.thumb_nv_offload_enabled),
        flag_field("thumb_nv_offload_available", r.thumb_nv_offload_available),
        count_field("thumb_nv_offload_attempted", r.thumb_nv_offload_attempted),
        count_field("thumb_nv_offload_used", r.thumb_nv_offload_used),
    ];
    assert(fields_view(modes@) =~= thumb_mode_fields(*r));
    push_open_fields(out, 6, &modes);
    out.push_str("      \"gpu\": ");
    render_gpu_run_json(out, &r.gpu, 6);
    out.push('\n');
    proof {
        reveal(run_body);
    }
    assert(out@ =~= old(out)@ + run_body(*r));
}

fn push_results(out: &mut String, runs: &Vec<BenchmarkRun>)
    ensures
        final(out)@ == old(out)@ + object_list(4, run_bodies(runs@), runs@.len() as int),
{
    let ghost bodies = run_bodies(runs@);
    let total: usize = runs.len();
    let mut i: usize = 0;
    assert(out@ =~= old(out)@ + object_list(4, bodies.take(0), total as int));
    while i < total
        invariant
            total == runs@.len(),
            i <= total,
            bodies == run_bodies(runs@),
            out@ == old(out)@ + object_list(4, bodies.take(i as int), total as int),
        decreases total - i,
    {
        push_opening(out, 4);
        push_run(out, &runs[i]);
        push_ending(out, 4, i + 1 < total);
        proof {
            lemma_one_more_object(old(out)@, 4, bodies, i as int, total as int);
        }
        i = i + 1;
    }
    assert(bodies.take(total as int) =~= bodies);
}

fn push_report_head(out: &mut String, report: &BenchmarkReport)
    ensures
        final(out)@ == old(out)@ + open_fields(2, report_fields(*report)),
{
    let fields: Vec<Field> = vec![
        number_field("schema_version", report.schema_version as u128),
        number_field("generated_at_unix_ms", report.generated_at_unix_ms),
        text_field("benchmark", &report.benchmark),
        text_field("path", &report.path),
        count_field("runs_requested", report.runs_requested),
        flag_field("cold_cache", report.cold_cache),
        count_field("thumb_limit", report.thumb_limit),
        number_field("thumb_timeout_ms", report.thumb_timeout_ms as u128),
        count_field("thumb_workers", report.thumb_workers),
        count_field("thumb_visible_count", report.thumb_visible_count),
        flag_field("thumb_fast_resize", report.thumb_fast_resize),
        flag_field("thumb_nv_offload", report.thumb_nv_offload),
        flag_field("gpu_telemetry_enabled", report.gpu_telemetry_enabled),
        number_field("gpu_sample_ms", report.gpu_sample_ms as u128),
        text_field("db_path", &report.db_path),
        text_field("thumbs_dir", &report.thumbs_dir),
    ];
    assert(fields_view(fields@) =~= report_fields(*report));
    push_open_fields(out, 2, &fields);
}

fn push_aggregate(out: &mut String, a: &BenchmarkAggregate)
    ensures
        final(out)@ == old(out)@ + closing_fields(4, aggregate_fields(*a)),
{
    let fields: Vec<Field> = vec![
        count_field("runs", a.runs),
        fraction_field("avg_elapsed_ms", a.avg_elapsed_ms),
        number_field("min_elapsed_ms", a.min_elapsed_ms),
        number_field("max_elapsed_ms", a.max_elapsed_ms),
        fraction_field("avg_files_per_sec", a.avg_files_per_sec),
        fraction_field("avg_layout_p95_ms", a.avg_layout_p95_ms),
        fraction_field("avg_thumb_p95_ms", a.avg_thumb_p95_ms),
        fraction_field("avg_thumb_visible_ms", a.avg_thumb_visible_ms),
    ];
    assert(fields_view(fields@) =~= aggregate_fields(*a));
    push_closing_fields(out, 4, &fields);
}

/// Writes a report as JSON.
pub fn render_report_json(report: &BenchmarkReport) -> (r: String)
    ensures
        r@ == report_json(*report),
{
    let mut out = String::new();
    out.push('{');
    out.push('\n');
    assert(out@ =~= seq!['{', '\n']);
    push_report_head(&mut out, report);
    out.push_str("  \"results\": [\n");
    push_results(&mut out, &report.results);
    out.push_str("  ],\n");
    out.push_str("  \"aggregate\": {\n");
    push_aggregate(&mut out, &report.aggregate);
    out.push_str("  }\n");
    out.push_str("}\n");
    out
}

proof fn lemma_escaped_char_is_safe(c: char)
    ensures
        escaped_char(c).len() > 0,
        forall|i: int| 0 <= i < escaped_char(c).len() ==> !is_control(#[trigger] escaped_char(c)[i]),
        forall|i: int|
            0 <= i < escaped_char(c).len() && #[trigger] escaped_char(c)[i] == '"' ==> i > 0
                && escaped_char(c)[i - 1] == '\\',
{
    reveal_with_fuel(hex_digits, 5);
    let n = c as u32 as nat;
    let h = hex_digits(n, 4);
    assert(h.len() == 4);
    assert(h[3] == crate::text::hex_char(n % 16));
    assert(h[2] == crate::text::hex_char(n / 16 % 16));
    assert(h[1] == crate::text::hex_char(n / 16 / 16 % 16));
    assert(h[0] == crate::text::hex_char(n / 16 / 16 / 16 % 16));
}

/// Whatever a text holds, its written form has no control character, and every
/// quotation mark in it has a backslash before it.
pub proof fn escaped_text_is_safe(s: Seq<char>)
    ensures
        forall|i: int| 0 <= i < escaped(s).len() ==> !is_control(#[trigger] escaped(s)[i]),
        forall|i: int|
            0 <= i < escaped(s).len() && #[trigger] escaped(s)[i] == '"' ==> i > 0 && escaped(
                s,
            )[i - 1] == '\\',
    decreases s.len(),
{
    if s.len() > 0 {
        let head = escaped(s.drop_last());
        let tail = escaped_char(s.last());
        escaped_text_is_safe(s.drop_last());
        lemma_escaped_char_is_safe(s.last());
        assert forall|i: int| 0 <= i < escaped(s).len() implies !is_control(
            #[trigger] escaped(s)[i],
        ) by {
            if i >= head.len() {
                assert(escaped(s)[i] == tail[i - head.len()]);
            }
        }
        assert forall|i: int|
            0 <= i < escaped(s).len() && #[trigger] escaped(s)[i] == '"' implies i > 0 && escaped(
            s,
        )[i - 1] == '\\' by {
            if i >= head.len() {
                assert(escaped(s)[i] == tail[i - head.len()]);
                assert(escaped(s)[i - 1] == tail[i - 1 - head.len()]);
            } else {
                assert(escaped(s)[i] == head[i]);
            }
        }
    }
}

proof fn lemma_escaped_from_front(s: Seq<char>)
    requires
        s.len() > 0,
    ensures
        escaped(s) == escaped_char(s[0]) + escaped(s.skip(1)),
    decreases s.len(),
{
    if s.len() == 1 {
        assert(escaped(s.drop_last()) =~= seq![]);
        assert(escaped(s.skip(1)) =~= seq![]);
        assert(escaped(s) =~= escaped_char(s[0]) + escaped(s.skip(1)));
    } else {
        let rest = s.drop_last();
        lemma_escaped_from_front(rest);
        assert(rest.skip(1) =~= s.skip(1).drop_last());
        assert(s.skip(1).last() == s.last());
        assert(escaped(s) =~= escaped_char(s[0]) + escaped(s.skip(1)));
    }
}

proof fn lemma_control_digits(c: char)
    requires
        is_control(c),
    ensures
        hex_digits(c as u32 as nat, 4).len() == 4,
        hex_digits(c as u32 as nat, 4)[2] == crate::text::hex_char(c as u32 as nat / 16),
        hex_digits(c as u32 as nat, 4)[3] == crate::text::hex_char(c as u32 as nat % 16),
        c as u32 as nat / 16 < 16,
{
    reveal_with_fuel(hex_digits, 5);
}

/// The first character of a text is told by the beginning of what is written.
proof fn lemma_first_is_told(a: char, b: char, x: Seq<char>, y: Seq<char>)
    requires
        escaped_char(a) + x == escaped_char(b) + y,
    ensures
        a == b,
        x == y,
{
    let (p, q) = (escaped_char(a), escaped_char(b));
    let all = p + x;
    lemma_escaped_char_is_safe(a);
    lemma_escaped_char_is_safe(b);
    if is_control(a) {
        lemma_control_digits(a);
    }
    if is_control(b) {
        lemma_control_digits(b);
    }
    assert(all[0] == p[0] && all[0] == q[0]);
    if p.len() > 1 {
        assert(all[1] == p[1]);
    }
    if q.len() > 1 {
        assert(all[1] == q[1]);
    }
    if p.len() > 2 && q.len() > 2 {
        assert(all[4] == p[4] && all[4] == q[4]);
        assert(all[5] == p[5] && all[5] == q[5]);
    }
    assert(a == b);
    assert(x =~= all.skip(p.len() as int));
    assert(y =~= all.skip(q.len() as int));
}

/// A text reads back from its written form: two texts never share one.
pub proof fn escaped_text_reads_back(s: Seq<char>, t: Seq<char>)
    ensures
        escaped(s) == escaped(t) ==> s == t,
    decreases s.len(),
{
    if escaped(s) == escaped(t) {
        if s.len() > 0 {
            lemma_escaped_from_front(s);
            lemma_escaped_char_is_safe(s[0]);
        }
        if t.len() > 0 {
            lemma_escaped_from_front(t);
            lemma_escaped_char_is_safe(t[0]);
        }
        if s.len() > 0 && t.len() > 0 {
            lemma_first_is_told(s[0], t[0], escaped(s.skip(1)), escaped(t.skip(1)));
            escaped_text_reads_back(s.skip(1), t.skip(1));
            assert(s =~= seq![s[0]] + s.skip(1));
            assert(t =~= seq![t[0]] + t.skip(1));
        } else {
            assert(s =~= t);
        }
    }
}

} // verus!
