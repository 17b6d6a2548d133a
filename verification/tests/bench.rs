use idxd::bench::args::{maybe_parse_args, ArgsError, BenchmarkArgs, ValueFlag};
use idxd::bench::gpu::{
    apply_nvidia_smi_fallback, card_number, group_gpu_samples, is_card_device_name,
    is_nvidia_vendor, nvidia_samples_as_devices, parse_nvidia_smi, summarize_gpu_samples,
    GpuDeviceSnapshot, GpuSample, NvidiaSmiSample,
};
use idxd::bench::metrics::{files_per_second, layout_metrics, thumb_metrics, ThumbResult};
use idxd::bench::plan::{
    assemble_report, assemble_run, build_aggregate, cache_files, check_target, count_outcomes,
    layout_windows, merge_devices, phase_workers, plan_thumbnails, progress_line, read_trimmed,
    read_u64, report_file_name, sample_interval_ms, thumb_outcome, timeout_line, total_elapsed,
    PhaseEvent, PhaseProgress, PhaseStep, RunMetrics, ScanCounts, TargetError, TaskState,
    ThumbOffloadConfig,
};
use idxd::bench::report::{
    escape_json, render_gpu_run_json, render_report_json, write_optional_u64, BenchmarkRun,
    GpuDeviceSummary, GpuRunSummary,
};
use idxd::double::Double;
use idxd::models::media_item::MediaItem;
use idxd::thumbnails::generator::ResizeMode;

fn double(x: f64) -> Double {
    Double { bits: x.to_bits() }
}

fn number(x: Double) -> f64 {
    f64::from_bits(x.bits)
}

fn words(list: &[&str]) -> Vec<String> {
    list.iter().map(|w| w.to_string()).collect()
}

fn args(list: &[&str]) -> Result<Option<BenchmarkArgs>, ArgsError> {
    maybe_parse_args(&words(list))
}

#[test]
fn command_lines_without_a_benchmark() {
    assert!(matches!(args(&["idxd"]), Ok(None)));
    assert!(matches!(args(&["idxd", "/pics"]), Ok(None)));
}

#[test]
fn command_lines_with_a_benchmark() {
    let parsed = args(&[
        "idxd", "--benchmark", "--path", "/pics", "--runs", "3", "--cold-cache", "--thumb-workers", "2",
    ])
    .unwrap()
    .unwrap();
    assert_eq!(parsed.path, "/pics");
    assert_eq!(parsed.runs, 3);
    assert!(parsed.cold_cache);
    assert_eq!(parsed.thumb_workers, 2);
}

#[test]
fn command_lines_with_faults() {
    let fault = |list: &[&str]| match args(list) {
        Err(e) => e,
        Ok(_) => panic!("accepted"),
    };
    assert_eq!(
        fault(&["idxd", "--benchmark", "--path"]),
        ArgsError::MissingValue(ValueFlag::Path)
    );
    assert_eq!(
        fault(&["idxd", "--benchmark", "--path", "/p", "--runs", "x"]),
        ArgsError::BadNumber(ValueFlag::Runs)
    );
    assert_eq!(fault(&["idxd", "--benchmark", "--path", "/p", "--runs", "0"]), ArgsError::ZeroRuns);
    assert_eq!(
        fault(&["idxd", "--benchmark", "--path", "/p", "--thumb-workers", "0"]),
        ArgsError::ZeroWorkers
    );
    assert_eq!(
        fault(&["idxd", "--benchmark", "--path", "/p", "--gpu-sample-ms", "0"]),
        ArgsError::ZeroSampleMs
    );
    assert_eq!(fault(&["idxd", "--benchmark"]), ArgsError::NoPath);
    assert!(!ArgsError::NoPath.message().is_empty());
    assert_ne!(ArgsError::ZeroRuns.message(), ArgsError::ZeroWorkers.message());
}

#[test]
fn cards_and_vendors() {
    assert!(is_card_device_name("card0") && is_card_device_name("card12"));
    assert!(!is_card_device_name("card") && !is_card_device_name("card0-HDMI") && !is_card_device_name("render0"));
    assert!(is_nvidia_vendor("0x10DE") && !is_nvidia_vendor("0x1002"));
    assert_eq!(card_number("card7"), 7);
    assert_eq!(card_number("cardx"), u32::MAX);
    assert_eq!(card_number("gpu1"), u32::MAX);
}

#[test]
fn lines_of_the_nvidia_tool() {
    let rows = parse_nvidia_smi("17, 1024, 8192\nbroken\n 3 , 1 , 2 \n");
    assert_eq!(rows.len(), 2);
    assert_eq!(rows[0].gpu_util_percent, "17");
    assert_eq!(rows[0].memory_used_bytes, 1024 * 1024 * 1024);
    assert_eq!(rows[0].memory_total_bytes, 8192 * 1024 * 1024);
    assert_eq!(rows[1].gpu_util_percent, "3");
}

fn snapshot(card: &str, vendor: &str, busy: Option<f64>, used: Option<u64>, total: Option<u64>) -> GpuDeviceSnapshot {
    GpuDeviceSnapshot {
        card: card.to_string(),
        vendor: vendor.to_string(),
        busy_percent: busy.map(double),
        vram_used_bytes: used,
        vram_total_bytes: total,
    }
}

fn smi(util: f64) -> NvidiaSmiSample {
    NvidiaSmiSample { gpu_util_percent: double(util), memory_used_bytes: 5, memory_total_bytes: 50 }
}

#[test]
fn gaps_are_filled_from_the_nvidia_tool() {
    let devices = vec![
        snapshot("card0", "0x1002", Some(10.0), None, None),
        snapshot("card1", "0x10de", None, None, None),
    ];
    let filled = apply_nvidia_smi_fallback(devices, &vec![smi(33.0)]);
    let nvidia = filled.iter().find(|d| d.card == "card1").unwrap();
    assert_eq!(nvidia.busy_percent.map(number), Some(33.0));
    assert_eq!(nvidia.vram_used_bytes, Some(5));
    let other = filled.iter().find(|d| d.card == "card0").unwrap();
    assert_eq!(other.busy_percent.map(number), Some(10.0));
    assert_eq!(other.vram_used_bytes, None);

    let alone = nvidia_samples_as_devices(&vec![smi(1.0), smi(2.0)]);
    assert_eq!(alone.len(), 2);
    assert_eq!(alone[1].busy_percent.map(number), Some(2.0));

    assert!(merge_devices(vec![], &None).is_none());
    assert_eq!(merge_devices(vec![], &Some(vec![smi(4.0)])).unwrap().len(), 1);
}

fn gpu_samples() -> Vec<GpuSample> {
    vec![
        GpuSample {
            t_ms: 0,
            devices: vec![
                snapshot("card1", "", Some(10.0), Some(25), Some(100)),
                snapshot("card0", "0x1002", None, None, None),
            ],
        },
        GpuSample {
            t_ms: 100,
            devices: vec![
                snapshot("card1", "0x10de", Some(30.0), Some(50), Some(200)),
                snapshot("card1", "0x1", Some(20.0), Some(40), Some(0)),
            ],
        },
    ]
}

#[test]
fn samples_are_grouped_by_card() {
    let groups = group_gpu_samples(&gpu_samples());
    assert_eq!(groups.len(), 2);
    assert_eq!(groups[0].card, "card0");
    assert_eq!(groups[1].samples, 3);
    assert_eq!(groups[1].vendor, "0x10de");
    assert_eq!(groups[1].vram_used_of_total, vec![(25, 100), (50, 200)]);

    let summary = summarize_gpu_samples(&gpu_samples(), Some("late".to_string()));
    assert_eq!(summary.sample_count, 2);
    assert_eq!(summary.collection_error, Some("late".to_string()));
    let (idle, busy) = (&summary.devices[0], &summary.devices[1]);
    assert_eq!((idle.card.as_str(), idle.samples), ("card0", 1));
    assert!(idle.avg_busy_percent.is_none() && idle.max_busy_percent.is_none());
    assert!(idle.max_vram_used_bytes.is_none() && idle.max_vram_util_percent.is_none());
    assert_eq!(busy.avg_busy_percent.map(number), Some(20.0));
    assert_eq!(busy.max_busy_percent.map(number), Some(30.0));
    assert_eq!(busy.max_vram_used_bytes, Some(50));
    assert_eq!(busy.max_vram_util_percent.map(number), Some(25.0));
    assert!(summarize_gpu_samples(&vec![], None).devices.is_empty());
    let nameless = vec![GpuSample { t_ms: 0, devices: vec![snapshot("card3", "", None, None, None)] }];
    assert_eq!(summarize_gpu_samples(&nameless, None).devices[0].vendor, "unknown");
}

#[test]
fn targets_files_and_numbers() {
    assert_eq!(check_target(false, false), Err(TargetError::Missing));
    assert_eq!(check_target(true, false), Err(TargetError::NotADirectory));
    assert_eq!(check_target(true, true), Ok(()));
    assert_eq!(cache_files("/c/db"), words(&["/c/db", "/c/db-wal", "/c/db-shm"]));
    assert!(report_file_name(123).contains("123"));
    assert_eq!(read_trimmed(" 7\n"), "7");
    assert_eq!(read_u64(" 7\n"), Some(7));
    assert_eq!(read_u64("x"), None);
    assert_eq!(phase_workers(0), 1);
    assert_eq!(phase_workers(3), 3);
    assert!(sample_interval_ms(1) >= 1);
    assert_ne!(ResizeMode::from_flag(true).name(), ResizeMode::from_flag(false).name());
}

#[test]
fn thumbnails_are_planned_in_the_order_of_paths() {
    let item = |p: &str| MediaItem::new(p.to_string(), 10, 10);
    let items = vec![item("/p/c.jpg"), item("/p/a.jpg"), item("/p/clip.mp4"), item("/p/b.png")];
    let plan = plan_thumbnails(&items, 2, 1);
    assert_eq!(plan.tasks, vec![1, 3]);
    assert_eq!((plan.visible, plan.total), (1, 3));
    let all = plan_thumbnails(&items, 0, 10);
    assert_eq!(all.tasks, vec![1, 3, 0]);
    assert_eq!(all.visible, 3);
}

const OFFLOAD: ThumbOffloadConfig = ThumbOffloadConfig { enabled: true, available: true };

#[test]
fn outcomes_are_counted() {
    let outcomes = vec![
        thumb_outcome(true, OFFLOAD, false),
        thumb_outcome(false, OFFLOAD, true),
        thumb_outcome(false, ThumbOffloadConfig { enabled: false, available: true }, false),
    ];
    let counts = count_outcomes(&outcomes);
    assert_eq!((counts.generated, counts.skipped_cached, counts.failed), (1, 1, 1));
    assert_eq!((counts.offload_attempted, counts.offload_used), (1, 0));
}

#[test]
fn phases_end_when_all_is_done_or_given_up() {
    // One worker, a slow thumbnail and a fast one: only the slow one is given up.
    let mut phase = PhaseProgress::new(2, 100);
    assert_eq!(phase.on_event(PhaseEvent::Started(0, 5)), PhaseStep::Wait);
    assert_eq!(phase.on_event(PhaseEvent::Time(100_000_005)), PhaseStep::Wait);
    assert_eq!(phase.on_event(PhaseEvent::Time(100_000_006)), PhaseStep::Skip(0));
    assert_eq!((phase.done, phase.tasks[0], phase.tasks[1]), (1, TaskState::Skipped, TaskState::Waiting));
    assert_eq!(phase.on_event(PhaseEvent::Time(900_000_000)), PhaseStep::Wait);
    assert!(!phase.is_over());
    phase.on_event(PhaseEvent::Started(1, 900_000_000));
    assert_eq!(phase.on_event(PhaseEvent::Result(0)), PhaseStep::Late);
    assert_eq!(phase.on_event(PhaseEvent::Result(1)), PhaseStep::ReportAndEnd(2));
    assert!(phase.is_over());

    let mut phase = PhaseProgress::new(11, 0);
    for task in 0..9 {
        assert_eq!(phase.on_event(PhaseEvent::Result(task)), PhaseStep::Keep);
    }
    phase.on_event(PhaseEvent::Started(9, 0));
    assert_eq!(phase.on_event(PhaseEvent::Time(u128::MAX)), PhaseStep::Wait);
    assert_eq!(phase.on_event(PhaseEvent::Result(9)), PhaseStep::Report(10));
    assert_eq!(phase.on_event(PhaseEvent::Disconnected), PhaseStep::End);
    assert_eq!(phase.tasks[10], TaskState::Lost);
    assert!(phase.is_over() && phase.tasks[9] == TaskState::Done);
    assert!(PhaseProgress::new(0, 7).is_over());
    assert!(progress_line(1, "visible", 2, 9).contains("visible"));
    assert!(timeout_line(1, "visible", 3, 500).contains("500"));
}

#[test]
fn layout_windows_cover_all_items() {
    assert!(layout_windows(0).is_empty());
    assert_eq!(layout_windows(5), vec![(0, 5)]);
    let windows = layout_windows(200);
    assert_eq!(windows, vec![(0, 180), (30, 200)]);
}

fn result(outcome_generated: bool, cache_hit: bool, ms: f64) -> ThumbResult {
    ThumbResult {
        outcome: thumb_outcome(cache_hit, OFFLOAD, outcome_generated),
        queue_wait_ms: double(ms),
        worker_ms: double(2.0 * ms),
        end_to_end_ms: double(3.0 * ms),
        decode_ms: double(4.0 * ms),
        resize_ms: double(5.0 * ms),
        encode_ms: double(6.0 * ms),
    }
}

#[test]
fn metrics_of_phases() {
    let results = vec![result(true, false, 1.0), result(false, true, 3.0), result(true, false, 2.0)];
    let m = thumb_metrics(9, 3, 2, &results, 50, 20, true);
    assert_eq!((m.images_total, m.images_selected, m.images_visible), (9, 3, 2));
    assert_eq!((m.counts.generated, m.counts.skipped_cached, m.counts.failed), (2, 1, 0));
    assert_eq!((m.total_ms, m.time_to_visible_ms), (50, 20));
    assert_eq!((number(m.queue_wait_avg_ms), number(m.queue_wait_p95_ms)), (2.0, 3.0));
    assert_eq!((number(m.worker_avg_ms), number(m.worker_p95_ms)), (4.0, 6.0));
    assert_eq!((number(m.end_to_end_avg_ms), number(m.end_to_end_p95_ms)), (6.0, 9.0));
    // Only thumbnails that were made count for the single steps.
    assert_eq!((number(m.decode_avg_ms), number(m.decode_p95_ms)), (6.0, 8.0));
    assert_eq!((number(m.resize_avg_ms), number(m.resize_p95_ms)), (7.5, 10.0));
    assert_eq!((number(m.encode_avg_ms), number(m.encode_p95_ms)), (9.0, 12.0));

    let frames: Vec<Double> = [1.0, 16.67, 16.68, 40.0].iter().map(|x| double(*x)).collect();
    let l = layout_metrics(7, 12, &frames);
    assert_eq!((l.rows, l.total_ms, l.frames_simulated), (7, 12, 4));
    assert_eq!((number(l.frame_p50_ms), number(l.frame_p95_ms)), (16.68, 40.0));
    assert_eq!((l.frames_over_16ms, l.frames_over_33ms), (2, 1));
    assert_eq!(number(files_per_second(10, double(4.0))), 2.5);
    assert_eq!(number(files_per_second(10, double(0.0))), 10.0);
}

fn run(index: usize, elapsed: u128, files_per_sec: f64) -> BenchmarkRun {
    let parsed = args(&["idxd", "--benchmark", "--path", "/pics"]).unwrap().unwrap();
    assemble_run(
        index,
        &parsed,
        ScanCounts { total_files: 10, new_items: 7, cached_items: 3, error_count: 1 },
        RunMetrics {
            elapsed_ms: elapsed,
            files_per_sec: double(files_per_sec),
            load_items_ms: 5,
            loaded_items: 9,
        },
        layout_metrics(7, 12, &vec![double(1.5)]),
        thumb_metrics(9, 3, 2, &vec![result(true, false, 1.0)], 50, 20, false),
        None,
    )
}

#[test]
fn runs_are_summed_up() {
    let none: Vec<BenchmarkRun> = vec![];
    let empty = build_aggregate(&none);
    assert_eq!((empty.runs, empty.min_elapsed_ms, empty.max_elapsed_ms), (0, 0, 0));
    assert_eq!(number(empty.avg_elapsed_ms), 0.0);

    let runs = vec![run(0, 100, 4.0), run(1, 301, 6.0)];
    assert_eq!(total_elapsed(&runs), Some(401));
    assert_eq!(total_elapsed(&vec![run(0, u128::MAX, 1.0), run(1, 1, 1.0)]), None);
    let all = build_aggregate(&runs);
    assert_eq!((all.runs, all.min_elapsed_ms, all.max_elapsed_ms), (2, 100, 301));
    assert_eq!(number(all.avg_elapsed_ms), 200.5);
    assert_eq!(number(all.avg_files_per_sec), 5.0);
    assert_eq!(number(all.avg_layout_p95_ms), 1.5);
    assert_eq!(number(all.avg_thumb_p95_ms), 3.0);
    assert_eq!(number(all.avg_thumb_visible_ms), 20.0);
}

#[test]
fn reports_are_written_as_json() {
    let parsed = args(&["idxd", "--benchmark", "--path", "/pi\"cs"]).unwrap().unwrap();
    let runs = vec![run(0, 100, 4.0625)];
    let aggregate = build_aggregate(&runs);
    let report = assemble_report(&parsed, 77, "/db".to_string(), "/thumbs".to_string(), runs, aggregate);
    let json = render_report_json(&report);
    assert!(json.starts_with("{\n  \"schema_version\": 4,\n  \"generated_at_unix_ms\": 77,\n"));
    assert!(json.contains("\"path\": \"/pi\\\"cs\""));
    assert!(json.contains("      \"files_per_sec\": 4.062,\n"));
    assert!(json.contains("    \"avg_thumb_visible_ms\": 20.000\n"));
    assert!(json.contains("      \"run_index\": 1,\n"));

    let mut out = String::new();
    render_gpu_run_json(&mut out, &None, 6);
    assert_eq!(out, "null");
    let gpu = GpuRunSummary {
        sample_count: 1,
        devices: vec![GpuDeviceSummary {
            card: "card0".to_string(),
            vendor: "0x1002".to_string(),
            samples: 1,
            avg_busy_percent: Some(double(12.5)),
            max_busy_percent: None,
            max_vram_used_bytes: Some(8),
            max_vram_util_percent: None,
        }],
        collection_error: None,
    };
    let mut out = String::new();
    render_gpu_run_json(&mut out, &Some(gpu), 0);
    assert!(out.contains("\"avg_busy_percent\": 12.500,\n"));
    assert!(out.contains("\"max_busy_percent\": null,\n"));
    assert!(out.contains("\"collection_error\": null,\n"));

    let mut out = String::new();
    write_optional_u64(&mut out, "a: ", Some(5), true);
    write_optional_u64(&mut out, "b: ", None, false);
    assert_eq!(out, "a: 5,\nb: null\n");
    assert_eq!(escape_json("a\"b\\c\n\r\t\u{1}d"), "a\\\"b\\\\c\\n\\r\\t\\u0001d");
}

#[test]
fn written_texts_read_back() {
    let texts = ["", "a", "\\", "\\n", "\n", "n", "\"", "\\\"", "\u{1}", "\\u0001", "\u{1f}", "\u{9f}", "\u{7f}", "\t\r"];
    for a in texts {
        for b in texts {
            assert_eq!(escape_json(a) == escape_json(b), a == b, "{a:?} {b:?}");
        }
    }
    assert_eq!(escape_json("\u{1}"), "\\u0001");
}
