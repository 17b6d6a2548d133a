use idxd::double::Double;
use idxd::ui::keybindings::Key;
use idxd::ui::texture_cache::{CachedTexture, PrefetchKind, TextureCache};
use idxd::ui::viewer::{
    command_for_key, favorite_labels, format_timestamp, is_texture_data, is_video_path,
    known_duration, whole_seconds, ViewerAct, WHEEL_FACTOR,
    loading_text, picture_info_text, play_label, prefetch_cache_bytes, seek_target,
    video_info_text, video_offload_enabled, viewport_decode_target, viewport_rect, zoom_text,
    LoadResult, MediaViewer, PrefetchItem, RetryStep, ShowStep, ViewerCommand, LAYOUT_ATTEMPTS,
    VIDEO_LAYOUT_ATTEMPTS,
};
use idxd::ui::zoom::{bound_scale, MAX_SCALE, MIN_SCALE};

fn double(x: f64) -> Double {
    Double { bits: x.to_bits() }
}

fn number(x: Double) -> f64 {
    f64::from_bits(x.bits)
}

const WIDTH: i32 = 1600;
const HEIGHT: i32 = 960;

fn viewer_with(width: u32, height: u32) -> MediaViewer {
    let mut viewer = MediaViewer::new(1 << 20);
    viewer.show("/pics/a.jpg");
    viewer.handle_load_result(
        LoadResult {
            width: 10,
            height: 10,
            orig_width: width,
            orig_height: height,
            is_preview: false,
            cache_kind: PrefetchKind::Full,
        },
        7,
    );
    viewer
}

#[test]
fn test_scale_clamping() {
    // Test that scale values are properly clamped
    let clamped = bound_scale(double(15.0));
    assert_eq!(clamped.bits, MAX_SCALE);
    assert_eq!(number(clamped), 10.0);

    let clamped = bound_scale(double(0.01));
    assert_eq!(clamped.bits, MIN_SCALE);
    assert_eq!(number(clamped), 0.1);

    let clamped = bound_scale(double(1.0));
    assert_eq!(number(clamped), 1.0);
}

#[test]
fn viewport_leaves_room_for_the_controls() {
    assert_eq!(viewport_rect(WIDTH, HEIGHT), Some((0, 60, WIDTH, 900)));
    assert_eq!(viewport_rect(100, 40), Some((0, 60, 100, 1)));
    assert_eq!(viewport_rect(0, 40), None);
    assert_eq!(viewport_rect(40, -1), None);
    assert_eq!(viewport_decode_target(viewport_rect(WIDTH, HEIGHT)), 2400);
    assert_eq!(viewport_decode_target(viewport_rect(300, 300)), 1024);
    assert_eq!(viewport_decode_target(viewport_rect(9000, 300)), 4096);
    assert_eq!(viewport_decode_target(None), 3072);
}

#[test]
fn fitting_shrinks_but_never_enlarges() {
    let mut viewer = viewer_with(3200, 900);
    let placed = viewer.fit_to_window(WIDTH, HEIGHT);
    assert_eq!(number(viewer.view.scale), 0.5);
    assert_eq!(placed.size, Some((1600, 450)));
    let (x, y) = placed.position.unwrap();
    assert_eq!((number(x), number(y)), (0.0, 60.0 + 225.0));
    assert!(!placed.full_decode);
    assert!(!viewer.user_interacted);

    let mut viewer = viewer_with(100, 50);
    let placed = viewer.fit_to_window(WIDTH, HEIGHT);
    assert_eq!(number(viewer.view.scale), 1.0);
    assert_eq!(placed.size, Some((100, 50)));

    // A picture so large that even the least scale does not show all of it.
    let mut viewer = viewer_with(100_000, 50);
    viewer.fit_to_window(WIDTH, HEIGHT);
    assert_eq!(number(viewer.view.scale), 0.1);

    let mut viewer = viewer_with(3200, 900);
    let nothing = viewer.fit_to_window(0, 0);
    assert!(nothing.size.is_none() && nothing.position.is_none());
    assert_eq!(number(viewer.view.scale), 1.0);
}

#[test]
fn placing_twice_asks_for_nothing() {
    let mut viewer = viewer_with(3200, 900);
    viewer.fit_to_window(WIDTH, HEIGHT);
    let again = viewer.update_transform(WIDTH, HEIGHT);
    assert!(again.size.is_none() && again.position.is_none() && !again.full_decode);
    // A hundredth of a pixel is not worth a move, a whole one is.
    let little = viewer.pan_by(double(0.005), double(0.0), WIDTH, HEIGHT);
    assert!(little.position.is_none());
    let more = viewer.pan_by(double(1.0), double(0.0), WIDTH, HEIGHT);
    assert!(more.position.is_some() && more.size.is_none());
    assert!(viewer.user_interacted);
}

#[test]
fn zooming_by_factors() {
    let mut viewer = viewer_with(200, 100);
    let placed = viewer.zoom_by(double(1.25), WIDTH, HEIGHT);
    assert_eq!(number(viewer.view.scale), 1.25);
    assert_eq!(viewer.percent(), 125);
    assert_eq!(placed.size, Some((250, 125)));
    assert!(placed.full_decode);
    assert!(viewer.user_interacted);
    let placed = viewer.zoom_by(double(0.8), WIDTH, HEIGHT);
    assert_eq!(viewer.percent(), 100);
    assert!(!placed.full_decode);
    viewer.zoom_by(double(1000.0), WIDTH, HEIGHT);
    assert_eq!(number(viewer.view.scale), 10.0);
    viewer.zoom_by(double(0.0), WIDTH, HEIGHT);
    assert_eq!(number(viewer.view.scale), 0.1);
    viewer.set_scale(double(1.0), WIDTH, HEIGHT);
    assert_eq!(viewer.percent(), 100);
}

fn reference_zoom(
    size: (f64, f64),
    room: (f64, f64, f64, f64),
    old: (f64, f64, f64),
    pointer: (f64, f64),
    factor: f64,
) -> Option<(f64, f64, f64)> {
    let (scale, pan_x, pan_y) = old;
    let new_scale = (scale * factor).clamp(0.1, 10.0);
    if (new_scale - scale).abs() < 1e-9 {
        return None;
    }
    let (cx, cy, cw, ch) = room;
    let (sw, sh) = (size.0 * scale, size.1 * scale);
    let px = cx + (cw - sw) / 2.0 + pan_x;
    let py = cy + (ch - sh) / 2.0 + pan_y;
    let inside =
        pointer.0 >= px && pointer.0 <= px + sw && pointer.1 >= py && pointer.1 <= py + sh;
    let ax = if inside { pointer.0 } else { pointer.0.clamp(px, px + sw) };
    let ay = if inside { pointer.1 } else { pointer.1.clamp(py, py + sh) };
    let ix = (ax - px) / scale;
    let iy = (ay - py) / scale;
    let nx = ax - ix * new_scale;
    let ny = ay - iy * new_scale;
    let bx = cx + (cw - size.0 * new_scale) / 2.0;
    let by = cy + (ch - size.1 * new_scale) / 2.0;
    Some((new_scale, nx - bx, ny - by))
}

#[test]
fn zooming_at_a_point_keeps_it_in_place() {
    for (w, h) in [(3000u32, 2000u32), (300, 200), (1, 5000)] {
        let mut viewer = viewer_with(w, h);
        viewer.fit_to_window(WIDTH, HEIGHT);
        let steps = [
            (800.0, 500.0, 1.1),
            (810.0, 480.0, 1.3),
            (5.0, 70.0, 2.0),
            (1599.0, 959.0, 0.7),
            (700.5, 333.25, 1.0 / 1.1),
            (700.5, 333.25, 1.0),
        ];
        for (x, y, factor) in steps {
            let before = (
                number(viewer.view.scale),
                number(viewer.view.pan_x),
                number(viewer.view.pan_y),
            );
            let placed =
                viewer.zoom_at_point_with_factor(double(x), double(y), double(factor), WIDTH, HEIGHT);
            let expected = reference_zoom(
                (w as f64, h as f64),
                (0.0, 60.0, WIDTH as f64, 900.0),
                before,
                (x, y),
                factor,
            );
            match expected {
                Some((scale, pan_x, pan_y)) => {
                    assert_eq!(number(viewer.view.scale), scale);
                    assert_eq!(number(viewer.view.pan_x), pan_x);
                    assert_eq!(number(viewer.view.pan_y), pan_y);
                    assert_eq!(placed.full_decode, scale > 1.0);
                }
                None => {
                    assert!(placed.size.is_none() && placed.position.is_none());
                    assert_eq!(number(viewer.view.scale), before.0);
                }
            }
        }
    }
}

#[test]
fn scrolling_adds_up_to_steps() {
    let mut viewer = viewer_with(300, 200);
    assert_eq!(viewer.scroll(double(0.01)), 0);
    assert_eq!(number(viewer.view.scroll), 0.0);
    assert_eq!(viewer.scroll(double(0.3)), 0);
    assert_eq!(viewer.scroll(double(0.3)), 1);
    assert!((number(viewer.view.scroll) - 0.1).abs() < 1e-12);
    assert_eq!(viewer.scroll(double(-1.7)), -3);
    assert_eq!(viewer.scroll(double(100.0)), 16);
    viewer.reset_view(WIDTH, HEIGHT);
    assert_eq!(number(viewer.view.scroll), 0.0);
    viewer.show("/pics/clip.mp4");
    assert_eq!(viewer.scroll(double(5.0)), 0);
}

#[test]
fn pinching_and_dragging_start_from_where_they_began() {
    let mut viewer = viewer_with(300, 200);
    viewer.set_scale(double(2.0), WIDTH, HEIGHT);
    viewer.pinch_begin();
    viewer.pinch_update(double(1.5), WIDTH, HEIGHT);
    assert_eq!(number(viewer.view.scale), 3.0);
    viewer.pinch_update(double(0.5), WIDTH, HEIGHT);
    assert_eq!(number(viewer.view.scale), 1.0);

    viewer.pan_by(double(10.0), double(-4.0), WIDTH, HEIGHT);
    viewer.drag_begin();
    viewer.drag_update(double(5.0), double(5.0), WIDTH, HEIGHT);
    viewer.drag_update(double(7.0), double(6.0), WIDTH, HEIGHT);
    assert_eq!((number(viewer.view.pan_x), number(viewer.view.pan_y)), (17.0, 2.0));

    viewer.reset_view(WIDTH, HEIGHT);
    assert_eq!(number(viewer.view.scale), 1.0);
    assert_eq!((number(viewer.view.pan_x), number(viewer.view.pan_y)), (0.0, 0.0));

    viewer.show("/pics/clip.mp4");
    let nothing = viewer.drag_update(double(7.0), double(6.0), WIDTH, HEIGHT);
    assert!(nothing.position.is_none());
    assert_eq!(number(viewer.view.pan_x), 0.0);
}

#[test]
fn showing_counts_generations() {
    let mut viewer = MediaViewer::new(1 << 20);
    assert!(!viewer.is_visible());
    assert_eq!(viewer.show("/pics/a.jpg"), ShowStep::Load);
    assert!(MediaViewer::wants_preview(ShowStep::Load, false));
    assert!(!MediaViewer::wants_preview(ShowStep::Load, true));
    assert!(!MediaViewer::wants_preview(ShowStep::Video, false));
    let first = viewer.generation;
    assert!(viewer.wants_result(first, true));
    assert_eq!(viewer.show("/pics/clip.MP4"), ShowStep::Video);
    assert!(viewer.is_video_mode());
    assert!(!viewer.wants_result(first, true));
    assert!(!viewer.wants_result(first, false));
    assert_eq!(viewer.current_path(), Some("/pics/clip.MP4".to_string()));
    viewer.set_favorite_state(true);
    viewer.close();
    assert!(!viewer.is_visible() && !viewer.is_favorite);
}

#[test]
fn loaded_pictures_are_kept() {
    let mut viewer = viewer_with(300, 200);
    assert_eq!((viewer.image_width, viewer.image_height), (300, 200));
    assert!(!viewer.is_loading);
    assert_eq!(viewer.cache.used_bytes(), 400);
    assert_eq!(viewer.full_decode_request(viewer.generation), None);
    let cached =
        CachedTexture { texture: 7, orig_width: 300, orig_height: 200, bytes: 400, kind: PrefetchKind::Full };
    assert_eq!(viewer.show("/pics/a.jpg"), ShowStep::Cached(cached));

    // A preview is loaded again at its full size.
    viewer.handle_prefetch_result("/pics/b.jpg", 8, (4, 4), (40, 40), PrefetchKind::Preview);
    match viewer.show("/pics/b.jpg") {
        ShowStep::Preview(shown) => assert_eq!(shown.texture, 8),
        other => panic!("{other:?}"),
    }
    assert!(viewer.is_loading);
    let generation = viewer.generation;
    assert_eq!(viewer.full_decode_request(generation), Some(("/pics/b.jpg".to_string(), 0)));
    assert_eq!(viewer.full_decode_request(generation.wrapping_add(1)), None);

    viewer.prime_preview_texture("/pics/c.jpg", 9, (0, -5), (0, 7));
    match viewer.show("/pics/c.jpg") {
        ShowStep::Preview(shown) => {
            assert_eq!((shown.orig_width, shown.orig_height, shown.bytes), (1, 7, 4))
        }
        other => panic!("{other:?}"),
    }
}

#[test]
fn turning_is_undone_by_another_file() {
    let mut viewer = viewer_with(300, 200);
    assert_eq!(viewer.rotate_current_relative(1), Some(ShowStep::Load));
    assert_eq!(viewer.rotation, 1);
    viewer.rotate_current_relative(-2);
    assert_eq!(viewer.rotation, 3);
    viewer.rotate_current_relative(1);
    assert_eq!(viewer.rotation, 0);
    viewer.rotate_current_relative(1);
    viewer.show("/pics/other.jpg");
    assert_eq!(viewer.rotation, 0);
    viewer.show("/pics/clip.webm");
    assert_eq!(viewer.rotate_current_relative(1), None);
}

#[test]
fn layout_is_tried_again_for_a_while() {
    let mut viewer = viewer_with(300, 200);
    let now = viewer.generation;
    assert_eq!(viewer.layout_retry(now, 0, 0, 0), RetryStep::Again);
    assert_eq!(viewer.layout_retry(now, LAYOUT_ATTEMPTS, 0, 0), RetryStep::Stop);
    assert_eq!(viewer.layout_retry(now, 0, 10, 10), RetryStep::Fit);
    assert_eq!(viewer.layout_retry(now + 1, 0, 10, 10), RetryStep::Stop);
    viewer.zoom_by(double(2.0), WIDTH, HEIGHT);
    assert_eq!(viewer.layout_retry(now, 0, 10, 10), RetryStep::Place);
    viewer.show("/pics/clip.mp4");
    let now = viewer.generation;
    assert_eq!(viewer.video_layout_retry(now, 0, 1, 1), RetryStep::Again);
    assert_eq!(viewer.video_layout_retry(now, 0, 2, 2), RetryStep::Place);
    assert_eq!(viewer.video_layout_retry(now, VIDEO_LAYOUT_ATTEMPTS, 1, 1), RetryStep::Stop);
}

#[test]
fn prefetch_leaves_out_videos_and_what_is_kept() {
    let mut viewer = viewer_with(300, 200);
    let item = |path: &str| PrefetchItem { path: path.to_string(), kind: PrefetchKind::Preview };
    let wanted = viewer.prefetch(vec![
        item("/pics/a.jpg"),
        item("/pics/b.jpg"),
        item("/pics/c.mkv"),
        item("/pics/d.png"),
    ]);
    let paths: Vec<&str> = wanted.iter().map(|i| i.path.as_str()).collect();
    assert_eq!(paths, vec!["/pics/b.jpg", "/pics/d.png"]);
    assert_eq!(viewer.prefetch_generation, 1);
    assert!(viewer.prefetch(vec![item("/pics/a.jpg")]).is_empty());
    assert_eq!(viewer.prefetch_generation, 1);
}

fn texture(n: u64, bytes: usize) -> CachedTexture {
    CachedTexture { texture: n, orig_width: 1, orig_height: 1, bytes, kind: PrefetchKind::Preview }
}

#[test]
fn texture_cache_drops_what_was_not_used() {
    let mut cache = TextureCache::new(100);
    cache.insert("/a", 0, texture(1, 40));
    cache.insert("/b", 0, texture(2, 40));
    assert_eq!(cache.get("/a", 0).unwrap().texture, 1);
    assert!(cache.get("/a", 1).is_none());
    cache.insert("/c", 0, texture(3, 40));
    assert!(cache.contains("/a", 0));
    assert!(!cache.contains("/b", 0));
    assert!(cache.contains("/c", 0));
    assert!(cache.used_bytes() <= 100);
}

#[test]
fn commands_say_by_how_much() {
    assert_eq!(ViewerCommand::ZoomIn.act(), ViewerAct::ZoomBy(double(1.25)));
    assert_eq!(ViewerCommand::ZoomOut.act(), ViewerAct::ZoomBy(double(0.8)));
    assert_eq!(ViewerCommand::ActualSize.act(), ViewerAct::ScaleTo(double(1.0)));
    assert_eq!(ViewerCommand::SeekBack.act(), ViewerAct::SeekBy(-5_000_000));
    assert_eq!(ViewerCommand::SeekForward.act(), ViewerAct::SeekBy(5_000_000));
    assert_eq!(ViewerCommand::PanLeft.act(), ViewerAct::PanBy(double(-50.0), double(0.0)));
    assert_eq!(ViewerCommand::PanDown.act(), ViewerAct::PanBy(double(0.0), double(50.0)));
    assert_eq!(ViewerCommand::RotateLeft.act(), ViewerAct::RotateBy(-1));
    assert_eq!(ViewerCommand::Pass.act(), ViewerAct::Nothing);
    assert_eq!(f64::from_bits(WHEEL_FACTOR), 1.0 + 0.1);
}

#[test]
fn pictures_without_a_place_are_not_scaled() {
    let mut viewer = MediaViewer::new(100);
    assert!(viewer.can_zoom_at_point(double(2.0), 800, 600));
    viewer.image_width = 40;
    viewer.image_height = 30;
    assert!(viewer.can_zoom_at_point(double(2.0), 800, 600));
    viewer.view.pan_x = double(f64::NAN);
    assert!(!viewer.can_zoom_at_point(double(2.0), 800, 600));
    assert!(viewer.can_zoom_at_point(double(1.0), 800, 600));
    assert!(viewer.can_zoom_at_point(double(2.0), 0, 0));
}

#[test]
fn texture_cache_counts_what_it_keeps() {
    let mut cache = TextureCache::new(1_000_000);
    for n in 0..2050u64 {
        cache.insert(&format!("/p/{n}"), 0, texture(n, 10));
    }
    assert_eq!(cache.textures().len(), 2048);
    assert_eq!(cache.used_bytes(), 20480);
    cache.insert("/p//2049", 4, texture(1, 30));
    assert_eq!((cache.textures().len(), cache.used_bytes()), (2048, 20500));
    assert_eq!(cache.get("/p/./2049", 0).unwrap().texture, 1);
    cache.insert("/p/huge", 0, texture(9, 2_000_000));
    assert_eq!((cache.textures().len(), cache.used_bytes()), (0, 0));
    cache.insert("/p/a", 0, texture(9, usize::MAX));
    cache.insert("/p/b", 0, texture(9, 5));
    assert_eq!((cache.textures().len(), cache.used_bytes()), (1, 5));
}

#[test]
fn settings_are_read() {
    assert!(!video_offload_enabled(None));
    for on in ["1", "true", "TRUE", "yes", "On"] {
        assert!(video_offload_enabled(Some(on)), "{on}");
    }
    assert!(!video_offload_enabled(Some("0")));
    assert_eq!(prefetch_cache_bytes(None), Some(256 * 1024 * 1024));
    assert_eq!(prefetch_cache_bytes(Some("64")), Some(64 * 1024 * 1024));
    assert_eq!(prefetch_cache_bytes(Some("nonsense")), Some(256 * 1024 * 1024));
}

#[test]
fn keys_mean_what_is_shown() {
    assert_eq!(command_for_key(Key::Escape, false), ViewerCommand::Hide);
    assert_eq!(command_for_key(Key::Char('q'), true), ViewerCommand::Hide);
    assert_eq!(command_for_key(Key::Char(' '), true), ViewerCommand::PlayPause);
    assert_eq!(command_for_key(Key::Char(' '), false), ViewerCommand::Pass);
    assert_eq!(command_for_key(Key::Char('+'), false), ViewerCommand::ZoomIn);
    assert_eq!(command_for_key(Key::KpSubtract, false), ViewerCommand::ZoomOut);
    assert_eq!(command_for_key(Key::Char('0'), false), ViewerCommand::Fit);
    assert_eq!(command_for_key(Key::KpOne, false), ViewerCommand::ActualSize);
    assert_eq!(command_for_key(Key::Left, true), ViewerCommand::SeekBack);
    assert_eq!(command_for_key(Key::Left, false), ViewerCommand::PanLeft);
    assert_eq!(command_for_key(Key::Other, false), ViewerCommand::Pass);
}

#[test]
fn labels_of_the_viewer() {
    let path = Some("/pics/a.jpg".to_string());
    assert_eq!(picture_info_text(&path, Some((300, 200)), 0, 100, false), "> a.jpg [300x200] @ 100%");
    assert_eq!(picture_info_text(&path, None, 3, 50, true), "> a.jpg [rot:270] @ 50% (preview)");
    assert_eq!(picture_info_text(&None, None, 0, 10, false), "> Unknown @ 10%");
    assert_eq!(loading_text("/pics/a.jpg"), "> Loading: a.jpg");
    assert_eq!(zoom_text(125), "125%");
    assert_eq!(format_timestamp(65), "01:05");
    assert_eq!(whole_seconds(double(64.5)), 65);
    assert_eq!(whole_seconds(double(64.49)), 64);
    assert_eq!(whole_seconds(double(-3.0)), 0);
    assert_eq!(whole_seconds(double(f64::NAN)), 0);
    assert_eq!(whole_seconds(double(1e300)), i64::MAX as u64);
    assert_eq!(known_duration(double(0.0)), None);
    assert_eq!(known_duration(double(0.2)), Some(0));
    assert_eq!(format_timestamp(3661), "01:01:01");
    assert!(video_info_text(&path, 5, Some(65)).contains("01:05"));
    assert_eq!(favorite_labels(true), ("[FAV +]", "+"));
    assert_eq!(favorite_labels(false), ("[FAV -]", "-"));
    assert_ne!(play_label(true), play_label(false));
    assert_eq!(seek_target(3_000_000, -5_000_000), 0);
    assert_eq!(seek_target(i64::MAX, 5), i64::MAX);
    assert_eq!(seek_target(7, 5), 12);
    assert!(is_video_path("/x/clip.MKV") && !is_video_path("/x/a.jpg") && !is_video_path("/x/mp4"));
    assert!(is_texture_data(24, 2, 3) && !is_texture_data(23, 2, 3) && !is_texture_data(0, 0, 3));
}
