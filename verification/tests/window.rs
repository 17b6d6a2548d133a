use idxd::double::Double;
use idxd::layout::justified::JustifiedLayout;
use idxd::models::media_item::{MediaItem, MediaType};
use idxd::models::row_model::{RowItem, RowModel};
use idxd::single::Single;
use idxd::ui::list_view::MediaListView;
use idxd::ui::row_widget::{
    decode_row_preview, folder_texture, last_file, placeholder_texture, preview_command,
    preview_dir_name, preview_starts, preview_tools, row_loader_threads, row_preview_size,
    PreviewTool, RowImageLoader, RowRequest, RowSlots, Waiter,
};
use idxd::ui::texture_cache::PrefetchKind;
use idxd::ui::window::{
    album_text, delete_text, directory_labels, directory_text, expand_path_input, favorite_text,
    fullscreen_text, grid_text, is_hidden, not_a_directory_text, recursive_text, scan_directory,
    scanning_text, selection_text, shuffle_in_place, shuffle_label, shuffle_text, typed_text,
    viewing_text, Activation, AlbumOutcome, DeleteOutcome, FavoriteOutcome, Listed, MainWindow,
};
use idxd::video::player::{
    EngineCommand, PlaybackState, SeekDirection, TimerStep, VideoPlayer,
};

fn single(x: f32) -> Single {
    Single { bits: x.to_bits() }
}

fn double(x: f64) -> Double {
    Double { bits: x.to_bits() }
}

fn width(viewport: f32, cap: i32, window: i32, fallback: f32) -> f32 {
    let r = MainWindow::effective_layout_width(single(viewport), cap, window, single(fallback));
    f32::from_bits(r.bits)
}

#[test]
fn effective_layout_width_prefers_viewport_but_clamps_to_list_alloc() {
    assert_eq!(width(1400.0, 1200, 1280, 1200.0), 1200.0);
}

#[test]
fn effective_layout_width_clamps_to_window_alloc_when_list_alloc_missing() {
    assert_eq!(width(1400.0, 0, 1280, 1200.0), 1280.0);
}

#[test]
fn effective_layout_width_uses_fallback_when_viewport_uninitialized() {
    assert_eq!(width(0.0, 0, 0, 1200.0), 1200.0);
}

#[test]
fn effective_layout_width_fallback_is_still_clamped() {
    assert_eq!(width(0.0, 1100, 0, 1200.0), 1100.0);
}

#[test]
fn test_playback_state() {
    assert_eq!(PlaybackState::Stopped, PlaybackState::Stopped);
    assert_ne!(PlaybackState::Playing, PlaybackState::Paused);
}

#[test]
fn test_seek_direction() {
    let dir = SeekDirection::Forward;
    match dir {
        SeekDirection::Forward => {}
        SeekDirection::Backward => panic!("Wrong direction"),
    }
}

#[test]
fn playing_pausing_and_stopping() {
    let mut player = VideoPlayer::new();
    assert_eq!(player.play("/a.mp4"), EngineCommand::Nothing);
    assert_eq!(player.engine_ready(), Some("/a.mp4".to_string()));
    assert_eq!(player.play("/a.mp4"), EngineCommand::Load);
    assert_eq!(player.loaded("/a.mp4", true), TimerStep::Start);
    assert!(player.is_playing());
    assert_eq!(player.toggle_pause().0, EngineCommand::Pause);
    assert!(player.is_paused());
    assert_eq!(player.toggle_pause().0, EngineCommand::Resume);
    assert_eq!(player.playback_state(), PlaybackState::Playing);
    assert_eq!(player.stop(), (EngineCommand::Stop, TimerStep::Stop));
    assert_eq!(player.playback_state(), PlaybackState::Stopped);
    assert_eq!(VideoPlayer::seek_offset(5000, SeekDirection::Backward), -5000);
    assert_eq!(VideoPlayer::seek_offset(5000, SeekDirection::Forward), 5000);
    assert_eq!(VideoPlayer::volume(None), 100);
    assert_eq!(player.set_volume(150), Some(100));
    assert_eq!(player.set_volume(-5), Some(0));
    assert_eq!(player.toggle_mute(Some(false)), Some(true));
    player.engine_gone();
    assert_eq!(player.set_volume(50), None);
}

fn item(path: &str) -> MediaItem {
    MediaItem::new(path.to_string(), 1920, 1080)
}

fn paths(items: &[MediaItem]) -> Vec<String> {
    items.iter().map(|i| i.path.clone()).collect()
}

#[test]
fn shuffling_keeps_the_items() {
    let mut items: Vec<MediaItem> = (0..20).map(|i| item(&format!("/p/{i:02}.jpg"))).collect();
    let before = paths(&items);
    shuffle_in_place(&mut items, 12345);
    let mut after = paths(&items);
    assert_ne!(before, after);
    after.sort();
    assert_eq!(before, after);

    let mut again: Vec<MediaItem> = (0..20).map(|i| item(&format!("/p/{i:02}.jpg"))).collect();
    shuffle_in_place(&mut again, 12345);
    assert_eq!(paths(&items), paths(&again));

    let mut none: Vec<MediaItem> = vec![];
    shuffle_in_place(&mut none, 1);
    assert!(none.is_empty());
}

fn listed(path: &str, is_dir: bool) -> Listed {
    Listed { path: path.to_string(), is_dir, is_file: !is_dir, size: Some((800, 600)) }
}

#[test]
fn directories_are_listed_folders_first() {
    let list = vec![
        listed("/p/b.jpg", false),
        listed("/p/notes.txt", false),
        listed("/p/sub", true),
        listed("/p/.hidden", true),
        listed("/p/a.mp4", false),
    ];
    let items = scan_directory(&list, false);
    assert!(items.iter().any(|i| i.path == "/p/b.jpg"));
    assert!(items.iter().all(|i| i.path != "/p/notes.txt" && i.path != "/p/.hidden"));
    assert_eq!(items[0].path, "/p/sub");
    assert_eq!(items[0].media_type, MediaType::Folder);
    assert!(is_hidden(".git") && !is_hidden("git"));
}

#[test]
fn typed_paths_are_expanded() {
    assert_eq!(expand_path_input("~", Some("/home/u")), "/home/u");
    assert_eq!(expand_path_input("~/pics", Some("/home/u")), "/home/u/pics");
    assert_eq!(expand_path_input("/pics", Some("/home/u")), "/pics");
    assert_eq!(typed_text("  "), None);
    assert_eq!(typed_text(" /pics "), Some("/pics".to_string()));
}

#[test]
fn texts_of_the_status_bar() {
    assert_eq!(selection_text(0, 2), "> Selected: row 0 col 2");
    assert_eq!(grid_text(4, 1, 2), "> 4 rows | Selected: row 1 col 2");
    assert_eq!(favorite_text(FavoriteOutcome::Folder, "/p/a.jpg"), "> Favorites apply to files only");
    assert_eq!(
        favorite_text(FavoriteOutcome::NoStore, "/p/a.jpg"),
        "> Favorites unavailable (database error)"
    );
    assert_eq!(favorite_text(FavoriteOutcome::Added, "/p/a.jpg"), "> Favorited: a.jpg");
    assert_eq!(favorite_text(FavoriteOutcome::Removed, "/"), "> Unfavorited: [item]");
    assert_eq!(favorite_text(FavoriteOutcome::Failed, "/p/a.jpg"), "> Failed to update favorite");
    assert_eq!(delete_text(DeleteOutcome::Folder, "/p/a.jpg"), "> Delete applies to files only");
    assert_eq!(delete_text(DeleteOutcome::Deleted, "/p/a.jpg"), "> Deleted: a.jpg");
    assert_eq!(delete_text(DeleteOutcome::Failed, "/p/a.jpg"), "> Failed to delete: a.jpg");
    assert_eq!(album_text(AlbumOutcome::Added, "/p/a.jpg"), "> Added to album: a.jpg");
    assert_eq!(album_text(AlbumOutcome::AlreadyThere, "/p/a.jpg"), "> Already in album");
    assert_eq!(album_text(AlbumOutcome::NoStore, "/p"), "> Albums unavailable (database error)");
    assert_eq!(album_text(AlbumOutcome::Failed, "/p"), "> Failed to add to album");
    assert_eq!(album_text(AlbumOutcome::NotCreated, "/p"), "> Failed to create album");
    assert_eq!(recursive_text(true), "> Recursive scan: ON");
    assert_eq!(shuffle_text(false), "> Shuffle: OFF");
    assert_eq!(shuffle_label(true), "S/Shuffle: ON");
    assert_eq!(fullscreen_text(true), "> Fullscreen: ON");
    assert_eq!(scanning_text("/p"), "> Scanning: /p");
    assert_eq!(not_a_directory_text("/p"), "> Not a directory: /p");
    assert_eq!(viewing_text("/p/a.jpg"), "> Viewing: a.jpg");
    assert_eq!(
        directory_labels(&Some("/home/u/pics".to_string())),
        (Some("idxd - pics".to_string()), "> /home/u/pics".to_string(), true)
    );
    assert_eq!(
        directory_labels(&Some("/".to_string())),
        (Some("idxd - /".to_string()), "> /".to_string(), false)
    );
    assert_eq!(directory_labels(&None), (None, "> No directory".to_string(), false));
    assert_eq!(
        directory_text(&vec![item("/p/a.jpg"), MediaItem::new_folder("/p/sub".to_string())], 1),
        "> 1 folders, 1 files | 1 rows | [hjkl/arrows] Navigate  [Enter] Open  [Backspace] Parent"
    );
}

fn window_with(names: &[&str]) -> MainWindow {
    let mut window = MainWindow::new(Some("/p".to_string()), Some("/home/u".to_string()));
    let generation = window.load_directory("/p");
    let items: Vec<MediaItem> = names.iter().map(|n| item(n)).collect();
    assert!(window.apply_directory_scan_result("/p", generation, items, 1));
    window
}

#[test]
fn late_scans_do_not_count() {
    let mut window = window_with(&["/p/a.jpg"]);
    let first = window.load_directory("/p");
    let second = window.load_directory("/q");
    assert!(!window.apply_directory_scan_result("/p", first, vec![item("/p/x.jpg")], 1));
    assert!(window.apply_directory_scan_result("/q", second, vec![item("/q/y.jpg")], 1));
    assert_eq!(paths(&window.media_items), vec!["/q/y.jpg"]);
    assert_eq!(window.current_path(), Some("/q".to_string()));
    assert_eq!(window.parent_directory(), Some("/".to_string()));
    assert_eq!(window.activation("/q/y.jpg"), Activation::Viewer);
}

#[test]
fn shuffle_is_undone() {
    let mut window =
        window_with(&["/p/a.jpg", "/p/b.jpg", "/p/c.jpg", "/p/d.jpg", "/p/e.jpg", "/p/f.jpg"]);
    let before = paths(&window.media_items);
    assert!(window.toggle_shuffle(99));
    let mut shuffled = paths(&window.media_items);
    shuffled.sort();
    assert_eq!(shuffled, before);
    assert!(!window.toggle_shuffle(5));
    assert_eq!(paths(&window.media_items), before);
}

#[test]
fn prefetch_goes_outwards_from_the_selection() {
    let names: Vec<String> = (0..9).map(|i| format!("/p/{i}.jpg")).collect();
    let list: Vec<&str> = names.iter().map(|s| s.as_str()).collect();
    let mut window = window_with(&list);
    let rows = window.build_rows(&JustifiedLayout::default(), single(1200.0));
    window.apply_rows(&rows);
    assert_eq!(window.flat_paths, names);
    let wanted = window.prefetch_around_selection(0, 1);
    assert!(!wanted.is_empty());
    assert!(wanted.iter().any(|w| w.path == "/p/2.jpg"));
    assert!(wanted.iter().any(|w| w.path == "/p/0.jpg"));
    assert!(wanted.iter().all(|w| w.kind == PrefetchKind::Preview || w.kind == PrefetchKind::Full));
}

#[test]
fn widths_that_do_not_change_cause_no_relayout() {
    let mut window = window_with(&["/p/a.jpg"]);
    assert!(window.note_width(1000));
    assert!(!window.note_width(1000));
    assert!(window.request_relayout());
    assert!(!window.request_relayout());
    window.relayout_started();
    assert!(window.request_relayout());
    let shown = window.ui_visible;
    assert_eq!(window.toggle_ui(), !shown);
    assert_eq!(window.set_recursive_scan(true), Some("/p".to_string()));
}

fn row(index: u32, height: f32, names: &[&str]) -> RowModel {
    let items = names
        .iter()
        .map(|n| RowItem {
            media_path: n.to_string(),
            display_w: single(100.4),
            display_h: single(height),
            offset_top: single(0.0),
            is_folder: *n == "/p/sub",
        })
        .collect();
    RowModel::new(index, single(height), items)
}

#[test]
fn rows_are_found_by_their_heights() {
    let mut list = MediaListView::new();
    let rows =
        vec![row(0, 100.0, &["/p/a.jpg"]), row(1, 50.5, &["/p/b.jpg"]), row(2, 200.0, &["/p/c.jpg"])];
    list.set_rows(&rows);
    let offsets: Vec<f64> = list.row_offsets.iter().map(|d| f64::from_bits(d.bits)).collect();
    assert_eq!(offsets, vec![0.0, 100.0, 150.5, 350.5]);
    assert_eq!(list.visible_range_changed(3, double(0.0), double(120.0)), Some((0, 1)));
    assert_eq!(list.visible_range_changed(3, double(1.0), double(120.0)), None);
    assert_eq!(list.visible_range_changed(3, double(100.0), double(1000.0)), Some((1, 2)));
    assert_eq!(list.visible_range_changed(0, double(0.0), double(1.0)), None);
    let to = |index: u32| {
        f64::from_bits(list.scroll_to_row(index, double(30.0), double(350.5), double(250.0)).bits)
    };
    assert_eq!(to(0), 0.0);
    assert_eq!(to(1), 100.0);
    assert_eq!(to(2), 100.5);
    assert_eq!(to(9), 30.0);
    list.set_selection(1, 0);
    assert_eq!(list.selection, (1, 0));
    assert_eq!(f32::from_bits(MediaListView::content_width(500, true, 12).bits), 488.0);
    assert_eq!(f32::from_bits(MediaListView::content_width(500, false, 12).bits), 500.0);
    assert_eq!(f32::from_bits(MediaListView::content_width(-3, true, 12).bits), 0.0);
}

#[test]
fn test_placeholder_texture() {
    let picture = placeholder_texture();
    assert_eq!((picture.width, picture.height), (64, 64));
    assert_eq!(picture.rgba.len(), 64 * 64 * 4);
    assert_eq!(&picture.rgba[..4], &[0x1a, 0x1a, 0x1a, 0xff]);
    let folder = folder_texture();
    assert_eq!((folder.width, folder.height), (128, 128));
    assert_eq!(folder.rgba.len(), 128 * 128 * 4);
}

#[test]
fn rows_ask_once_for_each_picture() {
    let mut loader = RowImageLoader::new();
    let waiter = |widget: u64| Waiter { widget, index: 0, token: widget };
    let generation = match loader.request("/p/a.jpg", waiter(1)) {
        RowRequest::Send(g) => g,
        other => panic!("{other:?}"),
    };
    assert!(loader.is_current(generation));
    assert_eq!(loader.request("/p//a.jpg", waiter(2)), RowRequest::Wait);
    let waiting = loader.process_result("/p/a.jpg", Some((42, 10, 10)));
    assert_eq!(waiting, vec![waiter(1), waiter(2)]);
    assert_eq!(loader.cached_texture("/p/a.jpg"), Some(42));
    assert_eq!(loader.cached_texture("/p/./a.jpg"), Some(42));
    assert_eq!(loader.request("/p/a.jpg", waiter(3)), RowRequest::Cached(42));

    assert!(matches!(loader.request("/p/b.jpg", waiter(4)), RowRequest::Send(_)));
    loader.send_failed("/p/b.jpg");
    assert!(matches!(loader.request("/p/b.jpg", waiter(5)), RowRequest::Send(_)));
    loader.reschedule();
    assert!(!loader.is_current(generation));
}

#[test]
fn slots_follow_their_row() {
    let mut slots = RowSlots::new();
    let (plans, next) = slots.bind(&row(4, 120.0, &["/p/a.jpg", "/p/sub", "/p/c.mp4"]), 10);
    assert_eq!(plans.len(), 3);
    assert_eq!(slots.item_count(), 3);
    assert_eq!(next, 12);
    assert_eq!(plans[0].token, 10);
    assert_eq!(plans[1].token, 0);
    assert_eq!(plans[2].token, 11);
    assert_eq!((plans[0].width, plans[0].height), (100, 120));
    assert_eq!(slots.get_item_path(0), Some("/p/a.jpg".to_string()));
    assert_eq!(slots.get_item_path(3), None);
    assert!(slots.is_folder(1) && !slots.is_folder(0) && !slots.is_folder(9));
    assert!(slots.is_selected(2, 4, 2) && !slots.is_selected(2, 3, 2));
    assert!(slots.accepts_texture(0, plans[0].token, "/p/a.jpg"));
    assert!(!slots.accepts_texture(0, plans[0].token + 1, "/p/a.jpg"));
    assert!(!slots.accepts_texture(0, plans[0].token, "/p/b.jpg"));
    slots.unbind();
    assert!(!slots.accepts_texture(0, plans[0].token, "/p/a.jpg"));
}

#[test]
fn row_previews_are_bounded() {
    assert_eq!(row_preview_size(1024, 512), Some((512, 256)));
    assert_eq!(row_preview_size(100, 50), None);
    assert!(decode_row_preview(b"no picture").is_none());
    assert_eq!(row_loader_threads(None), 4);
    assert_eq!(row_loader_threads(Some(1)), 2);
    assert_eq!(row_loader_threads(Some(7)), 5);
    assert_eq!(row_loader_threads(Some(64)), 8);
}

#[test]
fn video_previews_are_asked_of_tools() {
    let tools = preview_tools(false);
    assert!(tools.contains(&PreviewTool::Mpv));
    assert!(!tools.contains(&PreviewTool::HostMpv));
    assert!(preview_tools(true).contains(&PreviewTool::HostMpv));
    let words = preview_command(PreviewTool::Mpv, "/p/c.mp4", "/tmp/out", "1.0");
    assert!(words.iter().any(|w| w.contains("/p/c.mp4")));
    assert!(words.iter().any(|w| w.contains("/tmp/out")));
    assert_eq!(preview_starts().len(), 2);
    assert_ne!(preview_dir_name(1, 2), preview_dir_name(1, 3));
    let files = vec!["/o/1.jpg".to_string(), "/o/3.jpg".to_string(), "/o/2.jpg".to_string()];
    assert_eq!(last_file(&files), Some(1));
    assert_eq!(last_file(&vec![]), None);
}

#[test]
fn the_grid_comes_back_where_it_was() {
    let at = |x: f64| Double { bits: x.to_bits() };
    let mut window = window_with(&["a.jpg", "b.jpg"]);
    assert_eq!(window.viewer_closed(), None);
    window.viewer_opened(at(320.5));
    window.viewer_opened(at(7.0));
    assert_eq!(window.viewer_closed(), Some(at(320.5)));
    assert_eq!(window.viewer_closed(), None);
}
