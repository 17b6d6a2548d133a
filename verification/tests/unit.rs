use idxd::image_loader::{needs_dimension_swap, parse_tiff_orientation};
use idxd::models::media_item::MediaType;
use idxd::models::media_store::{LayoutMeta, MediaStore};
use idxd::scanner::file_scanner::{FileScanner, FoundFile, ParallelScanner, ScanConfig, ScanState};
use idxd::scanner::metadata::{MetadataExtractor, ERROR_DIMENSION};
use idxd::thumbnails::cache::{CacheKey, ThumbnailCache, MAX_MEMORY_MB, MIN_MEMORY_MB};
use idxd::thumbnails::generator::{
    ImageFormat, ThumbnailGenerator, MAX_THUMB_WIDTH, MIN_THUMB_WIDTH,
};
use idxd::thumbnails::queue::ThumbnailRequest;
use idxd::ui::keybindings::{Direction, GridSelection};

const TINY_PNG: [u8; 67] = [
    0x89, 0x50, 0x4E, 0x47, 0x0D, 0x0A, 0x1A, 0x0A, // PNG signature
    0x00, 0x00, 0x00, 0x0D, 0x49, 0x48, 0x44, 0x52, // IHDR chunk
    0x00, 0x00, 0x00, 0x01, 0x00, 0x00, 0x00, 0x01, // 1x1 dimensions
    0x08, 0x02, 0x00, 0x00, 0x00, 0x90, 0x77, 0x53, 0xDE, // bit depth, color type, etc
    0x00, 0x00, 0x00, 0x0C, 0x49, 0x44, 0x41, 0x54, // IDAT chunk
    0x08, 0xD7, 0x63, 0xF8, 0x0F, 0x00, 0x00, 0x01, 0x01, 0x00, 0x18, 0xDD, 0x8D, 0xB4,
    0x00, 0x00, 0x00, 0x00, 0x49, 0x45, 0x4E, 0x44, // IEND chunk
    0xAE, 0x42, 0x60, 0x82,
];

#[test]
fn parses_tiff_orientation() {
    // Minimal little-endian TIFF with one IFD entry: Orientation=6 (rotate 90 CW)
    let tiff = vec![
        b'I', b'I', 42, 0, 8, 0, 0, 0, // header + IFD0 offset
        1, 0, // entry count
        0x12, 0x01, // tag 0x0112
        3, 0, // type SHORT
        1, 0, 0, 0, // count
        6, 0, 0, 0, // value
        0, 0, 0, 0, // next IFD
    ];

    assert_eq!(parse_tiff_orientation(&tiff), Some(6));
    assert!(needs_dimension_swap(6));
}

#[test]
fn test_scan_config_default() {
    let config = ScanConfig::default();
    assert!(config.recursive);
    assert_eq!(config.max_depth, 0);
    assert_eq!(config.batch_size, 100);
    assert!(!config.follow_symlinks);
}

fn found(path: &str, is_dir: bool) -> FoundFile {
    FoundFile { path: path.to_string(), is_dir, stat: Some((1_700_000_000, 67)) }
}

#[test]
fn test_discover_files_empty_dir() {
    let entries = FileScanner::discover_files(&vec![found("/pics", true)]);
    assert!(entries.is_empty());
}

#[test]
fn test_discover_files_with_images() {
    let entries = FileScanner::discover_files(&vec![
        found("/pics", true),
        found("/pics/image2.png", false),
        found("/pics/not_media.txt", false),
        found("/pics/image1.png", false),
    ]);
    assert_eq!(entries.len(), 2);
    assert!(entries.iter().all(|e| e.media_type == MediaType::Image));
    assert_eq!(entries[0].path, "/pics/image1.png");
    assert_eq!(entries[1].path, "/pics/image2.png");
}

#[test]
fn test_discover_files_recursive() {
    let all = vec![
        found("/pics", true),
        found("/pics/root.png", false),
        found("/pics/subdir", true),
        found("/pics/subdir/nested.png", false),
    ];
    let config = ScanConfig { recursive: true, ..Default::default() };
    assert_eq!(config.walk_depth(), None);
    let entries = FileScanner::discover_files(&all);
    assert_eq!(entries.len(), 2);

    let config = ScanConfig { recursive: false, ..Default::default() };
    assert_eq!(config.walk_depth(), Some(1));
    let top = all.into_iter().take(3).collect();
    let entries = FileScanner::discover_files(&top);
    assert_eq!(entries.len(), 1);
}

#[test]
fn test_file_scanner_basic() {
    let scanner = FileScanner::new();
    let entries = FileScanner::discover_files(&vec![
        found("/pics/test1.png", false),
        found("/pics/test2.png", false),
    ]);
    let mut state = ScanState::new(entries.len(), scanner.config.batch_size);
    for entry in &entries {
        let (item, cached) = FileScanner::process_entry(entry, None, 7, Some(&TINY_PNG));
        assert_eq!((item.width, item.height), (1, 1));
        assert!(state.accept(item, cached).is_none());
    }
    assert_eq!(state.take_rest().unwrap().len(), 2);
    let (items, result) = state.finish();

    assert_eq!(items.len(), 2);
    assert_eq!(result.total_files, 2);
    assert_eq!(result.new_items, 2);
    assert_eq!(result.cached_items, 0);
    assert_eq!(result.error_count, 0);
}

#[test]
fn test_file_scanner_caching() {
    let entries = FileScanner::discover_files(&vec![found("/pics/cached.png", false)]);

    // First scan
    let mut state = ScanState::new(1, 100);
    let (item, cached) = FileScanner::process_entry(&entries[0], None, 7, Some(&TINY_PNG));
    state.accept(item, cached);
    let (items, result) = state.finish();
    assert_eq!(result.new_items, 1);
    assert_eq!(result.cached_items, 0);

    // Second scan should use cache
    let known = Some((items[0].mtime, items[0].size));
    let mut state = ScanState::new(1, 100);
    let (item, cached) = FileScanner::process_entry(&entries[0], known, 8, None);
    state.accept(item, cached);
    let (_, result) = state.finish();
    assert_eq!(result.total_files, 1);
    assert_eq!(result.cached_items, 1);
}

#[test]
fn test_parallel_scanner_creation() {
    let scanner = ParallelScanner::new(4);
    assert_eq!(scanner.num_workers, 4);

    // Should enforce minimum of 1 worker
    let scanner = ParallelScanner::new(0);
    assert_eq!(scanner.num_workers, 1);
}

#[test]
fn test_error_dimension_constant() {
    assert_eq!(ERROR_DIMENSION, 0);
}

#[test]
fn test_unknown_extension() {
    let result = MetadataExtractor::extract_dimensions("/fake/file.xyz", None);
    // Should return error dimensions without panicking
    assert!(result.is_ok());
    let (w, h) = result.unwrap();
    assert_eq!(w, ERROR_DIMENSION);
    assert_eq!(h, ERROR_DIMENSION);
}

#[test]
fn test_nonexistent_image() {
    let result = MetadataExtractor::extract_dimensions("/nonexistent/image.jpg", None);
    // Should handle gracefully
    assert!(result.is_ok());
    let (w, h) = result.unwrap();
    assert_eq!(w, ERROR_DIMENSION);
    assert_eq!(h, ERROR_DIMENSION);
}

#[test]
fn test_corrupt_image_data() {
    let result =
        MetadataExtractor::extract_dimensions("/tmp/broken.jpg", Some(b"not a real jpeg file"));
    // Should handle gracefully without panicking
    assert!(result.is_ok());
    assert_eq!(result.unwrap(), (ERROR_DIMENSION, ERROR_DIMENSION));
}

#[test]
fn test_metadata_extraction_wrapper() {
    let result = MetadataExtractor::extract_metadata("/fake/video.mp4", None);
    assert!(result.is_ok());
    let meta = result.unwrap();
    assert!(meta.has_warnings); // Should have warnings for non-existent file
}

#[test]
fn test_cache_key_hash() {
    let key1 = CacheKey::new("/test/image.jpg", 1234567890, 1024);
    let key2 = CacheKey::new("/test/image.jpg", 1234567890, 1024);
    let key3 = CacheKey::new("/test/image.jpg", 1234567891, 1024);

    // Same inputs should produce same hash
    assert_eq!(key1.hash, key2.hash);
    // Different mtime should produce different hash
    assert_ne!(key1.hash, key3.hash);
}

#[test]
fn test_disk_filename() {
    let key = CacheKey::new("/test/image.jpg", 1234567890, 1024);
    let filename = key.disk_filename();

    // Should be a 16-character hex string with .jpg extension
    assert!(filename.ends_with(".jpg"));
    assert_eq!(filename.len(), 20); // 16 hex + ".jpg"
}

#[test]
fn test_memory_limit_clamping() {
    let dir = "/tmp/idxd_test_cache".to_string();

    // Test minimum clamping
    let cache = ThumbnailCache::new(dir.clone(), 10);
    assert_eq!(cache.max_memory(), MIN_MEMORY_MB * 1024 * 1024);

    // Test maximum clamping
    let cache = ThumbnailCache::new(dir.clone(), 1000);
    assert_eq!(cache.max_memory(), MAX_MEMORY_MB * 1024 * 1024);

    // Test normal value
    let cache = ThumbnailCache::new(dir, 200);
    assert_eq!(cache.max_memory(), 200 * 1024 * 1024);
}

#[test]
fn test_calculate_dimensions_normal() {
    // 1920x1080 -> target 256 height
    let (w, h) = ThumbnailGenerator::calculate_dimensions(1920, 1080, 256);
    assert_eq!(h, 256);
    // Width should be proportional: 1920 * (256/1080) = 455
    assert!((w as i32 - 455).abs() <= 1);
}

#[test]
fn test_calculate_dimensions_small_source() {
    // Source smaller than target - don't upscale
    let (w, h) = ThumbnailGenerator::calculate_dimensions(200, 100, 256);
    assert_eq!(h, 100);
    assert_eq!(w, 200);
}

#[test]
fn test_calculate_dimensions_extreme_panorama() {
    // Very wide image - width should be clamped
    let (w, h) = ThumbnailGenerator::calculate_dimensions(10000, 500, 256);
    assert_eq!(w, MAX_THUMB_WIDTH);
    // Height recalculated: 1024 / (10000/500) = 51
    assert!(h < 256);
}

#[test]
fn test_calculate_dimensions_extreme_portrait() {
    // Very tall image - width should be clamped to minimum
    let (w, _h) = ThumbnailGenerator::calculate_dimensions(100, 5000, 256);
    assert_eq!(w, MIN_THUMB_WIDTH);
}

#[test]
fn test_format_from_extension() {
    assert_eq!(ThumbnailGenerator::format_from_extension("test.jpg"), Some(ImageFormat::Jpeg));
    assert_eq!(ThumbnailGenerator::format_from_extension("test.PNG"), Some(ImageFormat::Png));
    assert_eq!(ThumbnailGenerator::format_from_extension("test.txt"), None);
}

#[test]
fn test_request_priority() {
    let req = ThumbnailRequest::new("/test/image.jpg".into(), 123, 456)
        .with_priority(10)
        .with_row(5);

    assert_eq!(req.priority, 10);
    assert_eq!(req.row_index, 5);
}

#[test]
fn test_cache_key_from_request() {
    let req = ThumbnailRequest::new("/test/image.jpg".into(), 123, 456);
    let key = req.cache_key();
    assert!(!key.disk_filename().is_empty());
}

#[test]
fn test_grid_selection_movement() {
    let mut selection = GridSelection::new(|_: u32| 4u32); // 4 items per row
    selection.set_row_count(5);

    // Start at (0, 0)
    assert_eq!(selection.position(), (0, 0));

    // Move right
    assert!(selection.move_selection(Direction::Right));
    assert_eq!(selection.position(), (0, 1));

    // Move down
    assert!(selection.move_selection(Direction::Down));
    assert_eq!(selection.position(), (1, 1));

    // Move left
    assert!(selection.move_selection(Direction::Left));
    assert_eq!(selection.position(), (1, 0));

    // Move up
    assert!(selection.move_selection(Direction::Up));
    assert_eq!(selection.position(), (0, 0));
}

#[test]
fn test_grid_selection_wrapping() {
    let mut selection = GridSelection::new(|_: u32| 3u32); // 3 items per row
    selection.set_row_count(3);

    // Move to end of row
    selection.move_selection(Direction::Right);
    selection.move_selection(Direction::Right);
    assert_eq!(selection.position(), (0, 2));

    // Wrap to next row
    selection.move_selection(Direction::Right);
    assert_eq!(selection.position(), (1, 0));

    // Wrap back to previous row
    selection.move_selection(Direction::Left);
    assert_eq!(selection.position(), (0, 2));
}

#[test]
fn test_grid_selection_boundaries() {
    let mut selection = GridSelection::new(|_: u32| 4u32);
    selection.set_row_count(2);

    // Try to move up at top
    selection.move_selection(Direction::Up);
    assert_eq!(selection.position(), (0, 0));

    // Move to bottom right
    selection.row = 1;
    selection.col = 3;

    // Try to move down at bottom
    selection.move_selection(Direction::Down);
    assert_eq!(selection.position(), (1, 3));

    // Try to move right at end
    selection.move_selection(Direction::Right);
    assert_eq!(selection.position(), (1, 3));
}

#[test]
fn test_variable_items_per_row() {
    // Simulate rows with different item counts
    let mut selection = GridSelection::new(|row: u32| match row {
        0 => 5u32,
        1 => 3,
        2 => 4,
        _ => 0,
    });
    selection.set_row_count(3);

    // Start at row 0, col 4 (last item in row 0)
    selection.row = 0;
    selection.col = 4;

    // Move down - should clamp to col 2 (last item in row 1)
    selection.move_selection(Direction::Down);
    assert_eq!(selection.position(), (1, 2));

    // Move down again - col should stay 2
    selection.move_selection(Direction::Down);
    assert_eq!(selection.position(), (2, 2));
}

#[test]
fn media_store_test_width_bucket() {
    assert_eq!(MediaStore::width_to_bucket(1920), 1900);
    assert_eq!(MediaStore::width_to_bucket(1280), 1200);
    assert_eq!(MediaStore::width_to_bucket(1350), 1300);
    assert_eq!(MediaStore::width_to_bucket(99), 0);
}

#[test]
fn test_cache_validity() {
    // Same mtime should be valid
    assert!(MediaStore::is_cache_valid(Some(1234567890), 1234567890));
    // Different mtime should be invalid
    assert!(!MediaStore::is_cache_valid(Some(1234567890), 1234567890 + 1));
    // Non-existent path should be invalid
    assert!(!MediaStore::is_cache_valid(None, 0));
}

#[test]
fn test_layout_cache() {
    let meta = Some(LayoutMeta {
        width_bucket: 1200,
        sort_key: "name_asc".to_string(),
        item_count: 50,
        list_hash: "abc123".to_string(),
        updated_at: 0,
    });
    assert!(MediaStore::is_layout_valid(&meta, "abc123", 50));
    assert!(!MediaStore::is_layout_valid(&meta, "different", 50));
    assert!(!MediaStore::is_layout_valid(&meta, "abc123", 100));
}

#[test]
fn test_delete_stale() {
    let now: i64 = 1_700_000_000;
    assert!(MediaStore::is_stale(now - 1000, now - 500));
    assert!(!MediaStore::is_stale(now, now - 500));
}
