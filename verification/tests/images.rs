use idxd::bitmap::{to_eight, Bitmap};
use idxd::image_loader::{
    apply_exif_orientation, apply_rotation_steps, open_embedded_jpeg_preview_with_rotation,
    open_image, open_image_with_rotation, orient_dimensions, parse_jpeg_exif_orientation,
    parse_jpeg_exif_thumbnail, read_dimensions, read_exif_orientation_from_bytes, OpenError,
};
use idxd::models::media_item::{MediaItem, MediaType};
use idxd::models::media_store::{
    int_to_media_type, item_to_row, media_type_to_int, row_to_item, MediaStore,
};
use idxd::paths::{canonical_path, extension, extension_of_name, is_same_path, join};
use idxd::scanner::file_scanner::{FileScanner, ParallelScanner, ScanConfig, ScanProgress, ScanState};
use idxd::scanner::metadata::MetadataExtractor;
use idxd::sorting::sort_paths;
use idxd::thumbnails::cache::{CacheKey, CachedThumbnail, Retrieval, ThumbnailCache};
use idxd::thumbnails::generator::{GenerateError, ResizeMode, ThumbnailGenerator};
use idxd::thumbnails::queue::{
    requests_for_rows, result_of_request, RowFiles, SendOutcome, ThumbnailQueue,
    ThumbnailQueueBuilder, ThumbnailRequest,
};
use idxd::ui::decode::{
    decode_image_downscaled, decode_image_full, decode_image_viewport, fit_within, scale_down,
};
use idxd::ui::row_widget::decode_row_preview;
use std::io::Cursor;

/// A picture in which every pixel differs: red counts across, green down.
fn gradient(width: u32, height: u32) -> image::RgbaImage {
    image::RgbaImage::from_fn(width, height, |x, y| image::Rgba([x as u8, y as u8, 7, 255]))
}

fn encoded(width: u32, height: u32, format: image::ImageFormat) -> Vec<u8> {
    let mut out = Cursor::new(Vec::new());
    let picture = image::DynamicImage::ImageRgba8(gradient(width, height));
    match format {
        image::ImageFormat::Jpeg => {
            image::DynamicImage::ImageRgb8(picture.to_rgb8()).write_to(&mut out, format).unwrap()
        }
        _ => picture.write_to(&mut out, format).unwrap(),
    }
    out.into_inner()
}

fn bitmap(width: u32, height: u32) -> Bitmap {
    Bitmap { width, height, rgba: gradient(width, height).into_raw() }
}

fn pixel(b: &Bitmap, x: u32, y: u32) -> (u8, u8) {
    let at = ((y * b.width + x) * 4) as usize;
    (b.rgba[at], b.rgba[at + 1])
}

/// The APP1 segment of a big-endian EXIF block with an orientation and, where one is
/// given, an embedded preview.
fn exif_segment(orientation: u16, preview: Option<&[u8]>) -> Vec<u8> {
    let mut tiff: Vec<u8> = vec![b'M', b'M', 0, 42, 0, 0, 0, 8];
    tiff.extend([0, 1, 0x01, 0x12, 0, 3, 0, 0, 0, 1]);
    tiff.extend(orientation.to_be_bytes());
    tiff.extend([0, 0]);
    match preview {
        Some(bytes) => {
            let next = tiff.len() as u32 + 4;
            tiff.extend(next.to_be_bytes());
            let data = next + 2 + 24 + 4;
            tiff.extend([0, 2]);
            tiff.extend([0x02, 0x01, 0, 4, 0, 0, 0, 1]);
            tiff.extend(data.to_be_bytes());
            tiff.extend([0x02, 0x02, 0, 4, 0, 0, 0, 1]);
            tiff.extend((bytes.len() as u32).to_be_bytes());
            tiff.extend([0, 0, 0, 0]);
            tiff.extend(bytes);
        }
        None => tiff.extend([0, 0, 0, 0]),
    }
    let mut segment = vec![0xFF, 0xE1];
    segment.extend(((tiff.len() + 8) as u16).to_be_bytes());
    segment.extend(b"Exif\0\0");
    segment.extend(tiff);
    segment
}

fn jpeg_with_exif(width: u32, height: u32, orientation: u16, preview: Option<&[u8]>) -> Vec<u8> {
    let plain = encoded(width, height, image::ImageFormat::Jpeg);
    let mut out = plain[..2].to_vec();
    out.extend(exif_segment(orientation, preview));
    out.extend(&plain[2..]);
    out
}

#[test]
fn pictures_are_decoded() {
    let bytes = encoded(5, 3, image::ImageFormat::Png);
    let picture = open_image(&bytes).unwrap();
    assert_eq!((picture.width, picture.height), (5, 3));
    assert_eq!(picture.rgba, gradient(5, 3).into_raw());
    assert_eq!(read_dimensions(&bytes, &bytes), Ok((5, 3)));

    let gif = encoded(4, 6, image::ImageFormat::Gif);
    let picture = open_image(&gif).unwrap();
    assert_eq!((picture.width, picture.height), (4, 6));
    assert_eq!(read_dimensions(&gif, &gif), Ok((4, 6)));

    assert!(matches!(open_image(b"no picture"), Err(OpenError::Decode)));
    assert!(matches!(open_image(b"GIF89a"), Err(OpenError::GifHeader)));
    assert_eq!(read_dimensions(b"no picture", b"no picture"), Err(OpenError::Decode));
    // The header alone, then the end of the file.
    let cut = gif[..13].to_vec();
    assert!(open_image(&cut).is_err());
}

#[test]
fn turns_move_pixels() {
    let once = apply_rotation_steps(bitmap(3, 2), 1);
    assert_eq!((once.width, once.height), (2, 3));
    assert_eq!(pixel(&once, 1, 0), (0, 0));
    assert_eq!(pixel(&once, 0, 2), (2, 1));
    let twice = apply_rotation_steps(bitmap(3, 2), 2);
    assert_eq!(pixel(&twice, 2, 1), (0, 0));
    let back = apply_rotation_steps(apply_rotation_steps(bitmap(3, 2), 1), 3);
    assert_eq!(back.rgba, bitmap(3, 2).rgba);
    let whole = apply_rotation_steps(bitmap(3, 2), 4);
    assert_eq!(whole.rgba, bitmap(3, 2).rgba);
}

#[test]
fn orientations_agree_with_the_picture_library() {
    for orientation in 0u16..=9 {
        let img = image::DynamicImage::ImageRgba8(gradient(5, 4));
        let expected = match orientation {
            2 => img.fliph(),
            3 => img.rotate180(),
            4 => img.flipv(),
            5 => img.rotate90().fliph(),
            6 => img.rotate90(),
            7 => img.rotate270().fliph(),
            8 => img.rotate270(),
            _ => img,
        }
        .to_rgba8();
        let turned = apply_exif_orientation(bitmap(5, 4), orientation);
        assert_eq!((turned.width, turned.height), expected.dimensions());
        assert_eq!(turned.rgba, expected.into_raw(), "{orientation}");
    }
}

#[test]
fn exif_is_found_in_jpeg_files() {
    let bytes = jpeg_with_exif(8, 4, 6, None);
    assert_eq!(parse_jpeg_exif_orientation(&bytes), Some(6));
    assert_eq!(read_exif_orientation_from_bytes(&bytes), Some(6));
    assert_eq!(read_dimensions(&bytes, &bytes), Ok((4, 8)));
    assert_eq!(orient_dimensions((8, 4), Some(6)), (4, 8));
    assert_eq!(orient_dimensions((8, 4), Some(3)), (8, 4));
    assert_eq!(orient_dimensions((8, 4), None), (8, 4));
    let picture = open_image(&bytes).unwrap();
    assert_eq!((picture.width, picture.height), (4, 8));
    let turned = open_image_with_rotation(&bytes, 1).unwrap();
    assert_eq!((turned.width, turned.height), (8, 4));
    let plain = encoded(8, 4, image::ImageFormat::Jpeg);
    assert_eq!(parse_jpeg_exif_orientation(&plain), None);
    assert!(parse_jpeg_exif_thumbnail(&plain).is_none());
}

#[test]
fn embedded_previews_are_used() {
    let preview = encoded(4, 2, image::ImageFormat::Jpeg);
    let bytes = jpeg_with_exif(80, 40, 6, Some(&preview));
    assert_eq!(parse_jpeg_exif_thumbnail(&bytes), Some(&preview[..]));
    let (picture, w, h) = open_embedded_jpeg_preview_with_rotation(&bytes, &bytes, 0).unwrap();
    assert_eq!((picture.width, picture.height), (2, 4));
    assert_eq!((w, h), (40, 80));
    let decoded = decode_image_viewport(&bytes, &bytes, 1024, 0).unwrap();
    assert!(decoded.embedded);
    assert_eq!((decoded.picture.width, decoded.picture.height), (2, 4));
    assert_eq!((decoded.orig_width, decoded.orig_height), (40, 80));
    assert!(open_embedded_jpeg_preview_with_rotation(b"png", b"png", 0).is_none());
}

#[test]
fn pictures_are_scaled_for_the_viewport() {
    assert_eq!(fit_within(2000, 1000, 512), Some((512, 256)));
    assert_eq!(fit_within(1000, 2000, 512), Some((256, 512)));
    assert_eq!(fit_within(300, 200, 512), None);
    assert_eq!(fit_within(100_000, 1, 512), Some((512, 1)));
    let small = scale_down(bitmap(20, 10), 10).unwrap();
    assert_eq!((small.width, small.height, small.rgba.len()), (10, 5, 200));
    let bytes = encoded(64, 32, image::ImageFormat::Png);
    let decoded = decode_image_viewport(&bytes, &bytes, 16, 1).unwrap();
    assert_eq!((decoded.picture.width, decoded.picture.height), (8, 16));
    assert_eq!((decoded.orig_width, decoded.orig_height), (32, 64));
    assert!(!decoded.embedded);
    let full = decode_image_full(&bytes, 0).unwrap();
    assert_eq!(full.picture.rgba, gradient(64, 32).into_raw());
    assert!(decode_image_full(b"no picture", 0).is_none());
    assert!(decode_image_viewport(b"no", b"no", 16, 0).is_none());
}

#[test]
fn thumbnails_are_made_as_jpeg() {
    let bytes = encoded(200, 100, image::ImageFormat::Png);
    let (jpeg, w, h) = ThumbnailGenerator::generate_in_memory(&bytes, "/p/a.png", 50).unwrap();
    assert_eq!((w, h), (100, 50));
    let back = image::load_from_memory(&jpeg).unwrap();
    assert_eq!((back.width(), back.height()), (100, 50));
    let (jpeg, result) = ThumbnailGenerator::generate_thumbnail(&bytes, "/p/a.png", 50).unwrap();
    assert_eq!((result.width, result.height), (100, 50));
    assert_eq!(&jpeg[..2], &[0xFF, 0xD8]);
    let (_, size) = ThumbnailGenerator::generate(&bytes, "/p/a.png", 256).unwrap();
    assert_eq!(size, (200, 100));
    let (_, w, h) = 
        ThumbnailGenerator::thumbnail_from_picture(&bitmap(128, 64), 32, ResizeMode::Quality).unwrap();
    assert_eq!((w, h), (64, 32));
    assert!(matches!(
        ThumbnailGenerator::generate_in_memory(b"no picture", "/p/a.png", 50),
        Err(GenerateError::Load)
    ));
    assert!(ThumbnailGenerator::can_generate("/p/A.JPEG"));
    assert!(!ThumbnailGenerator::can_generate("/p/clip.mp4"));
}

#[test]
fn the_mode_decides_how_thumbnails_are_scaled() {
    let source = image::DynamicImage::ImageRgba8(gradient(200, 100));
    let picture = bitmap(200, 100);
    let sharp = ThumbnailGenerator::resize_image(&picture, 50, ResizeMode::Quality).unwrap();
    let fast = ThumbnailGenerator::resize_image(&picture, 50, ResizeMode::Fast).unwrap();
    let by = |filter| source.resize_exact(100, 50, filter).to_rgba8().into_raw();
    assert_eq!(sharp.rgba, by(image::imageops::FilterType::CatmullRom));
    assert_eq!(fast.rgba, by(image::imageops::FilterType::Triangle));
    let bytes = encoded(200, 100, image::ImageFormat::Png);
    let (_, result) =
        ThumbnailGenerator::generate_thumbnail_with_mode(&bytes, "/p/a.png", 50, ResizeMode::Fast).unwrap();
    assert_eq!((result.width, result.height), (100, 50));
}

#[test]
fn thumbnails_keep_the_proportions() {
    for (w, h) in [(1920u32, 1080u32), (4000, 3000), (333, 777), (65536, 65536), (1000, 999)] {
        let (width, height) = ThumbnailGenerator::calculate_dimensions(w, h, 256);
        let off = width as i64 * h as i64 - height as i64 * w as i64;
        assert!(2 * off.abs() <= h as i64, "{w} {h}");
    }
    for (w, h) in [(100u32, 5000u32), (20000, 300), (1, 65536), (65536, 1), (64000, 7)] {
        let (width, height) = ThumbnailGenerator::calculate_dimensions(w, h, 256);
        let off = height as i64 * w as i64 - width as i64 * h as i64;
        assert!(width == 64 || width == 1024);
        assert!(off.abs() <= w as i64 && (height == 1 || 2 * off.abs() <= w as i64), "{w} {h}");
    }
}

#[test]
fn sides_that_are_too_long_are_not_scaled() {
    let long = |width: u32| Bitmap { width, height: 1, rgba: vec![9; 4 * width as usize] };
    assert!(scale_down(long(3_000_000), 2_000_000).is_none());
    assert_eq!(scale_down(long(3_000_000), 1_000_000).unwrap().width, 1_000_000);
    assert!(ThumbnailGenerator::resize_image(&long(0), 0x10_0001, ResizeMode::Quality).is_err());
}

#[test]
fn ebml_numbers_take_the_bytes_that_their_size_tells() {
    let read = MetadataExtractor::read_ebml_uint;
    assert_eq!(read(&[0x82, 0x07, 0x80, 0xBA, 0x82]), Some(1920));
    assert_eq!(read(&[0x81, 0x50, 0x07]), Some(0x50));
    assert_eq!(read(&[0x40, 0x02, 0x04, 0x38]), Some(1080));
    assert_eq!(read(&[0x84, 0, 0, 0x07, 0x80]), Some(1920));
    assert_eq!(read(&[0x01, 0, 0, 0, 0, 0, 0, 0x02, 0x07, 0x80]), Some(1920));
    assert_eq!(read(&[0x83, 0x07, 0x80]), None);
    assert_eq!(read(&[0x83, 0x01, 0x00, 0x00]), None);
    assert_eq!(read(&[0x82, 0, 0]), None);
    assert_eq!(read(&[0x80, 0x07]), None);
    assert_eq!(read(&[0x00, 0x07, 0x80]), None);
    assert_eq!(read(&[0xFF, 0x07, 0x80]), None);
    assert_eq!(read(&[]), None);

    // A width, another element, a height, and more.
    let mut video = vec![0x1A, 0x45, 0xDF, 0xA3];
    video.extend([0xB0, 0x82, 0x07, 0x80, 0x9A, 0x81, 0x02, 0xBA, 0x82, 0x04, 0x38]);
    video.extend([0u8; 16]);
    assert_eq!(MetadataExtractor::parse_matroska_dimensions(&video), (1920, 1080));
    assert_eq!(MetadataExtractor::extract_video_dimensions("mkv", Some(&video)), (1920, 1080));
}

/// A track header as it stands in a file.
fn track_header(version: u8) -> Vec<u8> {
    let mut out = vec![0, 0, 0, 0];
    out.extend(b"tkhd");
    out.extend([version, 0, 0, 7]);
    out.extend(vec![0u8; if version == 0 { 20 } else { 32 }]);
    out.extend([0u8; 16]);
    for word in [0x10000u32, 0, 0, 0, 0x10000, 0, 0, 0, 0x4000_0000, 1920 << 16, 1080 << 16] {
        out.extend(word.to_be_bytes());
    }
    out
}

#[test]
fn track_headers_give_their_size() {
    for version in [0, 1] {
        let mut video = vec![0u8; 40];
        video.extend(track_header(version));
        video.extend([0u8; 16]);
        assert_eq!(MetadataExtractor::parse_mp4_dimensions(&video), (1920, 1080));
        assert_eq!(MetadataExtractor::extract_video_dimensions("mov", Some(&video)), (1920, 1080));
    }
    // A sample entry: reserved bytes and a reference, sixteen bytes, then the size.
    let mut video = vec![0u8; 8];
    video.extend(b"avc1");
    video.extend([0, 0, 0, 0, 0, 0, 0, 1]);
    video.extend([0u8; 16]);
    video.extend([0x05, 0x00, 0x02, 0xD0]);
    video.extend([0u8; 50]);
    assert_eq!(MetadataExtractor::parse_mp4_dimensions(&video), (1280, 720));
}

#[test]
fn workers_bring_what_one_would() {
    let all: Vec<(MediaItem, bool)> =
        (0..5).map(|n| (MediaItem::new(format!("/p/{n}.jpg"), 1, 1), n == 3)).collect();
    let brought = |item: &(MediaItem, bool)| (item.0.path.clone(), item.1);
    for workers in 1..7 {
        let mut found = Vec::new();
        for worker in (0..workers).rev() {
            let (start, end) = ParallelScanner::worker_range(5, workers, worker);
            for (item, known) in &all[start..end] {
                found.push((MediaItem::new(item.path.clone(), 1, 1), *known));
            }
        }
        let (items, fresh, result) = ParallelScanner::merge(&found, 0);
        let paths: Vec<String> = items.iter().map(|i| i.path.clone()).collect();
        assert_eq!(paths, all.iter().map(|i| brought(i).0).collect::<Vec<_>>());
        assert_eq!(result.paths, paths);
        assert_eq!((fresh.len(), result.total_files, result.new_items), (4, 5, 4));
        assert_eq!((result.cached_items, result.error_count), (1, 0));
    }
}

#[test]
fn paths_are_read_by_their_components() {
    let texts = [
        "", ".", "..", "/", "//", "/.", "./", "./a", "a", "a/", "a/.", "a//b", "a/b", "a/./b", "/a", "//a/b",
        "/./a", "../a", "a/..", "a/../b", "./.", ".a", "a.b/c", "...", "/..", "./../a", "b", "a b", "a/B",
        "\u{e9}", "\u{10400}", "\u{ffee}", "/a/b.jpg",
    ];
    for a in texts {
        for b in texts {
            let (x, y) = (std::path::Path::new(a), std::path::Path::new(b));
            assert_eq!(canonical_path(a) == canonical_path(b), x == y, "{a} {b}");
            assert_eq!(is_same_path(a, b), x == y, "{a} {b}");
            let list = vec![a.to_string(), b.to_string()];
            assert_eq!(sort_paths(&list) == vec![0, 1], x <= y, "{a} {b}");
        }
    }
    assert_eq!(canonical_path("/a//b/./c/"), "//a/b/c/");
    assert_eq!(canonical_path("./a"), "./a/");
    assert_eq!(extension("a/b.jpg"), Some("jpg".to_string()));
    assert_eq!(extension("a/b.jpg/.."), None);
}

#[test]
fn thumbnail_sizes_are_those_of_the_hardware() {
    let mut state: u64 = 5;
    let mut next = move || {
        state = state.wrapping_mul(6364136223846793005).wrapping_add(1442695040888963407);
        (state >> 33) as u32
    };
    for _ in 0..2000 {
        let (w, h, target) = (next() % 9000 + 1, next() % 9000 + 1, next() % 600);
        let effective = target.min(h);
        let ratio = w as f64 / h as f64;
        let calculated = (effective as f64 * ratio).round() as u32;
        let width = calculated.clamp(64, 1024);
        let height =
            if width != calculated { (width as f64 / ratio).round() as u32 } else { effective };
        assert_eq!(ThumbnailGenerator::calculate_dimensions(w, h, target), (width.max(1), height.max(1)));
    }
    assert_eq!(ThumbnailGenerator::calculate_dimensions(0, 5, 256), (256, 256));
}

fn expect(got: Retrieval, wanted: Retrieval) {
    assert_eq!(format!("{got:?}"), format!("{wanted:?}"));
}

fn cache() -> ThumbnailCache {
    ThumbnailCache::new("/cache".to_string(), 64)
}

#[test]
fn thumbnails_come_from_memory_disk_or_the_source() {
    let mut cache = cache();
    let key = CacheKey::new("/p/a.jpg", 1, 2);
    let path = cache.disk_path(&key);
    assert_eq!(path, format!("/cache/{}", key.disk_filename()));
    expect(cache.get_or_generate("/p/a.jpg", 1, 2), Retrieval::ProbeDisk(path.clone()));
    expect(cache.after_probe(&key, true), Retrieval::LoadDisk(path.clone()));
    expect(cache.after_probe(&key, false), Retrieval::Generate(path.clone()));
    expect(cache.after_disk_load(&key, None), Retrieval::DiscardAndGenerate(path.clone()));
    expect(cache.after_generate(&key, None), Retrieval::Failed);
    let thumb = CachedThumbnail::new(42, 10, 5);
    assert_eq!(thumb.memory_bytes, 200);
    expect(cache.after_generate(&key, Some(thumb)), Retrieval::Ready(thumb));
    expect(cache.get_or_generate("/p/a.jpg", 1, 2), Retrieval::Ready(thumb));
    assert_eq!(cache.memory_usage(), 200);
    assert_eq!(cache.memory_entry_count(), 1);
    assert!(cache.contains("/p/a.jpg", 1, 2, false));
    assert!(!cache.contains("/p/a.jpg", 9, 2, false));
    assert!(cache.contains("/p/a.jpg", 9, 2, true));
    assert!(cache.remove("/p/a.jpg", 1, 2, false));
    assert!(!cache.remove("/p/a.jpg", 1, 2, false));
    assert_eq!(cache.memory_usage(), 0);
    assert!(cache.preload(&key, Some(thumb)));
    cache.clear_memory();
    assert_eq!(cache.memory_entry_count(), 0);
    cache.set_thumb_height(128);
    assert_eq!(cache.thumb_height(), 128);
    assert_eq!(cache.cache_dir(), "/cache");
}

#[test]
fn memory_is_kept_within_its_limit() {
    let mut cache = cache();
    let side = 2048;
    for i in 0..6 {
        let key = CacheKey::new(&format!("/p/{i}.jpg"), 1, 2);
        cache.add_to_memory_cache(&key, CachedThumbnail::new(i, side, side));
    }
    assert!(cache.memory_usage() <= cache.max_memory());
    assert_eq!(cache.memory_entry_count(), 4);
    assert_eq!(cache.textures(), vec![5, 4, 3, 2]);
    assert!(!cache.in_memory(&CacheKey::new("/p/0.jpg", 1, 2)));
    assert!(cache.in_memory(&CacheKey::new("/p/5.jpg", 1, 2)));
}

#[test]
fn requests_are_served_nearest_first() {
    let file = |p: &str| (p.to_string(), 1i64, 2i64);
    let rows: Vec<RowFiles> = (0..8)
        .map(|i| RowFiles { row_index: i, files: vec![file(&format!("/p/{i}.jpg"))] })
        .collect();
    let requests = requests_for_rows(&rows, 3, 4);
    let order: Vec<(u32, u32)> = requests.iter().map(|r| (r.row_index, r.priority)).collect();
    assert_eq!(order[0].0, 3);
    assert_eq!(order[1].0, 4);
    assert!(order.windows(2).all(|w| w[0].1 <= w[1].1));
    assert!(order.iter().all(|(row, _)| *row <= 7));

    let mut queue = ThumbnailQueue::new(3);
    assert_eq!(queue.workers(), 3);
    let asked = queue.request_visible_rows(&rows, 3, 4);
    assert_eq!(asked.len(), requests.len());
    assert_eq!(queue.visible_range(), (3, 4));
    let one = ThumbnailRequest::new("/p/1.jpg".to_string(), 1, 2);
    assert!(queue.request(&one, false));
    assert!(!queue.request(&one, false));
    assert!(!queue.request(&ThumbnailRequest::new("/p//1.jpg".to_string(), 1, 2), false));
    assert!(!queue.request(&ThumbnailRequest::new("/p/2.jpg".to_string(), 1, 2), true));
    assert_eq!(queue.pending_count(), 1);
    assert!(queue.is_busy(0));
    assert!(queue.sent("/p/1.jpg", SendOutcome::Sent));
    queue.finished("/p/1.jpg");
    assert_eq!(queue.pending_count(), 0);
    assert!(!queue.is_busy(0) && queue.is_busy(1));
    assert!(queue.request(&one, false));
    assert!(!queue.sent("/p/1.jpg", SendOutcome::Full));
    assert_eq!(queue.pending_count(), 0);
    queue.request(&one, false);
    queue.cancel_all();
    assert_eq!(queue.pending_count(), 0);

    let done = result_of_request(&one, Ok(CachedThumbnail::new(9, 4, 3)));
    assert_eq!((done.texture, done.width, done.height, done.error), (Some(9), 4, 3, None));
    let failed = result_of_request(&one, Err("broken".to_string()));
    assert_eq!((failed.texture, failed.error), (None, Some("broken".to_string())));
    let (queue, cache) =
        ThumbnailQueueBuilder::new().workers(9).max_memory_mb(100).build("/default".to_string());
    assert_eq!(queue.workers(), 4);
    assert_eq!(cache.cache_dir(), "/default");
    assert_eq!(cache.max_memory(), 100 * 1024 * 1024);
}

#[test]
fn keys_hash_the_path_the_time_and_the_size() {
    let mut bytes = vec![2u8];
    bytes.extend(b"/p/a.jpg");
    bytes.extend(1i64.to_le_bytes());
    bytes.extend(2i64.to_le_bytes());
    let key = CacheKey::new("/p/a.jpg", 1, 2);
    assert_eq!(key.hash, xxhash_rust::xxh3::xxh3_64(&bytes));
    assert_ne!(key.hash, CacheKey::new("/p/a.jpg", 2, 1).hash);
    assert_eq!(key.disk_filename(), format!("{:016x}.jpg", key.hash));
}

#[test]
fn items_are_read_back_from_their_rows() {
    let mut item = MediaItem::new("/p/a.mp4".to_string(), 1920, 1080);
    item.media_type = MediaType::Video;
    item.duration_ms = Some(5);
    item.thumb_path = Some("/t".to_string());
    item.thumb_w = Some(1);
    item.thumb_h = Some(2);
    item.last_seen = 77;
    let back = row_to_item(item_to_row(&item));
    assert_eq!(back.path, item.path);
    assert_eq!(back.media_type, MediaType::Video);
    assert_eq!((back.duration(), back.thumb_dimensions(), back.last_seen()), (Some(5), Some((1, 2)), 77));
    for t in [MediaType::Image, MediaType::Video, MediaType::Folder] {
        assert_eq!(int_to_media_type(media_type_to_int(t)), t);
    }
    assert_eq!(int_to_media_type(99), MediaType::Image);
    let stats = MediaStore::stats(1, 2, 3, 4, 4096);
    assert_eq!(stats.db_size_bytes, 16384);
    assert_eq!(f32::from_bits(item.aspect_ratio().bits), 1920.0 / 1080.0);
}

#[test]
fn paths_are_taken_apart() {
    assert_eq!(extension("/p/a.tar.GZ"), Some("GZ".to_string()));
    assert_eq!(extension("/p/.hidden"), None);
    assert_eq!(extension("/p/name"), None);
    assert_eq!(extension_of_name("a."), Some(String::new()));
    assert_eq!(join("/p", "a"), "/p/a");
    assert_eq!(join("/p/", "a"), "/p/a");
    assert!(is_same_path("/p/./a", "/p/a") && is_same_path("/p//a", "/p/a"));
    assert!(!is_same_path("/p/a", "/p/b"));
    let list: Vec<String> =
        ["/p/b", "/p/a/z", "/p/a", "/p/B"].iter().map(|s| s.to_string()).collect();
    let order = sort_paths(&list);
    let mut expected: Vec<std::path::PathBuf> = list.iter().map(std::path::PathBuf::from).collect();
    expected.sort();
    let sorted: Vec<std::path::PathBuf> =
        order.iter().map(|i| std::path::PathBuf::from(&list[*i])).collect();
    assert_eq!(sorted, expected);
}

#[test]
fn dimensions_are_read_from_headers() {
    let png = encoded(33, 44, image::ImageFormat::Png);
    assert_eq!(MetadataExtractor::extract_dimensions("/p/a.png", Some(&png)), Ok((33, 44)));
    let jpeg = encoded(21, 12, image::ImageFormat::Jpeg);
    assert_eq!(MetadataExtractor::extract_image_dimensions("jpg", Some(&jpeg)), (21, 12));
    assert_eq!(MetadataExtractor::extract_image_dimensions("jpg", None), (0, 0));
    assert_eq!(MetadataExtractor::parse_mp4_dimensions(b"short"), (0, 0));
    assert_eq!(MetadataExtractor::parse_avi_dimensions(b"short"), (0, 0));
    assert_eq!(MetadataExtractor::parse_matroska_dimensions(b"short"), (0, 0));
}

#[test]
fn scans_are_counted_and_saved_in_batches() {
    let item = |n: usize| MediaItem::new(format!("/p/{n}.jpg"), 1, 1);
    let mut state = ScanState::new(6, 2);
    assert!(state.accept(item(0), false).is_none());
    assert!(state.accept(item(1), true).is_none());
    let batch = state.accept(item(2), false).unwrap();
    assert_eq!(batch.len(), 2);
    assert_eq!((batch[0].path.as_str(), batch[1].path.as_str()), ("/p/0.jpg", "/p/2.jpg"));
    assert!(matches!(state.batch_saved(), ScanProgress::BatchSaved { processed: 3, total: 6 }));
    state.reject();
    assert!(state.accept(item(3), false).is_none());
    let rest = state.take_rest().unwrap();
    assert_eq!(rest.len(), 1);
    assert_eq!(rest[0].path, "/p/3.jpg");
    assert!(state.take_rest().is_none());
    match state.completed() {
        ScanProgress::Completed { total, new, cached, errors } => {
            assert_eq!((total, new, cached, errors), (4, 3, 1, 1))
        }
        _ => panic!("not completed"),
    }
    let (items, result) = state.finish();
    assert_eq!(items.len(), 4);
    assert_eq!((result.new_items, result.cached_items, result.error_count), (3, 1, 1));
    assert_eq!(result.paths, ["/p/0.jpg", "/p/1.jpg", "/p/2.jpg", "/p/3.jpg"]);

    let found = vec![(item(3), false), (item(1), true), (item(2), false)];
    let (items, fresh, result) = ParallelScanner::merge(&found, 1);
    assert_eq!(items.iter().map(|i| i.path.as_str()).collect::<Vec<_>>(), ["/p/1.jpg", "/p/2.jpg", "/p/3.jpg"]);
    assert_eq!(fresh.iter().map(|i| i.path.as_str()).collect::<Vec<_>>(), ["/p/2.jpg", "/p/3.jpg"]);
    assert_eq!((result.total_files, result.new_items, result.cached_items, result.error_count), (3, 2, 1, 1));
    assert_eq!(result.paths, ["/p/1.jpg", "/p/2.jpg", "/p/3.jpg"]);

    let mut covered = 0;
    for worker in 0..4 {
        let (start, end) = ParallelScanner::worker_range(10, 4, worker);
        assert_eq!(start, covered);
        covered = end;
    }
    assert_eq!(covered, 10);
    assert_eq!(ParallelScanner::batch_range(5, 2, 2), Some((4, 5)));
    assert_eq!(ParallelScanner::batch_range(5, 2, 3), None);
    let config = ScanConfig { recursive: false, max_depth: 0, batch_size: 1, follow_symlinks: false };
    assert_eq!(FileScanner::with_config(config).config.walk_depth(), Some(1));
}

/// A picture of sixteen bits per sample, in shades that eight bits cannot tell apart.
fn deep_picture(width: u32, height: u32) -> image::DynamicImage {
    image::DynamicImage::ImageRgb16(image::ImageBuffer::from_fn(width, height, |x, y| {
        image::Rgb([(x * 97) as u16, (y * 131 + x) as u16, (x * y * 7) as u16])
    }))
}

fn deep_bytes(picture: &image::DynamicImage) -> Vec<u8> {
    picture.to_rgba16().into_raw().into_iter().flat_map(u16::to_le_bytes).collect()
}

#[test]
fn sixteen_bits_are_kept_until_a_picture_is_shown() {
    let source = deep_picture(700, 40);
    let mut out = Cursor::new(Vec::new());
    source.write_to(&mut out, image::ImageFormat::Png).unwrap();
    let bytes = out.into_inner();

    let opened = open_image(&bytes).unwrap();
    assert_eq!((opened.width, opened.height), (700, 40));
    assert_eq!(opened.rgba, deep_bytes(&source));
    let turned = apply_exif_orientation(open_image(&bytes).unwrap(), 7);
    assert_eq!((turned.width, turned.height), (40, 700));
    assert_eq!(turned.rgba, deep_bytes(&source.rotate90().flipv()));
    assert_eq!(to_eight(opened).rgba, source.to_rgba8().into_raw());

    let triangle = image::imageops::FilterType::Triangle;
    let full = decode_image_full(&bytes, 0).unwrap();
    assert_eq!(full.picture.rgba, source.to_rgba8().into_raw());
    let (width, height) = fit_within(700, 40, 350).unwrap();
    let small = source.resize_exact(width, height, triangle);
    let kept = decode_image_downscaled(&bytes, &bytes, 350, 0).unwrap();
    assert_eq!(kept.picture.rgba, deep_bytes(&small));
    let shown = decode_image_viewport(&bytes, &bytes, 350, 0).unwrap();
    assert_eq!(shown.picture.rgba, small.to_rgba8().into_raw());
    assert_eq!((shown.orig_width, shown.orig_height, shown.embedded), (700, 40, false));

    let row = decode_row_preview(&bytes).unwrap();
    let expected = source.resize_exact(row.width, row.height, triangle).to_rgba8();
    assert_eq!(row.width, 512);
    assert_eq!(row.rgba, expected.into_raw());

    let (jpeg, width, height) =
        ThumbnailGenerator::generate_in_memory(&bytes, "/p/deep.png", 20).unwrap();
    let small = source.resize_exact(width, height, image::imageops::FilterType::CatmullRom);
    let mut expected = Vec::new();
    let encoder = image::codecs::jpeg::JpegEncoder::new_with_quality(&mut expected, 85);
    small.to_rgb8().write_with_encoder(encoder).unwrap();
    assert_eq!(jpeg, expected);
}
