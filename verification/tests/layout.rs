use idxd::layout::justified::{JustifiedLayout, RowBreak};
use idxd::layout::layout_cache::{CachedLayoutComputer, LayoutCache, MAX_CACHE_ENTRIES};
use idxd::models::media_item::{MediaItem, MediaType};
use idxd::single::Single;

fn single(x: f32) -> Single {
    Single { bits: x.to_bits() }
}

fn number(x: Single) -> f32 {
    f32::from_bits(x.bits)
}

fn make_item_at(path: &str, width: u32, height: u32, mtime: i64) -> MediaItem {
    MediaItem {
        path: path.to_string(),
        media_type: MediaType::Image,
        mtime,
        size: 0,
        width,
        height,
        duration_ms: None,
        thumb_path: None,
        thumb_w: None,
        thumb_h: None,
        last_seen: 0,
    }
}

fn make_item(path: &str, width: u32, height: u32) -> MediaItem {
    make_item_at(path, width, height, 0)
}

#[test]
fn justified_test_empty_items() {
    let layout = JustifiedLayout::default();
    let rows = layout.compute(&vec![], single(1920.0));
    assert!(rows.is_empty());
}

#[test]
fn test_single_item() {
    let layout = JustifiedLayout::default();
    let items = vec![make_item("a.jpg", 1920, 1080)];
    let rows = layout.compute(&items, single(1920.0));

    assert_eq!(rows.len(), 1);
    let (_, expected_h) = layout.tile_dimensions(&items[0]);
    assert!((number(rows[0].height_px) - number(expected_h)).abs() < 0.01);
}

#[test]
fn test_multiple_rows() {
    let layout = JustifiedLayout::default();
    let items: Vec<MediaItem> =
        (0..12).map(|i| make_item(&format!("{}.jpg", i), 1920, 1080)).collect();

    let rows = layout.compute(&items, single(1920.0));

    assert!(rows.len() > 1, "Expected > 1 rows, got {}", rows.len());
    let total_items: usize = rows.iter().map(|r| r.items.len()).sum();
    assert_eq!(total_items, items.len());
}

#[test]
fn test_exact_row_fill() {
    let layout = JustifiedLayout::default();
    let items: Vec<MediaItem> =
        (0..10).map(|i| make_item(&format!("{}.jpg", i), 1920, 1080)).collect();

    let rows = layout.compute(&items, single(1920.0));

    assert!(rows.len() > 1);
    let total_items: usize = rows.iter().map(|r| r.items.len()).sum();
    assert_eq!(total_items, items.len());
}

#[test]
fn test_panorama_keeps_uniform_height() {
    let layout = JustifiedLayout::default();
    let viewport = 3000.0;
    let items = vec![make_item("pano.jpg", 12000, 1000)];
    let rows = layout.compute(&items, single(viewport));
    assert_eq!(rows.len(), 1);
    let row = &rows[0];
    assert!(
        (number(row.height_px) - number(layout.target_height)).abs() < 0.01,
        "expected panorama tile height to stay at target height"
    );
}

#[test]
fn test_row_breaks_match_compute() {
    let layout = JustifiedLayout::default();
    let items: Vec<MediaItem> =
        (0..15).map(|i| make_item(&format!("{}.jpg", i), 1920, 1080)).collect();

    let viewport_width = single(1920.0);
    let rows = layout.compute(&items, viewport_width);
    let breaks = layout.compute_breaks(&items, viewport_width);

    // Same number of rows
    assert_eq!(rows.len(), breaks.len());

    // Heights should match
    for (row, brk) in rows.iter().zip(breaks.iter()) {
        assert!((number(row.height_px) - number(brk.row_height)).abs() < 0.01);
    }
    assert_eq!(breaks[0].start_index, 0);
    assert_eq!(breaks[breaks.len() - 1].end_index, 15);
}

#[test]
fn test_rows_from_breaks() {
    let layout = JustifiedLayout::default();
    let items: Vec<MediaItem> =
        (0..15).map(|i| make_item(&format!("{}.jpg", i), 1920, 1080)).collect();

    let viewport_width = single(1920.0);
    let breaks = layout.compute_breaks(&items, viewport_width);
    let rows = layout.rows_from_breaks(&items, &breaks);
    let direct_rows = layout.compute(&items, viewport_width);

    // Same structure
    assert_eq!(rows.len(), direct_rows.len());
    for (r1, r2) in rows.iter().zip(direct_rows.iter()) {
        assert_eq!(r1.items.len(), r2.items.len());
        assert!((number(r1.height_px) - number(r2.height_px)).abs() < 0.01);
        for (i1, i2) in r1.items.iter().zip(r2.items.iter()) {
            assert_eq!(i1.media_path, i2.media_path);
        }
    }
}

#[test]
fn test_mixed_aspect_ratios() {
    let layout = JustifiedLayout::default();
    let items = vec![
        make_item("wide.jpg", 1920, 1080),   // 16:9
        make_item("square.jpg", 1000, 1000), // 1:1
        make_item("tall.jpg", 1080, 1920),   // 9:16
        make_item("wide2.jpg", 2560, 1080),  // 21:9
    ];

    let rows = layout.compute(&items, single(1920.0));

    // Verify all items are accounted for
    let total_items: usize = rows.iter().map(|r| r.items.len()).sum();
    assert_eq!(total_items, items.len());

    // All tiles should have a uniform height.
    for row in &rows {
        for item in &row.items {
            assert!((number(item.display_h) - number(layout.target_height)).abs() < 0.01);
        }
    }
}

#[test]
fn test_height_clamping() {
    let layout = JustifiedLayout {
        target_height: single(220.0),
        min_height: single(140.0),
        max_height: single(320.0),
        gap: single(2.0),
    };

    // Create many small aspect ratio items (tall images)
    // This should try to create a very short row, testing min clamp
    let items: Vec<MediaItem> = (0..20)
        .map(|i| make_item(&format!("{}.jpg", i), 100, 400)) // Very tall
        .collect();

    let rows = layout.compute(&items, single(1920.0));

    for row in &rows {
        assert!(
            number(row.height_px) >= number(layout.min_height),
            "Row height {} below min {}",
            number(row.height_px),
            number(layout.min_height)
        );
        for item in &row.items {
            assert!(
                number(item.display_h) >= number(layout.min_height)
                    && number(item.display_h) <= number(layout.max_height),
                "Item height {} outside [{}, {}]",
                number(item.display_h),
                number(layout.min_height),
                number(layout.max_height)
            );
            assert!(number(item.offset_top) >= 0.0);
        }
    }
}

#[test]
fn layout_cache_test_width_bucket() {
    assert_eq!(LayoutCache::width_bucket(single(1920.0)), 38);
    assert_eq!(LayoutCache::width_bucket(single(1900.0)), 38);
    assert_eq!(LayoutCache::width_bucket(single(1950.0)), 39);
    assert_eq!(LayoutCache::width_bucket(single(100.0)), 2);
}

#[test]
fn test_list_hash_consistency() {
    let items =
        vec![make_item_at("a.jpg", 100, 100, 1000), make_item_at("b.jpg", 200, 200, 2000)];

    let hash1 = LayoutCache::compute_list_hash(&items);
    let hash2 = LayoutCache::compute_list_hash(&items);

    assert_eq!(hash1, hash2);
}

#[test]
fn test_list_hash_changes_on_mtime() {
    let items1 = vec![make_item_at("a.jpg", 100, 100, 1000)];
    let items2 = vec![make_item_at("a.jpg", 100, 100, 2000)]; // Different mtime

    let hash1 = LayoutCache::compute_list_hash(&items1);
    let hash2 = LayoutCache::compute_list_hash(&items2);

    assert_ne!(hash1, hash2);
}

#[test]
fn test_list_hash_changes_on_order() {
    let items1 =
        vec![make_item_at("a.jpg", 100, 100, 1000), make_item_at("b.jpg", 200, 200, 2000)];
    let items2 =
        vec![make_item_at("b.jpg", 200, 200, 2000), make_item_at("a.jpg", 100, 100, 1000)];

    let hash1 = LayoutCache::compute_list_hash(&items1);
    let hash2 = LayoutCache::compute_list_hash(&items2);

    assert_ne!(hash1, hash2);
}

#[test]
fn test_cache_miss_then_hit() {
    let mut cache = LayoutCache::new();
    let width_bucket = 38;
    let list_hash = 12345u64;

    // Initial miss
    assert!(cache.get_breaks(width_bucket, list_hash).is_none());

    // Store breaks
    let breaks = vec![
        RowBreak { start_index: 0, end_index: 3, row_height: single(220.0) },
        RowBreak { start_index: 3, end_index: 5, row_height: single(220.0) },
    ];
    cache.set(width_bucket, list_hash, breaks.clone(), 5);

    // Now should hit
    let retrieved = cache.get_breaks(width_bucket, list_hash);
    assert!(retrieved.is_some());
    let retrieved = retrieved.unwrap();
    assert_eq!(retrieved.len(), 2);
    assert_eq!(retrieved, breaks);
}

#[test]
fn test_cache_eviction() {
    let mut cache = LayoutCache::new();
    let breaks = vec![RowBreak { start_index: 0, end_index: 1, row_height: single(220.0) }];

    // Fill cache beyond capacity
    for i in 0..(MAX_CACHE_ENTRIES + 5) {
        cache.set(i as u32, i as u64, breaks.clone(), 1);
    }

    // Cache should not exceed max size
    assert!(cache.len() <= MAX_CACHE_ENTRIES);
    // The longest unused are gone, the others are there.
    assert!(cache.get_breaks(4, 4).is_none());
    assert!(cache.get_breaks(5, 5).is_some());
    assert!(cache.get_breaks(12, 12).is_some());
}

#[test]
fn test_cached_layout_computer() {
    let mut computer = CachedLayoutComputer::new();

    let items: Vec<MediaItem> =
        (0..10).map(|i| make_item_at(&format!("{}.jpg", i), 1920, 1080, i as i64)).collect();

    // First compute (cache miss)
    let rows1 = computer.compute(&items, single(1920.0));
    assert!(!rows1.is_empty());

    // Second compute (cache hit) - should return same result
    let rows2 = computer.compute(&items, single(1920.0));
    assert_eq!(rows1.len(), rows2.len());

    // Verify cache is populated
    assert!(!computer.cache.is_empty());
}

#[test]
fn test_cache_invalidation_on_different_width_bucket() {
    let mut computer = CachedLayoutComputer::new();

    let items: Vec<MediaItem> =
        (0..10).map(|i| make_item_at(&format!("{}.jpg", i), 1920, 1080, i as i64)).collect();

    // Compute at width 1920 (bucket 38)
    let rows1 = computer.compute(&items, single(1920.0));

    // Compute at width 1500 (bucket 30) - should miss cache
    let rows2 = computer.compute(&items, single(1500.0));

    // Different viewport widths can produce different row counts
    // The important thing is both are valid layouts
    assert!(!rows1.is_empty());
    assert!(!rows2.is_empty());

    // Cache should have both entries
    assert!(computer.cache.len() >= 1);
    assert_eq!(computer.cache.len(), 2);
    computer.invalidate();
    assert!(computer.cache.is_empty());
}

#[test]
fn a_computer_keeps_the_layout_it_was_given() {
    let layout = || JustifiedLayout { target_height: single(100.0), ..JustifiedLayout::default() };
    let items = vec![make_item("a.jpg", 200, 100), make_item("b.jpg", 200, 100)];
    let mut computer = CachedLayoutComputer::with_layout(layout());
    for _ in 0..2 {
        let rows = computer.compute(&items, single(300.0));
        assert_eq!(rows.len(), layout().compute(&items, single(300.0)).len());
        assert_eq!(rows.len(), 2);
        assert!(rows.iter().all(|row| row.height_px == single(100.0)));
    }
    assert_eq!(computer.cache.len(), 1);
}

#[test]
fn layout_cache_test_empty_items() {
    let mut computer = CachedLayoutComputer::new();
    let rows = computer.compute(&vec![], single(1920.0));
    assert!(rows.is_empty());
}

#[test]
fn test_set_rows_and_retrieve() {
    let mut cache = LayoutCache::new();
    let layout = JustifiedLayout::default();

    let items: Vec<MediaItem> =
        (0..5).map(|i| make_item_at(&format!("{}.jpg", i), 1920, 1080, i as i64)).collect();

    // Compute rows directly
    let rows = layout.compute(&items, single(1920.0));
    let width_bucket = 38;
    let list_hash = LayoutCache::compute_list_hash(&items);

    // Store via set_rows
    cache.set_rows(width_bucket, list_hash, &rows, &items);

    // Retrieve and verify
    let retrieved = cache.get(width_bucket, list_hash, &items, &layout);
    assert!(retrieved.is_some());
    let retrieved_rows = retrieved.unwrap();
    assert_eq!(retrieved_rows.len(), rows.len());
}

#[test]
fn cached_layout_of_other_length_is_not_taken() {
    let mut cache = LayoutCache::new();
    let layout = JustifiedLayout::default();
    let items = vec![make_item("a.jpg", 100, 100)];
    cache.set(1, 2, vec![RowBreak { start_index: 0, end_index: 2, row_height: single(1.0) }], 2);
    assert!(cache.get(1, 2, &items, &layout).is_none());
}

#[test]
fn used_layout_outlives_unused_ones() {
    let mut cache = LayoutCache::new();
    let layout = JustifiedLayout::default();
    let items = vec![make_item("a.jpg", 100, 100)];
    for i in 0..8u32 {
        let breaks = vec![RowBreak { start_index: 0, end_index: 1, row_height: single(220.0) }];
        cache.set(i, 0, breaks, 1);
    }
    assert!(cache.get(0, 0, &items, &layout).is_some());
    cache.set(8, 0, vec![], 1);
    assert!(cache.get_breaks(0, 0).is_some());
    assert!(cache.get_breaks(1, 0).is_none());
    // Keeping under a known key drops nothing.
    cache.set(8, 0, vec![], 2);
    assert_eq!(cache.len(), 8);
}

#[test]
fn tiles_have_exact_widths() {
    let layout = JustifiedLayout::default();
    let (w, h) = layout.tile_dimensions(&make_item("a.jpg", 1920, 1080));
    assert_eq!(number(h), 220.0);
    assert_eq!(number(w), 220.0f32 * (1920.0f32 / 1080.0f32));
    // Without a height the tile is square.
    let (w, _) = layout.tile_dimensions(&make_item("a.jpg", 1920, 0));
    assert_eq!(number(w), 220.0);
    // Extremely tall pictures keep a hundredth.
    let (w, _) = layout.tile_dimensions(&make_item("a.jpg", 1, 4000));
    assert_eq!(number(w), (220.0f32 * 0.01f32).max(1.0));
    // Videos of an unbelievable shape are shown as sixteen to nine.
    let mut video = make_item("a.mp4", 10000, 10);
    video.media_type = MediaType::Video;
    let (w, _) = layout.tile_dimensions(&video);
    assert_eq!(number(w), 220.0f32 * (16.0f32 / 9.0f32));
}

#[test]
fn no_viewport_no_rows() {
    let layout = JustifiedLayout::default();
    let items = vec![make_item("a.jpg", 100, 100)];
    assert!(layout.compute(&items, single(0.0)).is_empty());
    assert!(layout.compute(&items, single(-5.0)).is_empty());
    assert_eq!(layout.compute(&items, single(f32::NAN)).len(), 1);
}

#[test]
fn total_height_counts_gaps() {
    let layout = JustifiedLayout::default();
    let items: Vec<MediaItem> =
        (0..12).map(|i| make_item(&format!("{}.jpg", i), 1000, 1000)).collect();
    let rows = layout.compute(&items, single(900.0));
    assert_eq!(rows.len(), 3);
    assert_eq!(number(layout.total_height(&rows, single(4.0))), 668.0);
    assert_eq!(number(layout.total_height(&vec![], single(4.0))), 0.0);
}

/// The layout in hardware arithmetic.
fn reference_rows(widths: &[f32], gap: f32, viewport: f32) -> Vec<usize> {
    let mut rows = Vec::new();
    let mut n = 0usize;
    let mut width = 0.0f32;
    for w in widths {
        if n > 0 && width + gap + w > viewport.max(1.0) {
            rows.push(n);
            n = 0;
            width = 0.0;
        }
        if n > 0 {
            width += gap;
        }
        n += 1;
        width += w;
    }
    rows.push(n);
    rows
}

#[test]
fn rows_break_as_in_hardware_arithmetic() {
    let mut seed = 0x2545_f491u32;
    let mut next = move || {
        seed ^= seed << 13;
        seed ^= seed >> 17;
        seed ^= seed << 5;
        seed
    };
    for round in 0..40 {
        let layout = JustifiedLayout::new(
            single(50.0 + (next() % 300) as f32 / 7.0),
            single(1.0),
            single(10_000.0),
            single((round % 3) as f32 * 0.3),
        );
        let items: Vec<MediaItem> =
            (0..60).map(|_| make_item("x.png", 1 + next() % 4000, 1 + next() % 4000)).collect();
        let viewport = 300.0 + (next() % 1500) as f32 / 3.0;
        let widths: Vec<f32> = items
            .iter()
            .map(|i| {
                let ar = (i.width as f32 / i.height as f32).max(0.01);
                (number(layout.target_height) * ar).max(1.0)
            })
            .collect();
        let rows = layout.compute(&items, single(viewport));
        let counts: Vec<usize> = rows.iter().map(|r| r.items.len()).collect();
        assert_eq!(counts, reference_rows(&widths, number(layout.gap), viewport));
    }
}

fn same_number(a: Single, b: f32) -> bool {
    let a = f32::from_bits(a.bits);
    (a.is_nan() && b.is_nan()) || a.to_bits() == b.to_bits()
}

#[test]
fn arithmetic_is_that_of_the_hardware() {
    let mut seed = 0x9e37_79b9u32;
    let mut next = move || {
        seed ^= seed << 13;
        seed ^= seed >> 17;
        seed ^= seed << 5;
        seed
    };
    let mut samples: Vec<u32> = vec![
        0, 1, 2, 0x007f_ffff, 0x0080_0000, 0x0080_0001, 0x3f80_0000, 0x3f80_0001, 0x4b7f_ffff,
        0x4b80_0000, 0x7f7f_ffff, 0x7f80_0000, 0x7fc0_0000, 0x3400_0000, 0x33ff_ffff, 0x5f00_0000,
        0x4f80_0000, 0x4f7f_ffff,
    ];
    for _ in 0..60 {
        samples.push(next() & 0x7fff_ffff);
    }
    for _ in 0..20 {
        samples.push(0x3f80_0000 + (next() % 0x0200_0000));
    }
    let signed: Vec<u32> = samples.iter().flat_map(|b| vec![*b, *b | 0x8000_0000]).collect();
    for a in &signed {
        for b in &signed {
            let (x, y) = (f32::from_bits(*a), f32::from_bits(*b));
            let (p, q) = (Single { bits: *a }, Single { bits: *b });
            assert!(same_number(p.plus(q), x + y), "{} + {}", x, y);
            assert!(same_number(p.times(q), x * y), "{} * {}", x, y);
            assert!(same_number(p.over(q), x / y), "{} / {}", x, y);
            assert_eq!(p.is_less(q), x < y);
            assert!(x == y || same_number(p.max(q), x.max(y)));
            assert!(x == y || same_number(p.min(q), x.min(y)));
        }
        let x = f32::from_bits(*a);
        assert_eq!((Single { bits: *a }).to_whole(), x as u32);
        assert_eq!((Single { bits: *a }).is_nan(), x.is_nan());
        assert!(same_number(Single::from_whole(*a as u64), *a as f32));
        let wide = (*a as u64) << 31 | (*a as u64);
        assert!(same_number(Single::from_whole(wide), wide as f32));
    }
    assert!(same_number(single(7.5).clamp(single(1.0), single(5.0)), 5.0));
    assert!(same_number(single(0.5).clamp(single(1.0), single(5.0)), 1.0));
}

#[test]
fn lists_are_hashed_by_paths_and_times() {
    let hash = |list: &[(&str, i64, u32)]| {
        let items = list.iter().map(|i| make_item_at(i.0, i.2, 9, i.1)).collect::<Vec<_>>();
        LayoutCache::compute_list_hash(&items)
    };
    assert_eq!(hash(&[("a.jpg", 1000, 5)]), hash(&[("a.jpg", 1000, 7)]));
    assert_ne!(hash(&[("a.jpg", 1000, 5)]), hash(&[("a.jpg", 2000, 5)]));
    let (a, b) = (("a.jpg", 1000, 5), ("b.jpg", 2000, 5));
    assert_ne!(hash(&[a, b]), hash(&[b, a]));
}
