//! Records of the media database and the decisions made on them.
use vstd::prelude::*;

use crate::models::media_item::{MediaItem, MediaType};
use crate::text::same_text;

verus! {

/// What is known of a stored layout for a viewport width and a sort order.
#[derive(Debug)]
pub struct LayoutMeta {
    pub width_bucket: i32,
    pub sort_key: String,
    pub item_count: i32,
    pub list_hash: String,
    pub updated_at: i64,
}

/// One stored row of a layout.
#[derive(Debug)]
pub struct LayoutRow {
    pub width_bucket: i32,
    pub sort_key: String,
    pub row_index: i32,
    /// The height of the row, as the bits of a double precision number.
    pub row_height: u64,
    pub start_index: i32,
    pub end_index: i32,
}

/// What tells whether a stored media item is still up to date.
#[derive(Debug)]
pub struct CacheEntry {
    pub path: String,
    pub mtime: i64,
    pub size: i64,
}

/// The size of the database.
#[derive(Clone, Copy, PartialEq, Eq, Structural, Debug)]
pub struct DbStats {
    pub media_count: i64,
    pub layout_meta_count: i64,
    pub layout_rows_count: i64,
    pub db_size_bytes: i64,
}

/// The number that stands for a kind of item in the database.
pub open spec fn stored_type(t: MediaType) -> i32 {
    match t {
        MediaType::Image => 0,
        MediaType::Video => 1,
        MediaType::Folder => 2,
    }
}

/// The kind of item that a number in the database stands for; an unknown number
/// stands for an image.
pub open spec fn loaded_type(n: i32) -> MediaType {
    if n == 1 {
        MediaType::Video
    } else if n == 2 {
        MediaType::Folder
    } else {
        MediaType::Image
    }
}

/// The number that stands for a kind of item in the database.
pub fn media_type_to_int(media_type: MediaType) -> (r: i32)
    ensures
        r == stored_type(media_type),
{
    match media_type {
        MediaType::Image => 0,
        MediaType::Video => 1,
        MediaType::Folder => 2,
    }
}

/// The kind of item that a number in the database stands for.
pub fn int_to_media_type(value: i32) -> (r: MediaType)
    ensures
        r == loaded_type(value),
{
    match value {
        1 => MediaType::Video,
        2 => MediaType::Folder,
        _ => MediaType::Image,
    }
}

/// What is stored of a kind of item is read back as the same kind.
pub proof fn media_type_round_trip(t: MediaType)
    ensures
        loaded_type(stored_type(t)) == t,
{
}

/// A media item as the columns of its row in the database.
#[derive(Debug)]
pub struct MediaRow {
    pub path: String,
    pub media_type: i32,
    pub mtime: i64,
    pub size: i64,
    pub width: u32,
    pub height: u32,
    pub duration_ms: Option<u32>,
    pub thumb_path: Option<String>,
    pub thumb_w: Option<u32>,
    pub thumb_h: Option<u32>,
    pub last_seen: i64,
}

/// The columns of an item.
pub open spec fn row_of_item(item: MediaItem) -> MediaRow {
    MediaRow {
        path: item.path,
        media_type: stored_type(item.media_type),
        mtime: item.mtime,
        size: item.size,
        width: item.width,
        height: item.height,
        duration_ms: item.duration_ms,
        thumb_path: item.thumb_path,
        thumb_w: item.thumb_w,
        thumb_h: item.thumb_h,
        last_seen: item.last_seen,
    }
}

/// The item that columns stand for.
pub open spec fn item_of_row(row: MediaRow) -> MediaItem {
    MediaItem {
        path: row.path,
        media_type: loaded_type(row.media_type),
        mtime: row.mtime,
        size: row.size,
        width: row.width,
        height: row.height,
        duration_ms: row.duration_ms,
        thumb_path: row.thumb_path,
        thumb_w: row.thumb_w,
        thumb_h: row.thumb_h,
        last_seen: row.last_seen,
    }
}

/// An item whose columns were stored is read back as it was.
pub proof fn stored_item_is_read_back(item: MediaItem)
    ensures
        item_of_row(row_of_item(item)) == item,
{
    media_type_round_trip(item.media_type);
}

/// The columns of an item.
pub fn item_to_row(item: &MediaItem) -> (r: MediaRow)
    ensures
        r == row_of_item(*item),
        r.path@ == item.path@ && r.width == item.width && r.height == item.height,
        r.mtime == item.mtime && r.size == item.size && r.last_seen == item.last_seen,
        r.thumb_w == item.thumb_w && r.thumb_h == item.thumb_h,
{
    let item = item.clone();
    MediaRow {
        path: item.path,
        media_type: media_type_to_int(item.media_type),
        mtime: item.mtime,
        size: item.size,
        width: item.width,
        height: item.height,
        duration_ms: item.duration_ms,
        thumb_path: item.thumb_path,
        thumb_w: item.thumb_w,
        thumb_h: item.thumb_h,
        last_seen: item.last_seen,
    }
}

/// The item that columns stand for.
pub fn row_to_item(row: MediaRow) -> (r: MediaItem)
    ensures
        r == item_of_row(row),
        r.path@ == row.path@ && r.width == row.width && r.height == row.height,
        r.mtime == row.mtime && r.size == row.size && r.last_seen == row.last_seen,
        r.thumb_w == row.thumb_w && r.thumb_h == row.thumb_h,
{
    MediaItem {
        path: row.path,
        media_type: int_to_media_type(row.media_type),
        mtime: row.mtime,
        size: row.size,
        width: row.width,
        height: row.height,
        duration_ms: row.duration_ms,
        thumb_path: row.thumb_path,
        thumb_w: row.thumb_w,
        thumb_h: row.thumb_h,
        last_seen: row.last_seen,
    }
}

/// A width with everything below the hundreds dropped.
pub open spec fn bucket_of_width(width: int) -> int {
    if width >= 0 {
        width - width % 100
    } else {
        width + (-width) % 100
    }
}

/// Decisions on database records.
pub struct MediaStore;

impl MediaStore {
    /// The bucket of widths that share a stored layout.
    pub fn width_to_bucket(width: i32) -> (r: i32)
        ensures
            r == bucket_of_width(width as int),
    {
        if width >= 0 {
            width - width % 100
        } else {
            let wide: i64 = width as i64;
            let rest: i64 = (0 - wide) % 100;
            (wide + rest) as i32
        }
    }

    /// Whether a stored item is up to date: it is stored, with the same
    /// modification time.
    pub fn is_cache_valid(cached_mtime: Option<i64>, current_mtime: i64) -> (r: bool)
        ensures
            r == (cached_mtime == Some(current_mtime)),
    {
        match cached_mtime {
            Some(m) => m == current_mtime,
            None => false,
        }
    }

    /// Whether a stored layout is for the same list of items.
    pub fn is_layout_valid(meta: &Option<LayoutMeta>, list_hash: &str, item_count: i32) -> (r: bool)
        ensures
            r == (meta matches Some(m) && m.list_hash@ == list_hash@ && m.item_count == item_count),
    {
        match meta {
            Some(m) => same_text(&m.list_hash, list_hash) && m.item_count == item_count,
            None => false,
        }
    }

    /// Whether an item that was last seen at the given time is stale.
    pub fn is_stale(last_seen: i64, older_than: i64) -> (r: bool)
        ensures
            r == (last_seen < older_than),
    {
        last_seen < older_than
    }

    /// The size of the database from its pages and the numbers of its records.
    pub fn stats(
        media_count: i64,
        layout_meta_count: i64,
        layout_rows_count: i64,
        page_count: i64,
        page_size: i64,
    ) -> (r: DbStats)
        requires
            i64::MIN <= page_count * page_size <= i64::MAX,
        ensures
            r.media_count == media_count,
            r.layout_meta_count == layout_meta_count,
            r.layout_rows_count == layout_rows_count,
            r.db_size_bytes == page_count * page_size,
    {
        DbStats {
            media_count,
            layout_meta_count,
            layout_rows_count,
            db_size_bytes: page_count * page_size,
        }
    }
}

/// Images are stored as zero, videos as one and folders as two, and any other number is
/// read as an image.
pub proof fn stored_numbers_of_types(n: i32)
    ensures
        stored_type(MediaType::Image) == 0,
        stored_type(MediaType::Video) == 1,
        stored_type(MediaType::Folder) == 2,
        n < 0 || n > 2 ==> loaded_type(n) == MediaType::Image,
{
}

/// Widths share a bucket with those that have the same hundreds: a bucket is a multiple
/// of a hundred, towards zero from the width by less than a hundred.
pub proof fn buckets_are_hundreds(width: int)
    ensures
        bucket_of_width(width) % 100 == 0,
        width >= 0 ==> 0 <= bucket_of_width(width) <= width < bucket_of_width(width) + 100,
        width < 0 ==> bucket_of_width(width) - 100 < width <= bucket_of_width(width) <= 0,
{
}

} // verus!
