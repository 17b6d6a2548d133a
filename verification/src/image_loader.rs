//! Reading EXIF orientation and embedded previews out of raw image bytes, and
//! opening images the right way up.
use vstd::prelude::*;
use vstd::slice::slice_subrange;

use crate::bitmap::{
    decoded_gif_frame, decoded_image, decoded_jpeg, dimensions_from_header, first_gif_frame,
    has_gif_signature, header_dimensions, is_gif, load_from_memory, load_jpeg, turned, Bitmap,
    GifFault, Turn,
};

verus! {

/// Byte order of a TIFF block.
#[derive(Clone, Copy, PartialEq, Eq, Structural, Debug)]
pub enum Endian {
    Little,
    Big,
}

/// The two-byte number at `offset`, if it lies inside the data.
pub open spec fn u16_at(data: Seq<u8>, offset: int, endian: Endian) -> Option<int> {
    if 0 <= offset && offset + 2 <= data.len() {
        Some(
            match endian {
                Endian::Little => data[offset] + data[offset + 1] * 256,
                Endian::Big => data[offset] * 256 + data[offset + 1],
            },
        )
    } else {
        None
    }
}

/// The four-byte number at `offset`, if it lies inside the data.
pub open spec fn u32_at(data: Seq<u8>, offset: int, endian: Endian) -> Option<int> {
    if 0 <= offset && offset + 4 <= data.len() {
        Some(
            match endian {
                Endian::Little => data[offset] + data[offset + 1] * 256 + data[offset + 2] * 65536
                    + data[offset + 3] * 16777216,
                Endian::Big => data[offset] * 16777216 + data[offset + 1] * 65536 + data[offset + 2]
                    * 256 + data[offset + 3],
            },
        )
    } else {
        None
    }
}

/// An optional machine number as an optional mathematical one.
pub open spec fn as_int16(r: Option<u16>) -> Option<int> {
    match r {
        Some(v) => Some(v as int),
        None => None,
    }
}

/// An optional machine number as an optional mathematical one.
pub open spec fn as_int32(r: Option<u32>) -> Option<int> {
    match r {
        Some(v) => Some(v as int),
        None => None,
    }
}

/// Reads a two-byte number.
pub fn read_u16(data: &[u8], offset: usize, endian: Endian) -> (r: Option<u16>)
    ensures
        as_int16(r) == u16_at(data@, offset as int, endian),
{
    if offset >= data.len() || data.len() - offset < 2 {
        return None;
    }
    let a: u16 = data[offset] as u16;
    let b: u16 = data[offset + 1] as u16;
    Some(
        match endian {
            Endian::Little => a + b * 256,
            Endian::Big => a * 256 + b,
        },
    )
}

/// Reads a four-byte number.
pub fn read_u32(data: &[u8], offset: usize, endian: Endian) -> (r: Option<u32>)
    ensures
        as_int32(r) == u32_at(data@, offset as int, endian),
{
    if offset >= data.len() || data.len() - offset < 4 {
        return None;
    }
    let a: u32 = data[offset] as u32;
    let b: u32 = data[offset + 1] as u32;
    let c: u32 = data[offset + 2] as u32;
    let d: u32 = data[offset + 3] as u32;
    Some(
        match endian {
            Endian::Little => a + b * 256 + c * 65536 + d * 16777216,
            Endian::Big => a * 16777216 + b * 65536 + c * 256 + d,
        },
    )
}

/// Whether the orientation turns the picture on its side.
pub open spec fn turns_sideways(orientation: int) -> bool {
    5 <= orientation <= 8
}

/// Whether width and height trade places under the given orientation.
pub fn needs_dimension_swap(orientation: u16) -> (r: bool)
    ensures
        r == turns_sideways(orientation as int),
{
    5 <= orientation && orientation <= 8
}

/// The byte order that a TIFF header announces: two letters, then the number 42
/// in that order, in a block of at least eight bytes.
pub open spec fn tiff_endian(tiff: Seq<u8>) -> Option<Endian> {
    if tiff.len() < 8 {
        None
    } else if tiff[0] == 0x49 && tiff[1] == 0x49 && u16_at(tiff, 2, Endian::Little) == Some(42int) {
        Some(Endian::Little)
    } else if tiff[0] == 0x4D && tiff[1] == 0x4D && u16_at(tiff, 2, Endian::Big) == Some(42int) {
        Some(Endian::Big)
    } else {
        None
    }
}

fn read_tiff_endian(tiff: &[u8]) -> (r: Option<Endian>)
    ensures
        r == tiff_endian(tiff@),
{
    if tiff.len() < 8 {
        return None;
    }
    let endian = if tiff[0] == 0x49 && tiff[1] == 0x49 {
        Endian::Little
    } else if tiff[0] == 0x4D && tiff[1] == 0x4D {
        Endian::Big
    } else {
        return None;
    };
    match read_u16(tiff, 2, endian) {
        Some(42) => Some(endian),
        _ => None,
    }
}

/// What one directory entry says about orientation.
#[derive(Clone, Copy, PartialEq, Eq, Structural, Debug)]
pub enum EntryValue {
    /// The entry is about something else, or holds no usable value.
    Skip,
    /// The entry points outside the block.
    Broken,
    /// The entry gives an orientation between 1 and 8.
    Orientation(u16),
}

/// What the entry at `entry`, which lies inside the block, says about
/// orientation: only a non-empty list of two-byte numbers under tag 0x0112
/// counts; a single number stands in the entry itself, a longer list behind an
/// offset.
pub open spec fn orientation_entry(tiff: Seq<u8>, entry: int, endian: Endian) -> EntryValue {
    let tag = u16_at(tiff, entry, endian)->0;
    let field_type = u16_at(tiff, entry + 2, endian)->0;
    let count = u32_at(tiff, entry + 4, endian)->0;
    if tag != 0x0112 || count == 0 || field_type != 3 {
        EntryValue::Skip
    } else {
        let place = if count == 1 {
            entry + 8
        } else {
            u32_at(tiff, entry + 8, endian)->0
        };
        match u16_at(tiff, place, endian) {
            None => EntryValue::Broken,
            Some(v) => if 1 <= v <= 8 {
                EntryValue::Orientation(v as u16)
            } else {
                EntryValue::Skip
            },
        }
    }
}

/// The first orientation among the entries `idx..count` of a directory whose
/// entries start at `start`; the search ends at the first entry that does not
/// fit in the block or points outside it.
pub open spec fn orientation_among(
    tiff: Seq<u8>,
    start: int,
    idx: int,
    count: int,
    endian: Endian,
) -> Option<u16>
    decreases count - idx,
{
    if idx >= count || start + idx * 12 + 12 > tiff.len() {
        None
    } else {
        match orientation_entry(tiff, start + idx * 12, endian) {
            EntryValue::Skip => orientation_among(tiff, start, idx + 1, count, endian),
            EntryValue::Broken => None,
            EntryValue::Orientation(v) => Some(v),
        }
    }
}

/// The orientation that a TIFF block records in its first directory.
pub open spec fn tiff_orientation(tiff: Seq<u8>) -> Option<u16> {
    match tiff_endian(tiff) {
        None => None,
        Some(endian) => {
            let ifd = u32_at(tiff, 4, endian)->0;
            match u16_at(tiff, ifd, endian) {
                None => None,
                Some(count) => orientation_among(tiff, ifd + 2, 0, count, endian),
            }
        },
    }
}

fn read_orientation_entry(tiff: &[u8], entry: usize, endian: Endian) -> (r: EntryValue)
    requires
        entry + 12 <= tiff@.len(),
    ensures
        r == orientation_entry(tiff@, entry as int, endian),
{
    let total: usize = tiff.len();
    let tag = read_u16(tiff, entry, endian);
    let field_type = read_u16(tiff, entry + 2, endian);
    let count = read_u32(tiff, entry + 4, endian);
    match (tag, field_type, count) {
        (Some(0x0112), Some(3), Some(count)) => {
            if count == 0 {
                return EntryValue::Skip;
            }
            let value = if count == 1 {
                read_u16(tiff, entry + 8, endian)
            } else {
                match read_u32(tiff, entry + 8, endian) {
                    Some(offset) => read_u16(tiff, offset as usize, endian),
                    None => None,
                }
            };
            match value {
                None => EntryValue::Broken,
                Some(v) => if 1 <= v && v <= 8 {
                    EntryValue::Orientation(v)
                } else {
                    EntryValue::Skip
                },
            }
        },
        _ => EntryValue::Skip,
    }
}

/// Reads the orientation out of a TIFF block.
pub fn parse_tiff_orientation(tiff: &[u8]) -> (r: Option<u16>)
    ensures
        r == tiff_orientation(tiff@),
{
    let total: usize = tiff.len();
    let endian = match read_tiff_endian(tiff) {
        Some(endian) => endian,
        None => return None,
    };
    let ifd: usize = match read_u32(tiff, 4, endian) {
        Some(v) => v as usize,
        None => return None,
    };
    let count: usize = match read_u16(tiff, ifd, endian) {
        Some(v) => v as usize,
        None => return None,
    };
    let start: usize = ifd + 2;
    let mut idx: usize = 0;
    let mut entry: usize = start;
    while idx < count
        invariant
            total == tiff@.len(),
            count <= 0xffff,
            idx <= count,
            entry == start + idx * 12,
            start <= tiff@.len(),
            entry <= tiff@.len(),
            orientation_among(tiff@, start as int, idx as int, count as int, endian)
                == tiff_orientation(tiff@),
        decreases count - idx,
    {
        if total - entry < 12 {
            return None;
        }
        match read_orientation_entry(tiff, entry, endian) {
            EntryValue::Skip => {},
            EntryValue::Broken => return None,
            EntryValue::Orientation(v) => return Some(v),
        }
        idx = idx + 1;
        entry = entry + 12;
    }
    None
}

/// The number that a one-value entry, or the first of a longer list, holds: two
/// or four bytes wide, in the entry itself for a single value and behind an
/// offset otherwise.
pub open spec fn ifd_number(tiff: Seq<u8>, entry: int, endian: Endian) -> Option<int> {
    match (u16_at(tiff, entry + 2, endian), u32_at(tiff, entry + 4, endian)) {
        (Some(field_type), Some(count)) => {
            let place = if count == 1 {
                Some(entry + 8)
            } else {
                u32_at(tiff, entry + 8, endian)
            };
            match place {
                None => None,
                Some(p) => if field_type == 3 {
                    u16_at(tiff, p, endian)
                } else if field_type == 4 {
                    u32_at(tiff, p, endian)
                } else {
                    None
                },
            }
        },
        _ => None,
    }
}

/// Reads a number out of a directory entry.
pub fn read_ifd_u32(tiff: &[u8], entry: usize, endian: Endian) -> (r: Option<u32>)
    requires
        entry + 8 <= usize::MAX,
    ensures
        as_int32(r) == ifd_number(tiff@, entry as int, endian),
{
    let field_type: u16 = match read_u16(tiff, entry + 2, endian) {
        Some(v) => v,
        None => return None,
    };
    let count: u32 = match read_u32(tiff, entry + 4, endian) {
        Some(v) => v,
        None => return None,
    };
    let place: usize = if count == 1 {
        entry + 8
    } else {
        match read_u32(tiff, entry + 8, endian) {
            Some(v) => v as usize,
            None => return None,
        }
    };
    if field_type == 3 {
        match read_u16(tiff, place, endian) {
            Some(v) => Some(v as u32),
            None => None,
        }
    } else if field_type == 4 {
        read_u32(tiff, place, endian)
    } else {
        None
    }
}

/// The number given by the last of the entries `0..n` under `tag`, among those
/// that fit in the block.
pub open spec fn last_under_tag(
    tiff: Seq<u8>,
    start: int,
    n: int,
    tag: int,
    endian: Endian,
) -> Option<int>
    decreases n,
{
    if n <= 0 {
        None
    } else if start + n * 12 <= tiff.len() && u16_at(tiff, start + n * 12 - 12, endian) == Some(tag) {
        ifd_number(tiff, start + n * 12 - 12, endian)
    } else {
        last_under_tag(tiff, start, n - 1, tag, endian)
    }
}

/// Where the second directory of a TIFF block starts: the offset that follows
/// the entries of the first.
pub open spec fn second_directory(tiff: Seq<u8>, endian: Endian) -> Option<int> {
    let ifd0 = u32_at(tiff, 4, endian)->0;
    match u16_at(tiff, ifd0, endian) {
        None => None,
        Some(count) => match u32_at(tiff, ifd0 + 2 + count * 12, endian) {
            Some(ifd1) => if ifd1 == 0 {
                None
            } else {
                Some(ifd1)
            },
            None => None,
        },
    }
}

/// Offset and length of the JPEG preview that the second directory of a TIFF
/// block announces; a preview of no bytes does not count.
pub open spec fn tiff_jpeg_thumbnail(tiff: Seq<u8>) -> Option<(int, int)> {
    match tiff_endian(tiff) {
        None => None,
        Some(endian) => match second_directory(tiff, endian) {
            None => None,
            Some(ifd1) => match u16_at(tiff, ifd1, endian) {
                None => None,
                Some(count) => match (
                    last_under_tag(tiff, ifd1 + 2, count, 0x0201, endian),
                    last_under_tag(tiff, ifd1 + 2, count, 0x0202, endian),
                ) {
                    (Some(offset), Some(length)) => if length == 0 {
                        None
                    } else {
                        Some((offset, length))
                    },
                    _ => None,
                },
            },
        },
    }
}

/// Entries that do not fit in the block say nothing.
proof fn lemma_last_under_tag_short(
    tiff: Seq<u8>,
    start: int,
    m: int,
    n: int,
    tag: int,
    endian: Endian,
)
    requires
        0 <= m <= n,
        start + m * 12 + 12 > tiff.len(),
    ensures
        last_under_tag(tiff, start, n, tag, endian) == last_under_tag(tiff, start, m, tag, endian),
    decreases n - m,
{
    if m < n {
        lemma_last_under_tag_short(tiff, start, m, n - 1, tag, endian);
    }
}

/// Reads offset and length of the JPEG preview out of a TIFF block.
pub fn parse_tiff_jpeg_thumbnail(tiff: &[u8]) -> (r: Option<(usize, usize)>)
    ensures
        match r {
            Some((offset, length)) => tiff_jpeg_thumbnail(tiff@) == Some(
                (offset as int, length as int),
            ),
            None => tiff_jpeg_thumbnail(tiff@) is None,
        },
{
    let total: usize = tiff.len();
    let endian = match read_tiff_endian(tiff) {
        Some(endian) => endian,
        None => return None,
    };
    let ifd0: usize = match read_u32(tiff, 4, endian) {
        Some(v) => v as usize,
        None => return None,
    };
    let ifd0_count: usize = match read_u16(tiff, ifd0, endian) {
        Some(v) => v as usize,
        None => return None,
    };
    let after: usize = match ifd0.checked_add(2 + ifd0_count * 12) {
        Some(v) => v,
        None => return None,
    };
    let ifd1: usize = match read_u32(tiff, after, endian) {
        Some(v) => v as usize,
        None => return None,
    };
    if ifd1 == 0 {
        return None;
    }
    let count: usize = match read_u16(tiff, ifd1, endian) {
        Some(v) => v as usize,
        None => return None,
    };
    let start: usize = ifd1 + 2;
    let mut offset: Option<u32> = None;
    let mut length: Option<u32> = None;
    let mut idx: usize = 0;
    let mut entry: usize = start;
    while idx < count && total - entry >= 12
        invariant
            total == tiff@.len(),
            count <= 0xffff,
            idx <= count,
            entry == start + idx * 12,
            start <= tiff@.len(),
            entry <= tiff@.len(),
            as_int32(offset) == last_under_tag(tiff@, start as int, idx as int, 0x0201, endian),
            as_int32(length) == last_under_tag(tiff@, start as int, idx as int, 0x0202, endian),
        decreases count - idx,
    {
        let tag = read_u16(tiff, entry, endian);
        match tag {
            Some(0x0201) => {
                offset = read_ifd_u32(tiff, entry, endian);
            },
            Some(0x0202) => {
                length = read_ifd_u32(tiff, entry, endian);
            },
            _ => {},
        }
        idx = idx + 1;
        entry = entry + 12;
        assert(start + idx * 12 - 12 == entry - 12);
    }
    proof {
        if idx < count {
            lemma_last_under_tag_short(
                tiff@,
                start as int,
                idx as int,
                count as int,
                0x0201,
                endian,
            );
            lemma_last_under_tag_short(
                tiff@,
                start as int,
                idx as int,
                count as int,
                0x0202,
                endian,
            );
        }
    }
    match (offset, length) {
        (Some(offset), Some(length)) => if length == 0 {
            None
        } else {
            Some((offset as usize, length as usize))
        },
        _ => None,
    }
}

/// One segment of a JPEG stream that carries a payload.
pub struct Segment {
    pub marker: u8,
    pub start: usize,
    pub end: usize,
}

/// The position of the first byte from `pos` on that is not a fill byte.
pub open spec fn past_fill(bytes: Seq<u8>, pos: int) -> int
    decreases bytes.len() - pos,
{
    if 0 <= pos < bytes.len() && bytes[pos] == 0xFF {
        past_fill(bytes, pos + 1)
    } else {
        pos
    }
}

/// Whether a marker stands alone, without a payload.
pub open spec fn stands_alone(marker: u8) -> bool {
    marker == 0x01 || 0xD0 <= marker <= 0xD7
}

proof fn lemma_past_fill(bytes: Seq<u8>, pos: int)
    requires
        0 <= pos <= bytes.len(),
    ensures
        pos <= past_fill(bytes, pos) <= bytes.len(),
    decreases bytes.len() - pos,
{
    if pos < bytes.len() && bytes[pos] == 0xFF {
        lemma_past_fill(bytes, pos + 1);
    }
}

/// The next segment with a payload, as marker and payload range: fill bytes and
/// markers that stand alone are passed over; the image data, the end of the
/// image or a segment that does not fit ends the walk.
pub open spec fn next_segment(bytes: Seq<u8>, pos: int) -> Option<(u8, int, int)>
    decreases bytes.len() - pos,
{
    let at = past_fill(bytes, pos);
    if pos < 0 || pos + 1 >= bytes.len() || at < pos || at >= bytes.len() {
        None
    } else {
        let marker = bytes[at];
        if marker == 0xD9 || marker == 0xDA {
            None
        } else if stands_alone(marker) {
            next_segment(bytes, at + 1)
        } else {
            match u16_at(bytes, at + 1, Endian::Big) {
                None => None,
                Some(size) => if size < 2 || at + 1 + size > bytes.len() {
                    None
                } else {
                    Some((marker, at + 3, at + 1 + size))
                },
            }
        }
    }
}

fn read_next_segment(bytes: &[u8], pos: usize) -> (r: Option<Segment>)
    requires
        pos <= bytes@.len(),
    ensures
        match r {
            Some(s) => {
                &&& next_segment(bytes@, pos as int) == Some((s.marker, s.start as int, s.end as int))
                &&& pos < s.start <= s.end <= bytes@.len()
            },
            None => next_segment(bytes@, pos as int) is None,
        },
{
    let total: usize = bytes.len();
    let mut at: usize = pos;
    while at < total && total - at > 1
        invariant
            total == bytes@.len(),
            pos <= at <= total,
            next_segment(bytes@, at as int) == next_segment(bytes@, pos as int),
        decreases total - at,
    {
        let ghost from = at as int;
        proof {
            lemma_past_fill(bytes@, from);
        }
        while at < total && bytes[at] == 0xFF
            invariant
                total == bytes@.len(),
                from <= at <= total,
                past_fill(bytes@, at as int) == past_fill(bytes@, from),
            decreases total - at,
        {
            at = at + 1;
        }
        if at >= total {
            return None;
        }
        let marker: u8 = bytes[at];
        if marker == 0xD9 || marker == 0xDA {
            return None;
        }
        if marker == 0x01 || (0xD0 <= marker && marker <= 0xD7) {
            at = at + 1;
        } else {
            let size: usize = match read_u16(bytes, at + 1, Endian::Big) {
                Some(v) => v as usize,
                None => return None,
            };
            if size < 2 || size > total - (at + 1) {
                return None;
            }
            return Some(Segment { marker, start: at + 3, end: at + 1 + size });
        }
    }
    None
}

/// The payload of an EXIF segment behind its six-byte signature.
pub open spec fn exif_block(bytes: Seq<u8>, marker: u8, start: int, end: int) -> Option<Seq<u8>> {
    if marker == 0xE1 && end - start >= 6 && bytes.subrange(start, start + 6) == seq![
        0x45u8,
        0x78u8,
        0x69u8,
        0x66u8,
        0u8,
        0u8,
    ] {
        Some(bytes.subrange(start + 6, end))
    } else {
        None
    }
}

fn read_exif_block<'a>(bytes: &'a [u8], segment: &Segment) -> (r: Option<&'a [u8]>)
    requires
        segment.start <= segment.end <= bytes@.len(),
    ensures
        match r {
            Some(t) => exif_block(
                bytes@,
                segment.marker,
                segment.start as int,
                segment.end as int,
            ) == Some(t@),
            None => exif_block(
                bytes@,
                segment.marker,
                segment.start as int,
                segment.end as int,
            ) is None,
        },
{
    let total: usize = bytes.len();
    let at: usize = segment.start;
    if segment.marker == 0xE1 && segment.end - at >= 6 && bytes[at] == 0x45 && bytes[at + 1] == 0x78
        && bytes[at + 2] == 0x69 && bytes[at + 3] == 0x66 && bytes[at + 4] == 0 && bytes[at + 5]
        == 0 {
        assert(bytes@.subrange(at as int, at + 6) =~= seq![
            0x45u8,
            0x78u8,
            0x69u8,
            0x66u8,
            0u8,
            0u8,
        ]);
        Some(slice_subrange(bytes, at + 6, segment.end))
    } else {
        proof {
            let head = bytes@.subrange(at as int, at + 6);
            if segment.end - at >= 6 {
                assert(head[0] == bytes@[at as int]);
                assert(head[1] == bytes@[at + 1]);
                assert(head[2] == bytes@[at + 2]);
                assert(head[3] == bytes@[at + 3]);
                assert(head[4] == bytes@[at + 4]);
                assert(head[5] == bytes@[at + 5]);
            }
        }
        None
    }
}

/// The first orientation that an EXIF segment from `pos` on records.
pub open spec fn jpeg_orientation_from(bytes: Seq<u8>, pos: int) -> Option<u16>
    decreases bytes.len() - pos,
{
    match next_segment(bytes, pos) {
        None => None,
        Some((marker, start, end)) => {
            let found = match exif_block(bytes, marker, start, end) {
                Some(tiff) => tiff_orientation(tiff),
                None => None,
            };
            if found is Some || !(0 <= pos < end <= bytes.len()) {
                found
            } else {
                jpeg_orientation_from(bytes, end)
            }
        },
    }
}

/// The orientation of a JPEG file.
pub open spec fn jpeg_orientation(bytes: Seq<u8>) -> Option<u16> {
    jpeg_orientation_from(bytes, 2)
}

/// Reads the orientation out of a JPEG file.
pub fn parse_jpeg_exif_orientation(bytes: &[u8]) -> (r: Option<u16>)
    ensures
        r == jpeg_orientation(bytes@),
{
    let total: usize = bytes.len();
    if total < 2 {
        return None;
    }
    let mut pos: usize = 2;
    loop
        invariant
            total == bytes@.len(),
            2 <= pos <= total,
            jpeg_orientation_from(bytes@, pos as int) == jpeg_orientation(bytes@),
        decreases total - pos,
    {
        let segment = match read_next_segment(bytes, pos) {
            Some(segment) => segment,
            None => return None,
        };
        if let Some(tiff) = read_exif_block(bytes, &segment) {
            if let Some(orientation) = parse_tiff_orientation(tiff) {
                return Some(orientation);
            }
        }
        pos = segment.end;
    }
}

/// The bytes of the preview that one TIFF block holds whole.
pub open spec fn embedded_preview(tiff: Seq<u8>) -> Option<Seq<u8>> {
    match tiff_jpeg_thumbnail(tiff) {
        Some((offset, length)) => if offset + length <= tiff.len() {
            Some(tiff.subrange(offset, offset + length))
        } else {
            None
        },
        None => None,
    }
}

/// The first whole preview that an EXIF segment from `pos` on holds.
pub open spec fn jpeg_thumbnail_from(bytes: Seq<u8>, pos: int) -> Option<Seq<u8>>
    decreases bytes.len() - pos,
{
    match next_segment(bytes, pos) {
        None => None,
        Some((marker, start, end)) => {
            let found = match exif_block(bytes, marker, start, end) {
                Some(tiff) => embedded_preview(tiff),
                None => None,
            };
            if found is Some || !(0 <= pos < end <= bytes.len()) {
                found
            } else {
                jpeg_thumbnail_from(bytes, end)
            }
        },
    }
}

/// The embedded preview of a JPEG file.
pub open spec fn jpeg_thumbnail(bytes: Seq<u8>) -> Option<Seq<u8>> {
    jpeg_thumbnail_from(bytes, 2)
}

/// Finds the embedded preview of a JPEG file.
pub fn parse_jpeg_exif_thumbnail(bytes: &[u8]) -> (r: Option<&[u8]>)
    ensures
        match r {
            Some(preview) => jpeg_thumbnail(bytes@) == Some(preview@),
            None => jpeg_thumbnail(bytes@) is None,
        },
{
    let total: usize = bytes.len();
    if total < 2 {
        return None;
    }
    let mut pos: usize = 2;
    loop
        invariant
            total == bytes@.len(),
            2 <= pos <= total,
            jpeg_thumbnail_from(bytes@, pos as int) == jpeg_thumbnail(bytes@),
        decreases total - pos,
    {
        let segment = match read_next_segment(bytes, pos) {
            Some(segment) => segment,
            None => return None,
        };
        if let Some(tiff) = read_exif_block(bytes, &segment) {
            if let Some((offset, length)) = parse_tiff_jpeg_thumbnail(tiff) {
                if offset <= tiff.len() && length <= tiff.len() - offset {
                    return Some(slice_subrange(tiff, offset, offset + length));
                }
            }
        }
        pos = segment.end;
    }
}

/// The orientation that image bytes record, whether in a JPEG or a TIFF file.
pub open spec fn exif_orientation(bytes: Seq<u8>) -> Option<u16> {
    if bytes.len() < 4 {
        None
    } else if bytes[0] == 0xFF && bytes[1] == 0xD8 {
        jpeg_orientation(bytes)
    } else if tiff_endian(bytes) is Some {
        tiff_orientation(bytes)
    } else {
        None
    }
}

/// Reads the orientation out of image bytes.
pub fn read_exif_orientation_from_bytes(bytes: &[u8]) -> (r: Option<u16>)
    ensures
        r == exif_orientation(bytes@),
{
    if bytes.len() < 4 {
        return None;
    }
    if bytes[0] == 0xFF && bytes[1] == 0xD8 {
        return parse_jpeg_exif_orientation(bytes);
    }
    if (bytes[0] == 0x49 && bytes[1] == 0x49 && bytes[2] == 0x2A && bytes[3] == 0) || (bytes[0]
        == 0x4D && bytes[1] == 0x4D && bytes[2] == 0 && bytes[3] == 0x2A) {
        return parse_tiff_orientation(bytes);
    }
    None
}

proof fn lemma_orientation_among_range(
    tiff: Seq<u8>,
    start: int,
    idx: int,
    count: int,
    endian: Endian,
)
    ensures
        orientation_among(tiff, start, idx, count, endian) matches Some(v) ==> 1 <= v <= 8,
    decreases count - idx,
{
    if idx < count && start + idx * 12 + 12 <= tiff.len() {
        lemma_orientation_among_range(tiff, start, idx + 1, count, endian);
    }
}

proof fn lemma_jpeg_orientation_range(bytes: Seq<u8>, pos: int)
    ensures
        jpeg_orientation_from(bytes, pos) matches Some(v) ==> 1 <= v <= 8,
    decreases bytes.len() - pos,
{
    if let Some((marker, start, end)) = next_segment(bytes, pos) {
        if let Some(tiff) = exif_block(bytes, marker, start, end) {
            lemma_tiff_orientation_range(tiff);
        }
        if 0 <= pos < end <= bytes.len() {
            lemma_jpeg_orientation_range(bytes, end);
        }
    }
}

proof fn lemma_tiff_orientation_range(tiff: Seq<u8>)
    ensures
        tiff_orientation(tiff) matches Some(v) ==> 1 <= v <= 8,
{
    if let Some(endian) = tiff_endian(tiff) {
        let ifd = u32_at(tiff, 4, endian)->0;
        if let Some(count) = u16_at(tiff, ifd, endian) {
            lemma_orientation_among_range(tiff, ifd + 2, 0, count, endian);
        }
    }
}

/// Whatever the bytes, an orientation that is read out of them is one of the
/// eight that EXIF defines.
pub proof fn orientation_is_one_of_eight(bytes: Seq<u8>)
    ensures
        exif_orientation(bytes) matches Some(v) ==> 1 <= v <= 8,
{
    lemma_jpeg_orientation_range(bytes, 2);
    lemma_tiff_orientation_range(bytes);
}

/// Where the pixel at `(x, y)` of an upright picture stands in a stored picture
/// of the given size and EXIF orientation.
pub open spec fn exif_source(orientation: int, w: int, h: int, x: int, y: int) -> (int, int) {
    if orientation == 2 {
        (w - 1 - x, y)
    } else if orientation == 3 {
        (w - 1 - x, h - 1 - y)
    } else if orientation == 4 {
        (x, h - 1 - y)
    } else if orientation == 5 {
        // Across the diagonal from the top left to the bottom right.
        (y, x)
    } else if orientation == 6 {
        (y, h - 1 - x)
    } else if orientation == 7 {
        // Across the diagonal from the top right to the bottom left.
        (w - 1 - y, h - 1 - x)
    } else if orientation == 8 {
        (w - 1 - y, x)
    } else {
        (x, y)
    }
}

/// The orientation that turns a picture clockwise by the given number of
/// quarters.
pub open spec fn quarter_turns(steps: int) -> int {
    if steps % 4 == 0 {
        1
    } else if steps % 4 == 1 {
        6
    } else if steps % 4 == 2 {
        3
    } else {
        8
    }
}

/// Whether `out` is the stored picture `src` brought upright.
pub open spec fn is_upright(orientation: int, src: Bitmap, out: Bitmap) -> bool {
    &&& out.wf()
    &&& out.width == if turns_sideways(orientation) {
        src.height
    } else {
        src.width
    }
    &&& out.height == if turns_sideways(orientation) {
        src.width
    } else {
        src.height
    }
    &&& forall|x: int, y: int|
        0 <= x < out.width && 0 <= y < out.height ==> #[trigger] out.pixel(x, y) == src.pixel(
            exif_source(orientation, src.width as int, src.height as int, x, y).0,
            exif_source(orientation, src.width as int, src.height as int, x, y).1,
        )
}

/// Turns a picture clockwise by quarters.
pub fn apply_rotation_steps(img: Bitmap, extra_rotation_cw: u8) -> (r: Bitmap)
    requires
        img.wf(),
    ensures
        is_upright(quarter_turns(extra_rotation_cw as int), img, r),
{
    match extra_rotation_cw % 4 {
        0 => img,
        1 => turned(&img, Turn::Quarter),
        2 => turned(&img, Turn::Half),
        _ => turned(&img, Turn::ThreeQuarters),
    }
}

/// Brings a stored picture upright.
pub fn apply_exif_orientation(img: Bitmap, orientation: u16) -> (r: Bitmap)
    requires
        img.wf(),
    ensures
        is_upright(orientation as int, img, r),
{
    match orientation {
        2 => turned(&img, Turn::Across),
        3 => turned(&img, Turn::Half),
        4 => turned(&img, Turn::Down),
        5 => turned(&turned(&img, Turn::Quarter), Turn::Across),
        6 => turned(&img, Turn::Quarter),
        7 => turned(&turned(&img, Turn::Quarter), Turn::Down),
        8 => turned(&img, Turn::ThreeQuarters),
        _ => img,
    }
}

/// The orientation by which a file is opened: upright already where it records
/// none.
pub open spec fn effective_orientation(bytes: Seq<u8>) -> int {
    match exif_orientation(bytes) {
        Some(v) => v as int,
        None => 1,
    }
}

/// Whether `out` shows the stored picture `src` upright, turned clockwise by
/// `steps` more quarters.
pub open spec fn is_opened(orientation: int, steps: int, src: Bitmap, out: Bitmap) -> bool {
    exists|upright: Bitmap|
        is_upright(orientation, src, upright) && is_upright(quarter_turns(steps), upright, out)
}

/// Brings a decoded picture upright by the orientation that its file records,
/// then turns it clockwise by quarters.
pub fn orient_decoded(img: Bitmap, bytes: &[u8], extra_rotation_cw: u8) -> (r: Bitmap)
    requires
        img.wf(),
    ensures
        r.wf(),
        is_opened(effective_orientation(bytes@), extra_rotation_cw as int, img, r),
{
    let orientation: u16 = match read_exif_orientation_from_bytes(bytes) {
        Some(v) => v,
        None => 1,
    };
    let upright = apply_exif_orientation(img, orientation);
    let ghost up = upright;
    let r = apply_rotation_steps(upright, extra_rotation_cw);
    assert(is_upright(effective_orientation(bytes@), img, up));
    r
}

/// Why an image could not be opened.
#[derive(Clone, Copy, PartialEq, Eq, Structural, Debug)]
pub enum OpenError {
    /// The bytes do not decode as an image.
    Decode,
    /// The bytes announce a GIF but its header does not decode.
    GifHeader,
    /// The first frame of the GIF does not decode.
    GifFrame,
    /// The GIF holds no frame.
    GifEmpty,
}

/// The stored picture that a file shows: the first frame of a GIF, else the
/// image itself.
pub open spec fn stored_picture(bytes: Seq<u8>) -> Result<(u32, u32, Seq<u8>), OpenError> {
    if has_gif_signature(bytes) {
        match decoded_gif_frame(bytes) {
            Ok(Some(p)) => Ok(p),
            Ok(None) => Err(OpenError::GifEmpty),
            Err(GifFault::Header) => Err(OpenError::GifHeader),
            Err(GifFault::Frame) => Err(OpenError::GifFrame),
        }
    } else {
        match decoded_image(bytes) {
            Some(p) => Ok(p),
            None => Err(OpenError::Decode),
        }
    }
}

fn gif_frame(frame: Result<Option<Bitmap>, GifFault>) -> (r: Result<Bitmap, OpenError>)
    ensures
        r == match frame {
            Ok(Some(b)) => Ok(b),
            Ok(None) => Err(OpenError::GifEmpty),
            Err(GifFault::Header) => Err(OpenError::GifHeader),
            Err(GifFault::Frame) => Err(OpenError::GifFrame),
        },
{
    match frame {
        Ok(Some(b)) => Ok(b),
        Ok(None) => Err(OpenError::GifEmpty),
        Err(GifFault::Header) => Err(OpenError::GifHeader),
        Err(GifFault::Frame) => Err(OpenError::GifFrame),
    }
}

/// Decodes the stored picture of a file.
fn decode_stored(bytes: &[u8]) -> (r: Result<Bitmap, OpenError>)
    ensures
        match r {
            Ok(b) => b.wf() && stored_picture(bytes@) == Ok::<_, OpenError>(b@),
            Err(e) => stored_picture(bytes@) == Err::<(u32, u32, Seq<u8>), _>(e),
        },
{
    if is_gif(bytes) {
        gif_frame(first_gif_frame(bytes))
    } else {
        match load_from_memory(bytes) {
            Some(b) => Ok(b),
            None => Err(OpenError::Decode),
        }
    }
}

/// Opens an image file from its bytes, upright and turned clockwise by quarters.
pub fn open_image_with_rotation(bytes: &[u8], extra_rotation_cw: u8) -> (r: Result<
    Bitmap,
    OpenError,
>)
    ensures
        match r {
            Ok(out) => exists|img: Bitmap|
                {
                    &&& img.wf()
                    &&& stored_picture(bytes@) == Ok::<_, OpenError>(#[trigger] img@)
                    &&& out.wf()
                    &&& is_opened(effective_orientation(bytes@), extra_rotation_cw as int, img, out)
                },
            Err(e) => stored_picture(bytes@) == Err::<(u32, u32, Seq<u8>), _>(e),
        },
{
    match decode_stored(bytes) {
        Ok(img) => {
            let ghost stored = img@;
            let out = orient_decoded(img, bytes, extra_rotation_cw);
            assert(img@ == stored);
            Ok(out)
        },
        Err(e) => Err(e),
    }
}

/// Opens an image file from its bytes, upright.
pub fn open_image(bytes: &[u8]) -> (r: Result<Bitmap, OpenError>)
    ensures
        match r {
            Ok(out) => exists|img: Bitmap|
                {
                    &&& img.wf()
                    &&& stored_picture(bytes@) == Ok::<_, OpenError>(#[trigger] img@)
                    &&& out.wf()
                    &&& is_opened(effective_orientation(bytes@), 0, img, out)
                },
            Err(e) => stored_picture(bytes@) == Err::<(u32, u32, Seq<u8>), _>(e),
        },
{
    open_image_with_rotation(bytes, 0)
}

/// The size of the stored picture of a file.
pub open spec fn stored_dimensions(bytes: Seq<u8>) -> Result<(u32, u32), OpenError> {
    if has_gif_signature(bytes) {
        match stored_picture(bytes) {
            Ok(p) => Ok((p.0, p.1)),
            Err(e) => Err(e),
        }
    } else {
        match header_dimensions(bytes) {
            Some(dims) => Ok(dims),
            None => Err(OpenError::Decode),
        }
    }
}

/// The size of a picture once it is brought upright.
pub open spec fn upright_dimensions(dims: (u32, u32), orientation: Option<u16>) -> (u32, u32) {
    match orientation {
        Some(o) => if turns_sideways(o as int) {
            (dims.1, dims.0)
        } else {
            dims
        },
        None => dims,
    }
}

/// The size of a stored picture once it is brought upright.
pub fn orient_dimensions(dims: (u32, u32), orientation: Option<u16>) -> (r: (u32, u32))
    ensures
        r == upright_dimensions(dims, orientation),
{
    match orientation {
        Some(o) => if needs_dimension_swap(o) {
            (dims.1, dims.0)
        } else {
            dims
        },
        None => dims,
    }
}

/// Reads the size of an image from the bytes of its file, as it shows upright;
/// the orientation is looked for in `head`, the first part of the file.
pub fn read_dimensions(bytes: &[u8], head: &[u8]) -> (r: Result<(u32, u32), OpenError>)
    ensures
        r == match stored_dimensions(bytes@) {
            Ok(dims) => Ok(upright_dimensions(dims, exif_orientation(head@))),
            Err(e) => Err(e),
        },
{
    let dims = if is_gif(bytes) {
        match gif_frame(first_gif_frame(bytes)) {
            Ok(b) => (b.width, b.height),
            Err(e) => return Err(e),
        }
    } else {
        match dimensions_from_header(bytes) {
            Some(dims) => dims,
            None => return Err(OpenError::Decode),
        }
    };
    Ok(orient_dimensions(dims, read_exif_orientation_from_bytes(head)))
}

/// The bytes of the preview embedded in a JPEG file, if `head` begins one.
pub open spec fn preview_bytes(head: Seq<u8>) -> Option<Seq<u8>> {
    if head.len() >= 2 && head[0] == 0xFF && head[1] == 0xD8 {
        jpeg_thumbnail(head)
    } else {
        None
    }
}

/// Opens the preview embedded in a JPEG file, upright and turned clockwise by
/// quarters, with the size of the whole picture; `head` is the first part of
/// the file and `bytes` all of it.
pub fn open_embedded_jpeg_preview_with_rotation(
    head: &[u8],
    bytes: &[u8],
    extra_rotation_cw: u8,
) -> (r: Option<(Bitmap, u32, u32)>)
    ensures
        match r {
            Some((out, w, h)) => {
                &&& preview_bytes(head@) is Some
                &&& exists|img: Bitmap|
                    {
                        &&& img.wf()
                        &&& decoded_jpeg(preview_bytes(head@)->0) == Some(#[trigger] img@)
                        &&& out.wf()
                        &&& is_opened(
                            effective_orientation(head@),
                            extra_rotation_cw as int,
                            img,
                            out,
                        )
                    }
                &&& stored_dimensions(bytes@) matches Ok(dims) && (w, h) == upright_dimensions(
                    dims,
                    exif_orientation(head@),
                )
            },
            None => preview_bytes(head@) is None || decoded_jpeg(preview_bytes(head@)->0) is None
                || stored_dimensions(bytes@) is Err,
        },
{
    if head.len() < 2 || head[0] != 0xFF || head[1] != 0xD8 {
        return None;
    }
    let preview = match parse_jpeg_exif_thumbnail(head) {
        Some(preview) => preview,
        None => return None,
    };
    let img = match load_jpeg(preview) {
        Some(img) => img,
        None => return None,
    };
    let ghost stored = img@;
    let out = orient_decoded(img, head, extra_rotation_cw);
    assert(img@ == stored);
    match read_dimensions(bytes, head) {
        Ok((w, h)) => Some((out, w, h)),
        Err(_) => None,
    }
}

/// The place that one turn after another looks up: first by `b` quarters in the
/// turned picture, then by `a` quarters in the stored one of size `w` by `h`.
pub open spec fn turned_twice(a: int, b: int, w: int, h: int, x: int, y: int) -> (int, int) {
    let sideways = turns_sideways(quarter_turns(a));
    let mid = exif_source(
        quarter_turns(b),
        if sideways {
            h
        } else {
            w
        },
        if sideways {
            w
        } else {
            h
        },
        x,
        y,
    );
    exif_source(quarter_turns(a), w, h, mid.0, mid.1)
}

/// Turning by `a` quarters and then by `b` is turning by `a + b`; in
/// particular four quarters bring every pixel back.
pub proof fn rotations_add_up(a: nat, b: nat, w: int, h: int, x: int, y: int)
    ensures
        turned_twice(a as int, b as int, w, h, x, y) == exif_source(
            quarter_turns((a + b) as int),
            w,
            h,
            x,
            y,
        ),
{
}

/// The size that is read from the header is the size of the opened picture,
/// wherever the header and the decoded pixels agree on the stored size.
pub proof fn dimensions_match_opened_picture(bytes: Seq<u8>, img: Bitmap, out: Bitmap)
    requires
        is_opened(effective_orientation(bytes), 0, img, out),
    ensures
        (out.width, out.height) == upright_dimensions(
            (img.width, img.height),
            exif_orientation(bytes),
        ),
{
}

/// What the eight orientations of EXIF mean: at which corner of the upright picture,
/// which is as wide as the stored one is high where the orientation is above four, the
/// stored top left pixel is seen, and at which the stored top right pixel.
pub proof fn orientations_move_the_corners(w: int, h: int)
    requires
        w > 0 && h > 0,
    ensures
        forall|o: int| 1 <= o <= 4 ==> !#[trigger] turns_sideways(o),
        forall|o: int| 5 <= o <= 8 ==> #[trigger] turns_sideways(o),
        exif_source(1, w, h, 0, 0) == (0int, 0int),
        exif_source(1, w, h, w - 1, 0) == (w - 1, 0int),
        exif_source(2, w, h, w - 1, 0) == (0int, 0int),
        exif_source(2, w, h, 0, 0) == (w - 1, 0int),
        exif_source(3, w, h, w - 1, h - 1) == (0int, 0int),
        exif_source(3, w, h, 0, h - 1) == (w - 1, 0int),
        exif_source(4, w, h, 0, h - 1) == (0int, 0int),
        exif_source(4, w, h, w - 1, h - 1) == (w - 1, 0int),
        exif_source(5, w, h, 0, 0) == (0int, 0int),
        exif_source(5, w, h, 0, w - 1) == (w - 1, 0int),
        exif_source(6, w, h, h - 1, 0) == (0int, 0int),
        exif_source(6, w, h, h - 1, w - 1) == (w - 1, 0int),
        exif_source(7, w, h, h - 1, w - 1) == (0int, 0int),
        exif_source(7, w, h, h - 1, 0) == (w - 1, 0int),
        exif_source(8, w, h, 0, w - 1) == (0int, 0int),
        exif_source(8, w, h, 0, 0) == (w - 1, 0int),
{
}

/// Bringing a picture upright tears nothing apart: pixels that are beside each other
/// are so in the stored picture, and every pixel of one is one of the other.
pub proof fn neighbours_stay_neighbours(o: int, w: int, h: int, x: int, y: int)
    requires
        1 <= o <= 8,
        0 <= x < if o >= 5 {
            h
        } else {
            w
        },
        0 <= y < if o >= 5 {
            w
        } else {
            h
        },
    ensures
        ({
            let at = exif_source(o, w, h, x, y);
            let right = exif_source(o, w, h, x + 1, y);
            let below = exif_source(o, w, h, x, y + 1);
            let (a, b) = (right.0 - at.0, right.1 - at.1);
            let (c, d) = (below.0 - at.0, below.1 - at.1);
            &&& 0 <= at.0 < w && 0 <= at.1 < h
            &&& (a == 0 && (b == 1 || b == -1)) || (b == 0 && (a == 1 || a == -1))
            &&& (c == 0 && (d == 1 || d == -1)) || (d == 0 && (c == 1 || c == -1))
            &&& a == 0 <==> d == 0
        }),
{
}

/// A quarter turn is clockwise: what was at the top left is then at the top right, and
/// what was at the top right at the bottom right. No turn leaves everything where it
/// is, and half a turn brings the top left to the bottom right.
pub proof fn quarter_turns_are_clockwise(steps: nat, w: int, h: int, x: int, y: int)
    requires
        w > 0 && h > 0,
    ensures
        steps % 4 == 0 ==> exif_source(quarter_turns(steps as int), w, h, x, y) == (x, y),
        steps % 4 == 1 ==> {
            &&& turns_sideways(quarter_turns(steps as int))
            &&& exif_source(quarter_turns(steps as int), w, h, h - 1, 0) == (0int, 0int)
            &&& exif_source(quarter_turns(steps as int), w, h, h - 1, w - 1) == (w - 1, 0int)
        },
        steps % 4 == 2 ==> {
            &&& !turns_sideways(quarter_turns(steps as int))
            &&& exif_source(quarter_turns(steps as int), w, h, w - 1, h - 1) == (0int, 0int)
            &&& exif_source(quarter_turns(steps as int), w, h, 0, h - 1) == (w - 1, 0int)
        },
        steps % 4 == 3 ==> {
            &&& turns_sideways(quarter_turns(steps as int))
            &&& exif_source(quarter_turns(steps as int), w, h, 0, w - 1) == (0int, 0int)
            &&& exif_source(quarter_turns(steps as int), w, h, 0, 0) == (w - 1, 0int)
        },
{
}

/// An upright size is the stored one, but for orientations above four, where width and
/// height trade places.
pub proof fn upright_size_goes_by_orientation(w: u32, h: u32, o: u16)
    requires
        1 <= o <= 8,
    ensures
        upright_dimensions((w, h), None) == (w, h),
        o <= 4 ==> upright_dimensions((w, h), Some(o)) == (w, h),
        o >= 5 ==> upright_dimensions((w, h), Some(o)) == (h, w),
{
}

/// Whether the two bytes from `at` on write a number: the less significant first in a
/// block that begins with `II`, last in one that begins with `MM`.
pub open spec fn writes_two(block: Seq<u8>, at: int, n: int) -> bool {
    &&& 0 <= at && at + 2 <= block.len()
    &&& 0 <= n < 0x1_0000
    &&& if block[0] == 0x49 {
        block[at] == n % 256 && block[at + 1] == n / 256
    } else {
        block[at] == n / 256 && block[at + 1] == n % 256
    }
}

/// Whether the four bytes from `at` on write a number, in the byte order of the block.
pub open spec fn writes_four(block: Seq<u8>, at: int, n: int) -> bool {
    if block[0] == 0x49 {
        writes_two(block, at, n % 0x1_0000) && writes_two(block, at + 2, n / 0x1_0000)
    } else {
        writes_two(block, at, n / 0x1_0000) && writes_two(block, at + 2, n % 0x1_0000)
    }
}

/// Whether a block begins as a TIFF block does, and its first directory is at `ifd` and
/// has the given number of entries.
pub open spec fn writes_tiff(block: Seq<u8>, ifd: int, count: int) -> bool {
    &&& block.len() >= 8
    &&& (block[0] == 0x49 && block[1] == 0x49) || (block[0] == 0x4D && block[1] == 0x4D)
    &&& writes_two(block, 2, 42)
    &&& writes_four(block, 4, ifd)
    &&& writes_two(block, ifd, count)
}

/// Whether the entry at `at` writes a tag, a type and a count.
pub open spec fn writes_entry(block: Seq<u8>, at: int, tag: int, kind: int, count: int) -> bool {
    &&& writes_two(block, at, tag)
    &&& writes_two(block, at + 2, kind)
    &&& writes_four(block, at + 4, count)
    &&& at + 12 <= block.len()
}

/// The byte order of a block that begins as one does.
pub open spec fn order_of(block: Seq<u8>) -> Endian {
    if block[0] == 0x49 {
        Endian::Little
    } else {
        Endian::Big
    }
}

proof fn lemma_two_are_read(block: Seq<u8>, at: int, n: int)
    requires
        writes_two(block, at, n),
    ensures
        u16_at(block, at, order_of(block)) == Some(n),
{
}

proof fn lemma_four_are_read(block: Seq<u8>, at: int, n: int)
    requires
        writes_four(block, at, n),
    ensures
        u32_at(block, at, order_of(block)) == Some(n),
{
}

proof fn lemma_entries_are_passed(
    block: Seq<u8>,
    start: int,
    i: int,
    at: int,
    count: int,
    tags: spec_fn(int) -> int,
)
    requires
        0 <= start,
        0 <= i <= at < count,
        start + 12 * count <= block.len(),
        forall|k: int|
            i <= k < at ==> writes_two(block, start + 12 * k, #[trigger] tags(k)) && tags(k)
                != 0x0112,
    ensures
        orientation_among(block, start, i, count, order_of(block)) == orientation_among(
            block,
            start,
            at,
            count,
            order_of(block),
        ),
    decreases at - i,
{
    if i < at {
        assert(writes_two(block, start + 12 * i, tags(i)));
        lemma_two_are_read(block, start + 12 * i, tags(i));
        lemma_entries_are_passed(block, start, i + 1, at, count, tags);
    }
}

/// Written back, an orientation is read as what was written: in a TIFF block of either
/// byte order whose first directory has an entry for the orientation, as one number of
/// two bytes, behind entries for other things, that number is the orientation.
pub proof fn orientation_is_read_back(
    block: Seq<u8>,
    ifd: int,
    count: int,
    at: int,
    tags: spec_fn(int) -> int,
    v: int,
)
    requires
        writes_tiff(block, ifd, count),
        0 <= at < count,
        ifd + 2 + 12 * count <= block.len(),
        forall|k: int|
            0 <= k < at ==> writes_two(block, ifd + 2 + 12 * k, #[trigger] tags(k)) && tags(k)
                != 0x0112,
        writes_entry(block, ifd + 2 + 12 * at, 0x0112, 3, 1),
        writes_two(block, ifd + 2 + 12 * at + 8, v),
        1 <= v <= 8,
    ensures
        tiff_orientation(block) == Some(v as u16),
        exif_orientation(block) == Some(v as u16),
        effective_orientation(block) == v,
{
    let order = order_of(block);
    let entry = ifd + 2 + 12 * at;
    lemma_two_are_read(block, 2, 42);
    lemma_four_are_read(block, 4, ifd);
    lemma_two_are_read(block, ifd, count);
    assert(tiff_endian(block) == Some(order));
    lemma_entries_are_passed(block, ifd + 2, 0, at, count, tags);
    lemma_two_are_read(block, entry, 0x0112);
    lemma_two_are_read(block, entry + 2, 3);
    lemma_four_are_read(block, entry + 4, 1);
    lemma_two_are_read(block, entry + 8, v);
    assert(orientation_entry(block, entry, order) == EntryValue::Orientation(v as u16));
}

/// The letters and zeros that an EXIF segment begins with.
pub open spec fn exif_letters() -> Seq<u8> {
    seq![0x45u8, 0x78, 0x69, 0x66, 0, 0]
}

/// A segment of a JPEG file: its marker, its length with the two bytes that tell it,
/// and what it holds.
pub open spec fn written_segment(marker: u8, held: Seq<u8>) -> Seq<u8> {
    seq![0xFFu8, marker, ((held.len() + 2) / 256) as u8, ((held.len() + 2) % 256) as u8] + held
}

proof fn lemma_segment_is_read(bytes: Seq<u8>, pos: int, marker: u8, held: Seq<u8>)
    requires
        0 <= pos,
        held.len() + 2 < 0x1_0000,
        0xE0 <= marker <= 0xEF,
        pos + 4 + held.len() <= bytes.len(),
        bytes.subrange(pos, pos + 4 + held.len() as int) == written_segment(marker, held),
    ensures
        next_segment(bytes, pos) == Some((marker, pos + 4, pos + 4 + held.len() as int)),
        bytes.subrange(pos + 4, pos + 4 + held.len() as int) == held,
{
    let n = held.len() as int;
    let part = bytes.subrange(pos, pos + 4 + n);
    assert(part[0] == bytes[pos] && part[1] == bytes[pos + 1] && part[2] == bytes[pos + 2]
        && part[3] == bytes[pos + 3]);
    assert(past_fill(bytes, pos + 1) == pos + 1);
    assert(past_fill(bytes, pos) == pos + 1);
    assert(u16_at(bytes, pos + 2, Endian::Big) == Some(n + 2));
    assert(bytes.subrange(pos + 4, pos + 4 + n) =~= part.subrange(4, 4 + n));
    assert(written_segment(marker, held).subrange(4, 4 + n) =~= held);
}

proof fn lemma_exif_is_read(bytes: Seq<u8>, pos: int, block: Seq<u8>)
    requires
        0 <= pos,
        block.len() + 8 < 0x1_0000,
        pos + 10 + block.len() <= bytes.len(),
        bytes.subrange(pos, pos + 10 + block.len() as int) == written_segment(
            0xE1,
            exif_letters() + block,
        ),
    ensures
        tiff_orientation(block) is Some ==> jpeg_orientation_from(bytes, pos) == tiff_orientation(
            block,
        ),
        embedded_preview(block) is Some ==> jpeg_thumbnail_from(bytes, pos) == embedded_preview(
            block,
        ),
{
    let held = exif_letters() + block;
    let n = held.len() as int;
    lemma_segment_is_read(bytes, pos, 0xE1, held);
    let part = bytes.subrange(pos + 4, pos + 4 + n);
    assert(bytes.subrange(pos + 4, pos + 10) =~= exif_letters()) by {
        assert(part.take(6) =~= bytes.subrange(pos + 4, pos + 10));
        assert(held.take(6) =~= exif_letters());
    }
    assert(bytes.subrange(pos + 10, pos + 4 + n) =~= block) by {
        assert(part.subrange(6, n) =~= bytes.subrange(pos + 10, pos + 4 + n));
        assert(held.subrange(6, n) =~= block);
    }
    assert(exif_letters() =~= seq![0x45u8, 0x78u8, 0x69u8, 0x66u8, 0u8, 0u8]);
    assert(exif_block(bytes, 0xE1, pos + 4, pos + 4 + n) == Some(block));
}

proof fn lemma_other_segment_is_passed(bytes: Seq<u8>, pos: int, held: Seq<u8>)
    requires
        0 <= pos,
        held.len() + 2 < 0x1_0000,
        pos + 4 + held.len() <= bytes.len(),
        bytes.subrange(pos, pos + 4 + held.len() as int) == written_segment(0xE0, held),
    ensures
        jpeg_orientation_from(bytes, pos) == jpeg_orientation_from(
            bytes,
            pos + 4 + held.len() as int,
        ),
        jpeg_thumbnail_from(bytes, pos) == jpeg_thumbnail_from(bytes, pos + 4 + held.len() as int),
{
    lemma_segment_is_read(bytes, pos, 0xE0, held);
    assert(exif_block(bytes, 0xE0, pos + 4, pos + 4 + held.len() as int) is None);
}

/// Written back, the EXIF segment of a JPEG file is read as what was written: where it
/// comes first, its orientation is that of the file, and its preview that of the file.
pub proof fn exif_segment_is_read_back(block: Seq<u8>, rest: Seq<u8>)
    requires
        block.len() + 8 < 0x1_0000,
    ensures
        ({
            let file = seq![0xFFu8, 0xD8] + written_segment(0xE1, exif_letters() + block) + rest;
            &&& tiff_orientation(block) is Some ==> exif_orientation(file) == tiff_orientation(
                block,
            )
            &&& embedded_preview(block) is Some ==> preview_bytes(file) == embedded_preview(block)
        }),
{
    let exif = written_segment(0xE1, exif_letters() + block);
    let file = seq![0xFFu8, 0xD8] + exif + rest;
    assert(file.subrange(2, 12 + block.len() as int) =~= exif);
    lemma_exif_is_read(file, 2, block);
    assert(file[0] == 0xFF && file[1] == 0xD8);
}

/// The same holds where the EXIF segment comes behind another application segment,
/// such as the one that most JPEG files begin with.
pub proof fn later_exif_segment_is_read_back(first: Seq<u8>, block: Seq<u8>, rest: Seq<u8>)
    requires
        first.len() + 2 < 0x1_0000,
        block.len() + 8 < 0x1_0000,
    ensures
        ({
            let file = seq![0xFFu8, 0xD8] + written_segment(0xE0, first) + written_segment(
                0xE1,
                exif_letters() + block,
            ) + rest;
            &&& tiff_orientation(block) is Some ==> exif_orientation(file) == tiff_orientation(
                block,
            )
            &&& embedded_preview(block) is Some ==> preview_bytes(file) == embedded_preview(block)
        }),
{
    let before = written_segment(0xE0, first);
    let exif = written_segment(0xE1, exif_letters() + block);
    let file = seq![0xFFu8, 0xD8] + before + exif + rest;
    let at = 6 + first.len() as int;
    assert(file.subrange(2, at) =~= before);
    assert(file.subrange(at, at + 10 + block.len() as int) =~= exif);
    lemma_other_segment_is_passed(file, 2, first);
    lemma_exif_is_read(file, at, block);
    assert(file[0] == 0xFF && file[1] == 0xD8);
}

proof fn lemma_last_is(
    block: Seq<u8>,
    start: int,
    at: int,
    n: int,
    tag: int,
    tags: spec_fn(int) -> int,
)
    requires
        0 <= start,
        0 <= at < n,
        start + 12 * n <= block.len(),
        forall|k: int| 0 <= k < n ==> writes_two(block, start + 12 * k, #[trigger] tags(k)),
        tags(at) == tag,
        forall|k: int| at < k < n ==> #[trigger] tags(k) != tag,
    ensures
        last_under_tag(block, start, n, tag, order_of(block)) == ifd_number(
            block,
            start + 12 * at,
            order_of(block),
        ),
    decreases n,
{
    assert(writes_two(block, start + 12 * (n - 1), tags(n - 1)));
    lemma_two_are_read(block, start + 12 * (n - 1), tags(n - 1));
    if at < n - 1 {
        lemma_last_is(block, start, at, n - 1, tag, tags);
    }
}

/// Written back, an embedded preview is found where it was written: in a TIFF block of
/// either byte order, whose second directory has entries for where its preview begins
/// and how long it is, each as one number of four bytes, those bytes of the block are
/// the preview.
pub proof fn preview_is_read_back(
    block: Seq<u8>,
    first: (int, int),
    second: (int, int),
    tags: spec_fn(int) -> int,
    places: (int, int),
    offset: int,
    length: int,
)
    requires
        writes_tiff(block, first.0, first.1),
        0 < second.0 < 0x1_0000_0000,
        writes_four(block, first.0 + 2 + 12 * first.1, second.0),
        writes_two(block, second.0, second.1),
        second.0 + 2 + 12 * second.1 <= block.len(),
        0 <= places.0 < second.1 && 0 <= places.1 < second.1,
        forall|k: int|
            0 <= k < second.1 ==> writes_two(block, second.0 + 2 + 12 * k, #[trigger] tags(k)),
        tags(places.0) == 0x0201 && tags(places.1) == 0x0202,
        forall|k: int| places.0 < k < second.1 ==> #[trigger] tags(k) != 0x0201,
        forall|k: int| places.1 < k < second.1 ==> #[trigger] tags(k) != 0x0202,
        writes_entry(block, second.0 + 2 + 12 * places.0, 0x0201, 4, 1),
        writes_entry(block, second.0 + 2 + 12 * places.1, 0x0202, 4, 1),
        writes_four(block, second.0 + 2 + 12 * places.0 + 8, offset),
        writes_four(block, second.0 + 2 + 12 * places.1 + 8, length),
        0 <= offset && 0 < length && offset + length <= block.len(),
    ensures
        tiff_jpeg_thumbnail(block) == Some((offset, length)),
        embedded_preview(block) == Some(block.subrange(offset, offset + length)),
{
    let order = order_of(block);
    let start = second.0 + 2;
    lemma_two_are_read(block, 2, 42);
    lemma_four_are_read(block, 4, first.0);
    lemma_two_are_read(block, first.0, first.1);
    assert(tiff_endian(block) == Some(order));
    lemma_four_are_read(block, first.0 + 2 + 12 * first.1, second.0);
    assert(second_directory(block, order) == Some(second.0));
    lemma_two_are_read(block, second.0, second.1);
    lemma_last_is(block, start, places.0, second.1, 0x0201, tags);
    lemma_last_is(block, start, places.1, second.1, 0x0202, tags);
    let a = start + 12 * places.0;
    let b = start + 12 * places.1;
    lemma_two_are_read(block, a + 2, 4);
    lemma_four_are_read(block, a + 4, 1);
    lemma_four_are_read(block, a + 8, offset);
    lemma_two_are_read(block, b + 2, 4);
    lemma_four_are_read(block, b + 4, 1);
    lemma_four_are_read(block, b + 8, length);
}

/// Where the first and the last pixel of the top row of a stored picture are seen in the
/// upright one, for each of the eight orientations, and which size that has.
pub proof fn upright_picture_shows_the_corners(o: int, src: Bitmap, out: Bitmap)
    requires
        is_upright(o, src, out),
        1 <= o <= 8,
        src.width > 0 && src.height > 0,
    ensures
        o <= 4 ==> out.width == src.width && out.height == src.height,
        o >= 5 ==> out.width == src.height && out.height == src.width,
        ({
            let first = src.pixel(0, 0);
            let last = src.pixel(src.width - 1, 0);
            let right = out.width - 1;
            let bottom = out.height - 1;
            &&& o == 1 ==> out.pixel(0, 0) == first && out.pixel(right, 0) == last
            &&& o == 2 ==> out.pixel(right, 0) == first && out.pixel(0, 0) == last
            &&& o == 3 ==> out.pixel(right, bottom) == first && out.pixel(0, bottom) == last
            &&& o == 4 ==> out.pixel(0, bottom) == first && out.pixel(right, bottom) == last
            &&& o == 5 ==> out.pixel(0, 0) == first && out.pixel(0, bottom) == last
            &&& o == 6 ==> out.pixel(right, 0) == first && out.pixel(right, bottom) == last
            &&& o == 7 ==> out.pixel(right, bottom) == first && out.pixel(right, 0) == last
            &&& o == 8 ==> out.pixel(0, bottom) == first && out.pixel(0, 0) == last
        }),
{
    let right = out.width - 1;
    let bottom = out.height - 1;
    let corners = (
        out.pixel(0, 0),
        out.pixel(right, 0),
        out.pixel(0, bottom),
        out.pixel(right, bottom),
    );
}

/// A picture that is opened is brought upright first and turned clockwise then: without a
/// turn it is the upright picture, and with a quarter turn each of its rows is a column of
/// that, read from the bottom up.
pub proof fn opened_picture_is_turned_last(o: int, src: Bitmap, out: Bitmap) -> (upright: Bitmap)
    requires
        is_opened(o, 0, src, out) || is_opened(o, 1, src, out),
    ensures
        is_upright(o, src, upright),
        is_opened(o, 0, src, out) && !is_opened(o, 1, src, out) ==> {
            &&& out.width == upright.width && out.height == upright.height
            &&& forall|x: int, y: int|
                0 <= x < out.width && 0 <= y < out.height ==> #[trigger] out.pixel(x, y)
                    == upright.pixel(x, y)
        },
        is_opened(o, 1, src, out) ==> {
            &&& out.width == upright.height && out.height == upright.width
            &&& forall|x: int, y: int|
                0 <= x < out.width && 0 <= y < out.height ==> #[trigger] out.pixel(x, y)
                    == upright.pixel(y, upright.height - 1 - x)
        },
{
    if is_opened(o, 1, src, out) {
        choose|upright: Bitmap|
            is_upright(o, src, upright) && is_upright(quarter_turns(1), upright, out)
    } else {
        choose|upright: Bitmap|
            is_upright(o, src, upright) && is_upright(quarter_turns(0), upright, out)
    }
}

} // verus!
