//! Sizes of images and videos, read from file headers.
use core::convert::Infallible;
use vstd::arithmetic::power2::{lemma2_to64, pow2};
use vstd::prelude::*;
use vstd::slice::slice_subrange;

use crate::image_loader::{read_u16, read_u32, u16_at, u32_at, Endian};
use crate::models::media_item::{type_of_extension, MediaType};
use crate::paths::{extension, lowercase, path_extension, to_lowercase};
use crate::text::same_text;

verus! {

/// What is known of a media file after reading it.
#[derive(Clone, Copy, PartialEq, Eq, Structural, Debug)]
pub struct MediaMetadata {
    pub width: u32,
    pub height: u32,
    /// Length in milliseconds, for videos.
    pub duration_ms: Option<u32>,
    /// Whether the file could not be made sense of.
    pub has_warnings: bool,
}

/// Stands for the size of a file that cannot be read.
pub const ERROR_DIMENSION: u32 = 0;

/// The size that `image::ImageReader::into_dimensions` reads from the header of
/// the bytes in the format that the extension stands for.
pub uninterp spec fn header_dimensions_by_extension(bytes: Seq<u8>, ext: Seq<char>) -> Option<
    (u32, u32),
>;

/// `image::ImageFormat::from_extension` names the format by the extension, in
/// any letter case, and `image::ImageReader::into_dimensions` reads the size out
/// of the header in that format. The result is a function of bytes and
/// extension.
#[verifier::external_body]
fn dimensions_by_extension(bytes: &[u8], ext: &str) -> (r: Option<(u32, u32)>)
    ensures
        r == header_dimensions_by_extension(bytes@, ext@),
{
    let format = image::ImageFormat::from_extension(ext)?;
    let reader = image::ImageReader::with_format(std::io::Cursor::new(bytes), format);
    reader.into_dimensions().ok()
}

/// The first of the results `f(i), f(i + 1), .., f(n - 1)` that there is.
pub open spec fn first_found(
    f: spec_fn(int) -> Option<(u32, u32)>,
    i: int,
    n: int,
) -> Option<(u32, u32)>
    decreases n - i,
{
    if i >= n {
        None
    } else if f(i) is Some {
        f(i)
    } else {
        first_found(f, i + 1, n)
    }
}

/// A length less some bytes, or nothing.
pub open spec fn less(len: nat, n: int) -> int {
    if len < n {
        0
    } else {
        len - n
    }
}

/// The first bytes of a file, up to `n`.
pub open spec fn head(data: Seq<u8>, n: int) -> Seq<u8> {
    if data.len() > n {
        data.take(n)
    } else {
        data
    }
}

fn head_of(data: &[u8], n: usize) -> (r: &[u8])
    ensures
        r@ == head(data@, n as int),
{
    if data.len() > n {
        assert(data@.subrange(0, n as int) =~= data@.take(n as int));
        slice_subrange(data, 0, n)
    } else {
        data
    }
}

/// The number of bytes that a variable-length EBML number takes, going by its
/// first byte: one more than that byte has leading zero bits.
pub open spec fn vint_length(first: u8) -> int {
    if first >= 128 {
        1
    } else if first >= 64 {
        2
    } else if first >= 32 {
        3
    } else if first >= 16 {
        4
    } else if first >= 8 {
        5
    } else if first >= 4 {
        6
    } else if first >= 2 {
        7
    } else {
        8
    }
}

fn read_vint_length(first: u8) -> (r: usize)
    ensures
        r == vint_length(first),
{
    if first >= 128 {
        1
    } else if first >= 64 {
        2
    } else if first >= 32 {
        3
    } else if first >= 16 {
        4
    } else if first >= 8 {
        5
    } else if first >= 4 {
        6
    } else if first >= 2 {
        7
    } else {
        8
    }
}

/// The number that some bytes write, most significant first.
pub open spec fn big_endian(s: Seq<u8>) -> nat
    decreases s.len(),
{
    if s.len() == 0 {
        0
    } else {
        big_endian(s.drop_last()) * 256 + s.last() as nat
    }
}

proof fn lemma_big_endian_grows(s: Seq<u8>, n: int)
    requires
        0 <= n <= s.len(),
    ensures
        big_endian(s.take(n)) <= big_endian(s),
    decreases s.len() - n,
{
    if n < s.len() {
        let next = s.take(n + 1);
        assert(next.drop_last() =~= s.take(n));
        lemma_big_endian_grows(s, n + 1);
    } else {
        assert(s.take(n) =~= s);
    }
}

/// Reads the number that some bytes write, unless it is above the limit.
fn read_big_endian(bytes: &[u8], limit: u64) -> (r: Option<u64>)
    ensures
        match r {
            Some(v) => v == big_endian(bytes@) && v <= limit,
            None => big_endian(bytes@) > limit,
        },
{
    let mut value: u128 = 0;
    let mut i: usize = 0;
    assert(bytes@.take(0) =~= Seq::<u8>::empty());
    while i < bytes.len()
        invariant
            i <= bytes@.len(),
            value == big_endian(bytes@.take(i as int)),
            value <= limit,
        decreases bytes@.len() - i,
    {
        assert(bytes@.take(i + 1).drop_last() =~= bytes@.take(i as int));
        value = value * 256 + bytes[i] as u128;
        i = i + 1;
        if value > limit as u128 {
            proof {
                lemma_big_endian_grows(bytes@, i as int);
            }
            return None;
        }
    }
    assert(bytes@.take(i as int) =~= bytes@);
    Some(value as u64)
}

/// The first byte of a variable-length EBML number without the bit that ends its
/// leading zeros.
pub open spec fn vint_first(first: u8) -> u8 {
    if first >= 128 {
        (first - 128) as u8
    } else if first >= 64 {
        (first - 64) as u8
    } else if first >= 32 {
        (first - 32) as u8
    } else if first >= 16 {
        (first - 16) as u8
    } else if first >= 8 {
        (first - 8) as u8
    } else if first >= 4 {
        (first - 4) as u8
    } else if first >= 2 {
        (first - 2) as u8
    } else {
        0
    }
}

fn read_vint_first(first: u8) -> (r: u8)
    ensures
        r == vint_first(first),
{
    if first >= 128 {
        first - 128
    } else if first >= 64 {
        first - 64
    } else if first >= 32 {
        first - 32
    } else if first >= 16 {
        first - 16
    } else if first >= 8 {
        first - 8
    } else if first >= 4 {
        first - 4
    } else if first >= 2 {
        first - 2
    } else {
        0
    }
}

/// The number that a variable-length EBML number at the start of the data writes.
pub open spec fn vint_value(data: Seq<u8>) -> nat {
    big_endian(seq![vint_first(data[0])] + data.subrange(1, vint_length(data[0])))
}

/// The value of an EBML element whose size field starts the data: the number that
/// exactly as many bytes behind the size field write as it tells, if they are there
/// and the number is a plausible size in pixels.
pub open spec fn ebml_uint(data: Seq<u8>) -> Option<nat> {
    if data.len() == 0 || data[0] == 0 || vint_length(data[0]) >= data.len() {
        None
    } else {
        let start = vint_length(data[0]);
        let size = vint_value(data);
        if start + size > data.len() {
            None
        } else {
            let value = big_endian(data.subrange(start, start + size));
            if 0 < value < 65536 {
                Some(value)
            } else {
                None
            }
        }
    }
}

/// A size in pixels found under an element identifier, where there is one.
pub open spec fn element_value(buffer: Seq<u8>, i: int, id: u8) -> Option<nat> {
    if buffer[i] == id {
        ebml_uint(buffer.skip(i + 1))
    } else {
        None
    }
}

/// Width and height as a search from `i` on leaves them: each plausible value
/// under 0xB0 is a width and under 0xBA a height, and the search ends as soon as
/// both are known.
pub open spec fn matroska_search(buffer: Seq<u8>, i: int, n: int, w: u32, h: u32) -> (u32, u32)
    decreases n - i,
{
    if i >= n || (w > 0 && h > 0) {
        (w, h)
    } else {
        let w2 = match element_value(buffer, i, 0xB0) {
            Some(v) => v as u32,
            None => w,
        };
        let h2 = match element_value(buffer, i, 0xBA) {
            Some(v) => v as u32,
            None => h,
        };
        matroska_search(buffer, i + 1, n, w2, h2)
    }
}

/// The size of a Matroska or WebM video, going by its first 64 KiB.
pub open spec fn matroska_dimensions(data: Seq<u8>) -> (u32, u32) {
    let buffer = head(data, 65536);
    matroska_search(buffer, 0, less(buffer.len(), 8), 0, 0)
}

/// Whether four letters stand at a place.
pub open spec fn tag_at(buffer: Seq<u8>, i: int, a: u8, b: u8, c: u8, d: u8) -> bool {
    buffer[i] == a && buffer[i + 1] == b && buffer[i + 2] == c && buffer[i + 3] == d
}

fn has_tag(buffer: &[u8], i: usize, a: u8, b: u8, c: u8, d: u8) -> (r: bool)
    requires
        i + 4 <= buffer@.len(),
    ensures
        r == tag_at(buffer@, i as int, a, b, c, d),
{
    let total: usize = buffer.len();
    buffer[i] == a && buffer[i + 1] == b && buffer[i + 2] == c && buffer[i + 3] == d
}

/// The size that an MP4 track header whose tag is at `i` gives, as the whole parts of
/// two fixed-point numbers: they stand 76 bytes into its contents, or 88 where its
/// times take eight bytes.
pub open spec fn track_header_size(buffer: Seq<u8>, i: int) -> Option<(u32, u32)> {
    if tag_at(buffer, i, 0x74, 0x6B, 0x68, 0x64) {
        let offset = if buffer[i + 4] == 0 {
            i + 80
        } else {
            i + 92
        };
        match (u32_at(buffer, offset, Endian::Big), u32_at(buffer, offset + 4, Endian::Big)) {
            (Some(w), Some(h)) => if w >= 65536 && h >= 65536 {
                Some(((w / 65536) as u32, (h / 65536) as u32))
            } else {
                None
            },
            _ => None,
        }
    } else {
        None
    }
}

/// The size that an MP4 sample entry whose tag is at `i` gives, 24 bytes into its
/// contents.
pub open spec fn sample_entry_size(buffer: Seq<u8>, i: int) -> Option<(u32, u32)> {
    if tag_at(buffer, i, 0x61, 0x76, 0x63, 0x31) || tag_at(buffer, i, 0x68, 0x76, 0x63, 0x31)
        || tag_at(buffer, i, 0x6D, 0x70, 0x34, 0x76) || tag_at(buffer, i, 0x76, 0x70, 0x30, 0x39) {
        match (u16_at(buffer, i + 28, Endian::Big), u16_at(buffer, i + 30, Endian::Big)) {
            (Some(w), Some(h)) => if w > 0 && h > 0 {
                Some((w as u32, h as u32))
            } else {
                None
            },
            _ => None,
        }
    } else {
        None
    }
}

/// The size of an MP4 or QuickTime video, going by its first 128 KiB: that of
/// the first track header that gives one, else of the first sample entry.
pub open spec fn mp4_dimensions(data: Seq<u8>) -> (u32, u32) {
    let buffer = head(data, 131072);
    match first_found(|i: int| track_header_size(buffer, i), 0, less(buffer.len(), 92)) {
        Some(size) => size,
        None => match first_found(
            |i: int| sample_entry_size(buffer, i),
            0,
            less(buffer.len(), 40),
        ) {
            Some(size) => size,
            None => (ERROR_DIMENSION, ERROR_DIMENSION),
        },
    }
}

/// The distance from zero of a signed number given as its 32 bits.
pub open spec fn magnitude(bits: int) -> int {
    if bits < 0x8000_0000 {
        bits
    } else {
        0x1_0000_0000 - bits
    }
}

/// The size that an AVI stream format at `i` gives; a negative height only tells
/// that the rows run from the top.
pub open spec fn stream_format_size(buffer: Seq<u8>, i: int) -> Option<(u32, u32)> {
    if tag_at(buffer, i, 0x73, 0x74, 0x72, 0x66) {
        match (u32_at(buffer, i + 12, Endian::Little), u32_at(buffer, i + 16, Endian::Little)) {
            (Some(w), Some(h)) => if 0 < magnitude(w) < 65536 && 0 < magnitude(h) < 65536 {
                Some((magnitude(w) as u32, magnitude(h) as u32))
            } else {
                None
            },
            _ => None,
        }
    } else {
        None
    }
}

/// The size of an AVI video, going by its first 64 KiB.
pub open spec fn avi_dimensions(data: Seq<u8>) -> (u32, u32) {
    let buffer = head(data, 65536);
    match first_found(|i: int| stream_format_size(buffer, i), 0, less(buffer.len(), 48)) {
        Some(size) => size,
        None => (ERROR_DIMENSION, ERROR_DIMENSION),
    }
}

/// A size, unless one side of it is missing.
pub open spec fn whole_size(size: (u32, u32)) -> (u32, u32) {
    if size.0 > 0 && size.1 > 0 {
        size
    } else {
        (ERROR_DIMENSION, ERROR_DIMENSION)
    }
}

/// The size of a video with the given lower-case extension, given what could be
/// read of its file.
pub open spec fn video_dimensions(ext: Seq<char>, data: Option<Seq<u8>>) -> (u32, u32) {
    match data {
        None => (ERROR_DIMENSION, ERROR_DIMENSION),
        Some(d) => whole_size(
            if ext == "webm"@ || ext == "mkv"@ {
                matroska_dimensions(d)
            } else if ext == "mp4"@ || ext == "mov"@ {
                mp4_dimensions(d)
            } else if ext == "avi"@ {
                avi_dimensions(d)
            } else {
                (ERROR_DIMENSION, ERROR_DIMENSION)
            },
        ),
    }
}

/// The size of an image with the given extension, given what could be read of
/// its file.
pub open spec fn image_dimensions(ext: Seq<char>, data: Option<Seq<u8>>) -> (u32, u32) {
    match data {
        None => (ERROR_DIMENSION, ERROR_DIMENSION),
        Some(d) => match header_dimensions_by_extension(d, ext) {
            Some(size) => size,
            None => (ERROR_DIMENSION, ERROR_DIMENSION),
        },
    }
}

/// The extension of a path, or nothing written.
pub open spec fn extension_or_empty(path: Seq<char>) -> Seq<char> {
    match path_extension(path) {
        Some(ext) => ext,
        None => seq![],
    }
}

/// What kind of file a path names.
pub open spec fn kind_of_path(path: Seq<char>) -> Option<MediaType> {
    type_of_extension(lowercase(lowercase(extension_or_empty(path))))
}

/// The size of a media file: zero by zero for what cannot be read or is no media
/// file.
pub open spec fn file_dimensions(path: Seq<char>, data: Option<Seq<u8>>) -> (u32, u32) {
    match kind_of_path(path) {
        Some(MediaType::Image) => image_dimensions(extension_or_empty(path), data),
        Some(MediaType::Video) => video_dimensions(lowercase(extension_or_empty(path)), data),
        _ => (ERROR_DIMENSION, ERROR_DIMENSION),
    }
}

/// Optional bytes as an optional sequence.
pub open spec fn data_view(data: Option<&[u8]>) -> Option<Seq<u8>> {
    match data {
        Some(d) => Some(d@),
        None => None,
    }
}

fn extension_text(path: &str) -> (r: String)
    ensures
        r@ == extension_or_empty(path@),
{
    match extension(path) {
        Some(ext) => ext,
        None => {
            let empty = String::new();
            assert(empty@ =~= seq![]);
            empty
        },
    }
}

/// Reads sizes of media files. The caller hands over what it could read of the
/// file, or nothing where it could not be opened.
pub struct MetadataExtractor;

impl MetadataExtractor {
    /// The size of an image or video; it is zero by zero, never an error, for
    /// files that are broken or cannot be read.
    pub fn extract_dimensions(path: &str, data: Option<&[u8]>) -> (r: Result<
        (u32, u32),
        Infallible,
    >)
        ensures
            r == Ok::<(u32, u32), Infallible>(file_dimensions(path@, data_view(data))),
    {
        let ext = extension_text(path);
        let lower = to_lowercase(&ext);
        match MediaType::from_extension(&lower) {
            Some(MediaType::Image) => Ok(Self::extract_image_dimensions(&ext, data)),
            Some(MediaType::Video) => Ok(Self::extract_video_dimensions(&lower, data)),
            _ => Ok((ERROR_DIMENSION, ERROR_DIMENSION)),
        }
    }

    /// Everything that is known of an image or video; warnings tell that its
    /// width could not be found out.
    pub fn extract_metadata(path: &str, data: Option<&[u8]>) -> (r: Result<
        MediaMetadata,
        Infallible,
    >)
        ensures
            r matches Ok(m) && (m.width, m.height) == file_dimensions(path@, data_view(data))
                && m.duration_ms is None && m.has_warnings == (m.width == ERROR_DIMENSION),
    {
        let ext = extension_text(path);
        let lower = to_lowercase(&ext);
        match MediaType::from_extension(&lower) {
            Some(MediaType::Image) => {
                let (width, height) = Self::extract_image_dimensions(&ext, data);
                Ok(
                    MediaMetadata {
                        width,
                        height,
                        duration_ms: None,
                        has_warnings: width == ERROR_DIMENSION,
                    },
                )
            },
            Some(MediaType::Video) => Ok(Self::extract_video_metadata(&lower, data)),
            _ => Ok(
                MediaMetadata {
                    width: ERROR_DIMENSION,
                    height: ERROR_DIMENSION,
                    duration_ms: None,
                    has_warnings: true,
                },
            ),
        }
    }

    /// The size of an image with the given extension.
    pub fn extract_image_dimensions(ext: &str, data: Option<&[u8]>) -> (r: (u32, u32))
        ensures
            r == image_dimensions(ext@, data_view(data)),
            data is None ==> r == (0u32, 0u32),
            data matches Some(d) ==> match header_dimensions_by_extension(d@, ext@) {
                Some(size) => r.0 == size.0 && r.1 == size.1,
                None => r == (0u32, 0u32),
            },
    {
        match data {
            None => (ERROR_DIMENSION, ERROR_DIMENSION),
            Some(d) => match dimensions_by_extension(d, ext) {
                Some(size) => size,
                None => (ERROR_DIMENSION, ERROR_DIMENSION),
            },
        }
    }

    /// The size of a video with the given lower-case extension.
    pub fn extract_video_dimensions(ext: &str, data: Option<&[u8]>) -> (r: (u32, u32))
        ensures
            r == video_dimensions(ext@, data_view(data)),
    {
        let d = match data {
            None => return (ERROR_DIMENSION, ERROR_DIMENSION),
            Some(d) => d,
        };
        let (w, h) = if same_text(ext, "webm") || same_text(ext, "mkv") {
            Self::parse_matroska_dimensions(d)
        } else if same_text(ext, "mp4") || same_text(ext, "mov") {
            Self::parse_mp4_dimensions(d)
        } else if same_text(ext, "avi") {
            Self::parse_avi_dimensions(d)
        } else {
            (ERROR_DIMENSION, ERROR_DIMENSION)
        };
        if w > 0 && h > 0 {
            (w, h)
        } else {
            (ERROR_DIMENSION, ERROR_DIMENSION)
        }
    }

    /// Everything that is known of a video with the given lower-case extension.
    pub fn extract_video_metadata(ext: &str, data: Option<&[u8]>) -> (r: MediaMetadata)
        ensures
            (r.width, r.height) == video_dimensions(ext@, data_view(data)),
            r.duration_ms is None,
            r.has_warnings == (r.width == ERROR_DIMENSION),
    {
        let (width, height) = Self::extract_video_dimensions(ext, data);
        MediaMetadata {
            width,
            height,
            duration_ms: None,
            has_warnings: width == ERROR_DIMENSION,
        }
    }

    /// Searches a Matroska or WebM file for the size of its picture.
    pub fn parse_matroska_dimensions(data: &[u8]) -> (r: (u32, u32))
        ensures
            r == matroska_dimensions(data@),
    {
        let buffer = head_of(data, 65536);
        let n: usize = if buffer.len() < 8 {
            0
        } else {
            buffer.len() - 8
        };
        let mut width: u32 = 0;
        let mut height: u32 = 0;
        let mut i: usize = 0;
        while i < n && !(width > 0 && height > 0)
            invariant
                n == less(buffer@.len(), 8),
                n <= buffer@.len(),
                i <= n,
                matroska_search(buffer@, i as int, n as int, width, height) == matroska_search(
                    buffer@,
                    0,
                    n as int,
                    0,
                    0,
                ),
            decreases n - i,
        {
            if buffer[i] == 0xB0 || buffer[i] == 0xBA {
                let rest = slice_subrange(buffer, i + 1, buffer.len());
                assert(rest@ =~= buffer@.skip(i + 1));
                if let Some(value) = Self::read_ebml_uint(rest) {
                    if buffer[i] == 0xB0 {
                        width = value as u32;
                    } else {
                        height = value as u32;
                    }
                }
            }
            i = i + 1;
        }
        (width, height)
    }

    /// Reads the value of an EBML element behind its identifier.
    pub fn read_ebml_uint(data: &[u8]) -> (r: Option<u64>)
        ensures
            match r {
                Some(v) => ebml_uint(data@) == Some(v as nat),
                None => ebml_uint(data@) is None,
            },
    {
        if data.len() == 0 || data[0] == 0 {
            return None;
        }
        let start: usize = read_vint_length(data[0]);
        if start >= data.len() {
            return None;
        }
        let mut field: Vec<u8> = Vec::new();
        field.push(read_vint_first(data[0]));
        let mut i: usize = 1;
        while i < start
            invariant
                1 <= i <= start < data@.len(),
                field@ == seq![vint_first(data@[0])] + data@.subrange(1, i as int),
            decreases start - i,
        {
            field.push(data[i]);
            i = i + 1;
            assert(field@ =~= seq![vint_first(data@[0])] + data@.subrange(1, i as int));
        }
        let room: usize = data.len() - start;
        let size: usize = match read_big_endian(field.as_slice(), room as u64) {
            Some(size) => size as usize,
            None => return None,
        };
        match read_big_endian(slice_subrange(data, start, start + size), 65535) {
            Some(value) if value > 0 => Some(value),
            _ => None,
        }
    }

    /// Searches an MP4 or QuickTime file for the size of its picture.
    pub fn parse_mp4_dimensions(data: &[u8]) -> (r: (u32, u32))
        ensures
            r == mp4_dimensions(data@),
    {
        let buffer = head_of(data, 131072);
        let total: usize = buffer.len();
        let ghost by_track = |i: int| track_header_size(buffer@, i);
        let ghost by_sample = |i: int| sample_entry_size(buffer@, i);
        let n: usize = if total < 92 {
            0
        } else {
            total - 92
        };
        let mut i: usize = 0;
        while i < n
            invariant
                total == buffer@.len(),
                n == less(buffer@.len(), 92),
                i <= n,
                by_track == (|i: int| track_header_size(buffer@, i)),
                buffer@ == head(data@, 131072),
                first_found(by_track, i as int, n as int) == first_found(by_track, 0, n as int),
            decreases n - i,
        {
            assert(by_track(i as int) == track_header_size(buffer@, i as int));
            if has_tag(buffer, i, 0x74, 0x6B, 0x68, 0x64) {
                let offset: usize = if buffer[i + 4] == 0 {
                    i + 80
                } else {
                    i + 92
                };
                if let (Some(w), Some(h)) = (
                    read_u32(buffer, offset, Endian::Big),
                    read_u32(buffer, offset + 4, Endian::Big),
                ) {
                    if w >= 65536 && h >= 65536 {
                        return (w / 65536, h / 65536);
                    }
                }
            }
            i = i + 1;
        }
        let m: usize = if total < 40 {
            0
        } else {
            total - 40
        };
        let mut j: usize = 0;
        while j < m
            invariant
                total == buffer@.len(),
                m == less(buffer@.len(), 40),
                j <= m,
                by_track == (|i: int| track_header_size(buffer@, i)),
                by_sample == (|i: int| sample_entry_size(buffer@, i)),
                buffer@ == head(data@, 131072),
                first_found(by_track, 0, less(buffer@.len(), 92)) is None,
                first_found(by_sample, j as int, m as int) == first_found(by_sample, 0, m as int),
            decreases m - j,
        {
            assert(by_sample(j as int) == sample_entry_size(buffer@, j as int));
            if has_tag(buffer, j, 0x61, 0x76, 0x63, 0x31) || has_tag(
                buffer,
                j,
                0x68,
                0x76,
                0x63,
                0x31,
            ) || has_tag(buffer, j, 0x6D, 0x70, 0x34, 0x76) || has_tag(
                buffer,
                j,
                0x76,
                0x70,
                0x30,
                0x39,
            ) {
                if let (Some(w), Some(h)) = (
                    read_u16(buffer, j + 28, Endian::Big),
                    read_u16(buffer, j + 30, Endian::Big),
                ) {
                    if w > 0 && h > 0 {
                        return (w as u32, h as u32);
                    }
                }
            }
            j = j + 1;
        }
        (ERROR_DIMENSION, ERROR_DIMENSION)
    }

    /// Searches an AVI file for the size of its picture.
    pub fn parse_avi_dimensions(data: &[u8]) -> (r: (u32, u32))
        ensures
            r == avi_dimensions(data@),
    {
        let buffer = head_of(data, 65536);
        let total: usize = buffer.len();
        let ghost by_format = |i: int| stream_format_size(buffer@, i);
        let n: usize = if total < 48 {
            0
        } else {
            total - 48
        };
        let mut i: usize = 0;
        while i < n
            invariant
                total == buffer@.len(),
                n == less(buffer@.len(), 48),
                i <= n,
                by_format == (|i: int| stream_format_size(buffer@, i)),
                buffer@ == head(data@, 65536),
                first_found(by_format, i as int, n as int) == first_found(by_format, 0, n as int),
            decreases n - i,
        {
            assert(by_format(i as int) == stream_format_size(buffer@, i as int));
            if has_tag(buffer, i, 0x73, 0x74, 0x72, 0x66) {
                if let (Some(w), Some(h)) = (
                    read_u32(buffer, i + 12, Endian::Little),
                    read_u32(buffer, i + 16, Endian::Little),
                ) {
                    let w: u32 = distance_from_zero(w);
                    let h: u32 = distance_from_zero(h);
                    if w > 0 && h > 0 && w < 65536 && h < 65536 {
                        return (w, h);
                    }
                }
            }
            i = i + 1;
        }
        (ERROR_DIMENSION, ERROR_DIMENSION)
    }
}

fn distance_from_zero(bits: u32) -> (r: u32)
    ensures
        r == magnitude(bits as int),
{
    if bits < 0x8000_0000 {
        bits
    } else {
        0xffff_ffff - bits + 1
    }
}

proof fn lemma_matroska_below_limit(buffer: Seq<u8>, i: int, n: int, w: u32, h: u32)
    requires
        w < 65536,
        h < 65536,
    ensures
        matroska_search(buffer, i, n, w, h).0 < 65536,
        matroska_search(buffer, i, n, w, h).1 < 65536,
    decreases n - i,
{
    if i < n && !(w > 0 && h > 0) {
        let w2 = match element_value(buffer, i, 0xB0) {
            Some(v) => v as u32,
            None => w,
        };
        let h2 = match element_value(buffer, i, 0xBA) {
            Some(v) => v as u32,
            None => h,
        };
        lemma_matroska_below_limit(buffer, i + 1, n, w2, h2);
    }
}

proof fn lemma_found_satisfies(
    f: spec_fn(int) -> Option<(u32, u32)>,
    i: int,
    n: int,
)
    requires
        forall|k: int| i <= k < n ==> (#[trigger] f(k) matches Some(size) ==> 0 < size.0 < 65536
            && 0 < size.1 < 65536),
    ensures
        first_found(f, i, n) matches Some(size) ==> 0 < size.0 < 65536 && 0 < size.1 < 65536,
    decreases n - i,
{
    if i < n {
        assert(f(i) matches Some(size) ==> 0 < size.0 < 65536 && 0 < size.1 < 65536);
        lemma_found_satisfies(f, i + 1, n);
    }
}

/// Whatever a video file holds, the size that is read from it is either zero by
/// zero or has two positive sides below 65536.
pub proof fn video_size_is_plausible(ext: Seq<char>, data: Option<Seq<u8>>)
    ensures
        ({
            let (w, h) = video_dimensions(ext, data);
            ||| (w, h) == (ERROR_DIMENSION, ERROR_DIMENSION)
            ||| 0 < w < 65536 && 0 < h < 65536
        }),
{
    if let Some(d) = data {
        let b = head(d, 65536);
        lemma_matroska_below_limit(b, 0, less(b.len(), 8), 0, 0);
        lemma_found_satisfies(|i: int| stream_format_size(b, i), 0, less(b.len(), 48));
        let c = head(d, 131072);
        lemma_found_satisfies(|i: int| track_header_size(c, i), 0, less(c.len(), 92));
        lemma_found_satisfies(|i: int| sample_entry_size(c, i), 0, less(c.len(), 40));
    }
}

/// The four bytes that write a number, the last significant first.
pub open spec fn low_first(n: int) -> Seq<u8> {
    seq![
        (n % 256) as u8,
        (n / 256 % 256) as u8,
        (n / 65536 % 256) as u8,
        (n / 16777216 % 256) as u8,
    ]
}

/// The letters `strf`.
pub open spec fn stream_format_tag() -> Seq<u8> {
    seq![0x73u8, 0x74, 0x72, 0x66]
}

/// The letters `tkhd`.
pub open spec fn track_header_tag() -> Seq<u8> {
    seq![0x74u8, 0x6B, 0x68, 0x64]
}

/// Whether the bytes of `part` stand in the data from `i` on.
pub open spec fn stands_at(data: Seq<u8>, i: int, part: Seq<u8>) -> bool {
    0 <= i && i + part.len() <= data.len() && data.subrange(i, i + part.len() as int) == part
}

proof fn lemma_stands_at(data: Seq<u8>, i: int, part: Seq<u8>, k: int)
    requires
        stands_at(data, i, part),
        0 <= k < part.len(),
    ensures
        data[i + k] == part[k],
{
    assert(data.subrange(i, i + part.len() as int)[k] == part[k]);
}

proof fn lemma_first_found_is(f: spec_fn(int) -> Option<(u32, u32)>, i: int, at: int, n: int)
    requires
        i <= at < n,
        f(at) is Some,
        forall|k: int| i <= k < at ==> #[trigger] f(k) is None,
    ensures
        first_found(f, i, n) == f(at),
    decreases n - i,
{
    if i < at {
        lemma_first_found_is(f, i + 1, at, n);
    }
}

proof fn lemma_none_found(f: spec_fn(int) -> Option<(u32, u32)>, i: int, n: int)
    requires
        forall|k: int| i <= k < n ==> #[trigger] f(k) is None,
    ensures
        first_found(f, i, n) is None,
    decreases n - i,
{
    if i < n {
        lemma_none_found(f, i + 1, n);
    }
}

proof fn lemma_low_first_is_read(data: Seq<u8>, i: int, n: int)
    requires
        stands_at(data, i, low_first(n)),
        0 <= n < 0x1_0000_0000,
    ensures
        u32_at(data, i, Endian::Little) == Some(n),
{
    lemma_stands_at(data, i, low_first(n), 0);
    lemma_stands_at(data, i, low_first(n), 1);
    lemma_stands_at(data, i, low_first(n), 2);
    lemma_stands_at(data, i, low_first(n), 3);
}

/// Written back, an AVI stream format is read as what was written: where the first
/// `strf` chunk writes a width and a height, four and eight bytes into its header,
/// those are the size, width first. A height written as a negative number, for rows
/// from the top, is the same height.
pub proof fn stream_format_is_read_back(data: Seq<u8>, i: int, w: int, h: int, top_down: bool)
    requires
        0 < w < 65536,
        0 < h < 65536,
        0 <= i && i + 48 < data.len() && i + 48 < 65536,
        stands_at(data, i, stream_format_tag()),
        stands_at(data, i + 8 + 4, low_first(w)),
        stands_at(
            data,
            i + 8 + 8,
            low_first(
                if top_down {
                    0x1_0000_0000 - h
                } else {
                    h
                },
            ),
        ),
        forall|k: int|
            0 <= k < i ==> !#[trigger] stands_at(data, k, stream_format_tag()),
    ensures
        avi_dimensions(data) == (w as u32, h as u32),
        video_dimensions("avi"@, Some(data)) == (w as u32, h as u32),
{
    let tag = stream_format_tag();
    let buffer = head(data, 65536);
    let f = |k: int| stream_format_size(buffer, k);
    assert forall|k: int| 0 <= k < i implies #[trigger] f(k) is None by {
        if tag_at(buffer, k, 0x73, 0x74, 0x72, 0x66) {
            assert(data.subrange(k, k + 4) =~= tag);
            assert(stands_at(data, k, tag));
        }
    }
    assert(stands_at(buffer, i + 12, low_first(w))) by {
        assert(buffer.subrange(i + 12, i + 16) =~= data.subrange(i + 12, i + 16));
    }
    let written = if top_down {
        0x1_0000_0000 - h
    } else {
        h
    };
    assert(stands_at(buffer, i + 16, low_first(written))) by {
        assert(buffer.subrange(i + 16, i + 20) =~= data.subrange(i + 16, i + 20));
    }
    lemma_low_first_is_read(buffer, i + 12, w);
    lemma_low_first_is_read(buffer, i + 16, written);
    lemma_stands_at(data, i, tag, 0);
    lemma_stands_at(data, i, tag, 1);
    lemma_stands_at(data, i, tag, 2);
    lemma_stands_at(data, i, tag, 3);
    assert(f(i) == Some((w as u32, h as u32)));
    lemma_first_found_is(f, 0, i, less(buffer.len(), 48));
    reveal_strlit("webm");
    reveal_strlit("mkv");
    reveal_strlit("mp4");
    reveal_strlit("mov");
    reveal_strlit("avi");
    assert("avi"@[0] == 'a' && "webm"@[0] == 'w' && "mkv"@[0] == 'm' && "mp4"@[0] == 'm' && "mov"@[0]
        == 'm');
}

/// The two bytes that write a number, the most significant first.
pub open spec fn high_first(n: int) -> Seq<u8> {
    seq![(n / 256) as u8, (n % 256) as u8]
}

proof fn lemma_video_is_mp4(data: Seq<u8>)
    requires
        mp4_dimensions(data).0 > 0,
        mp4_dimensions(data).1 > 0,
    ensures
        video_dimensions("mp4"@, Some(data)) == mp4_dimensions(data),
        video_dimensions("mov"@, Some(data)) == mp4_dimensions(data),
{
    reveal_strlit("webm");
    reveal_strlit("mkv");
    reveal_strlit("mp4");
    reveal_strlit("mov");
    assert("webm"@[0] == 'w' && "mkv"@[1] == 'k' && "mp4"@[1] == 'p' && "mov"@[1] == 'o');
    assert("mp4"@[0] == 'm' && "mov"@[0] == 'm');
}

/// Written back, an MP4 track header is read as what was written: where the first
/// `tkhd` box writes a width and a height, as the whole parts of two numbers 76
/// bytes into its contents, or 88 where its times take eight bytes, those are the
/// size, width first, whatever sample entries follow.
pub proof fn track_header_is_read_back(data: Seq<u8>, i: int, w: int, h: int)
    requires
        0 < w < 65536,
        0 < h < 65536,
        0 <= i && i + 100 <= data.len() && i + 100 <= 131072,
        stands_at(data, i, track_header_tag()),
        ({
            let sides = i + 4 + if data[i + 4] == 0 {
                76int
            } else {
                88
            };
            &&& stands_at(data, sides, high_first(w))
            &&& stands_at(data, sides + 4, high_first(h))
        }),
        forall|k: int|
            0 <= k < i ==> !#[trigger] stands_at(data, k, track_header_tag()),
    ensures
        mp4_dimensions(data) == (w as u32, h as u32),
        video_dimensions("mp4"@, Some(data)) == (w as u32, h as u32),
        video_dimensions("mov"@, Some(data)) == (w as u32, h as u32),
{
    let tag = track_header_tag();
    let buffer = head(data, 131072);
    let f = |k: int| track_header_size(buffer, k);
    assert forall|k: int| 0 <= k < i implies #[trigger] f(k) is None by {
        if tag_at(buffer, k, 0x74, 0x6B, 0x68, 0x64) {
            assert(data.subrange(k, k + 4) =~= tag);
            assert(stands_at(data, k, tag));
        }
    }
    let sides = i + 4 + if data[i + 4] == 0 {
        76int
    } else {
        88
    };
    lemma_stands_at(data, i, tag, 0);
    lemma_stands_at(data, i, tag, 1);
    lemma_stands_at(data, i, tag, 2);
    lemma_stands_at(data, i, tag, 3);
    lemma_stands_at(data, sides, high_first(w), 0);
    lemma_stands_at(data, sides, high_first(w), 1);
    lemma_stands_at(data, sides + 4, high_first(h), 0);
    lemma_stands_at(data, sides + 4, high_first(h), 1);
    assert(f(i) == Some((w as u32, h as u32)));
    lemma_first_found_is(f, 0, i, less(buffer.len(), 92));
    lemma_video_is_mp4(data);
}

/// Whether one of the tags of video sample entries stands in the data at `i`:
/// `avc1`, `hvc1`, `mp4v` or `vp09`.
pub open spec fn entry_stands_at(data: Seq<u8>, i: int) -> bool {
    ||| stands_at(data, i, seq![0x61u8, 0x76, 0x63, 0x31])
    ||| stands_at(data, i, seq![0x68u8, 0x76, 0x63, 0x31])
    ||| stands_at(data, i, seq![0x6Du8, 0x70, 0x34, 0x76])
    ||| stands_at(data, i, seq![0x76u8, 0x70, 0x30, 0x39])
}

proof fn lemma_tag_stands(data: Seq<u8>, i: int, a: u8, b: u8, c: u8, d: u8)
    requires
        0 <= i,
        i + 4 <= data.len(),
    ensures
        tag_at(data, i, a, b, c, d) == stands_at(data, i, seq![a, b, c, d]),
{
    let tag = seq![a, b, c, d];
    if tag_at(data, i, a, b, c, d) {
        assert(data.subrange(i, i + 4) =~= tag);
    }
    if stands_at(data, i, tag) {
        lemma_stands_at(data, i, tag, 0);
        lemma_stands_at(data, i, tag, 1);
        lemma_stands_at(data, i, tag, 2);
        lemma_stands_at(data, i, tag, 3);
    }
}

/// Written back, an MP4 sample entry is read as what was written: in a file
/// without track headers the first video sample entry, 24 and 26 bytes into whose
/// contents a width and a height are written, gives the size, width first.
pub proof fn sample_entry_is_read_back(data: Seq<u8>, i: int, w: int, h: int)
    requires
        0 < w < 65536,
        0 < h < 65536,
        0 <= i && i + 40 < data.len() && data.len() <= 131072,
        entry_stands_at(data, i),
        stands_at(data, i + 4 + 24, high_first(w)),
        stands_at(data, i + 4 + 26, high_first(h)),
        forall|k: int| 0 <= k < i ==> !#[trigger] entry_stands_at(data, k),
        forall|k: int| !#[trigger] stands_at(data, k, track_header_tag()),
    ensures
        mp4_dimensions(data) == (w as u32, h as u32),
        video_dimensions("mp4"@, Some(data)) == (w as u32, h as u32),
        video_dimensions("mov"@, Some(data)) == (w as u32, h as u32),
{
    let buffer = head(data, 131072);
    assert(buffer == data);
    let f = |k: int| track_header_size(buffer, k);
    assert forall|k: int| 0 <= k < less(buffer.len(), 92) implies #[trigger] f(k) is None by {
        lemma_tag_stands(data, k, 0x74, 0x6B, 0x68, 0x64);
        assert(track_header_tag() =~= seq![0x74u8, 0x6B, 0x68, 0x64]);
        assert(!stands_at(data, k, track_header_tag()));
    }
    lemma_none_found(f, 0, less(buffer.len(), 92));
    let g = |k: int| sample_entry_size(buffer, k);
    assert forall|k: int| 0 <= k < i implies #[trigger] g(k) is None by {
        assert(!entry_stands_at(data, k));
        lemma_tag_stands(data, k, 0x61, 0x76, 0x63, 0x31);
        lemma_tag_stands(data, k, 0x68, 0x76, 0x63, 0x31);
        lemma_tag_stands(data, k, 0x6D, 0x70, 0x34, 0x76);
        lemma_tag_stands(data, k, 0x76, 0x70, 0x30, 0x39);
    }
    lemma_tag_stands(data, i, 0x61, 0x76, 0x63, 0x31);
    lemma_tag_stands(data, i, 0x68, 0x76, 0x63, 0x31);
    lemma_tag_stands(data, i, 0x6D, 0x70, 0x34, 0x76);
    lemma_tag_stands(data, i, 0x76, 0x70, 0x30, 0x39);
    lemma_stands_at(data, i + 28, high_first(w), 0);
    lemma_stands_at(data, i + 28, high_first(w), 1);
    lemma_stands_at(data, i + 30, high_first(h), 0);
    lemma_stands_at(data, i + 30, high_first(h), 1);
    assert(g(i) == Some((w as u32, h as u32)));
    lemma_first_found_is(g, 0, i, less(buffer.len(), 40));
    lemma_video_is_mp4(data);
}

proof fn lemma_two_bytes(a: u8, b: u8)
    ensures
        big_endian(seq![a]) == a,
        big_endian(seq![a, b]) == a * 256 + b,
{
    assert(seq![a].drop_last() =~= seq![]);
    assert(seq![a, b].drop_last() =~= seq![a]);
    assert(big_endian(Seq::<u8>::empty()) == 0);
}

/// Written back, the value of an EBML element is read as what was written, whether
/// its size field takes one byte or two and its value one byte, two or three, and
/// whatever follows it.
pub proof fn element_is_read_back(v: int, rest: Seq<u8>)
    requires
        0 < v < 65536,
    ensures
        ebml_uint(seq![0x82u8] + high_first(v) + rest) == Some(v as nat),
        ebml_uint(seq![0x83u8, 0] + high_first(v) + rest) == Some(v as nat),
        ebml_uint(seq![0x40u8, 0x02] + high_first(v) + rest) == Some(v as nat),
        v < 256 ==> ebml_uint(seq![0x81u8, v as u8] + rest) == Some(v as nat),
{
    let hi = (v / 256) as u8;
    let lo = (v % 256) as u8;
    lemma_two_bytes(hi, lo);
    lemma_two_bytes(2, 0);
    lemma_two_bytes(3, 0);
    lemma_two_bytes(1, 0);
    lemma_two_bytes(0, 2);
    lemma_two_bytes(v as u8, 0);
    let a = seq![0x82u8] + high_first(v) + rest;
    assert(seq![vint_first(a[0])] + a.subrange(1, 1) =~= seq![2u8]);
    assert(a.subrange(1, 3) =~= seq![hi, lo]);
    let b = seq![0x83u8, 0] + high_first(v) + rest;
    assert(seq![vint_first(b[0])] + b.subrange(1, 1) =~= seq![3u8]);
    assert(b.subrange(1, 4) =~= seq![0u8, hi, lo]);
    assert(seq![0u8, hi, lo].drop_last() =~= seq![0u8, hi]);
    lemma_two_bytes(0, hi);
    assert(big_endian(seq![0u8, hi, lo]) == v);
    let c = seq![0x40u8, 0x02] + high_first(v) + rest;
    assert(seq![vint_first(c[0])] + c.subrange(1, 2) =~= seq![0u8, 2u8]);
    assert(c.subrange(2, 4) =~= seq![hi, lo]);
    if v < 256 {
        let d = seq![0x81u8, v as u8] + rest;
        assert(seq![vint_first(d[0])] + d.subrange(1, 1) =~= seq![1u8]);
        assert(d.subrange(1, 2) =~= seq![v as u8]);
    }
}

proof fn lemma_element_is_read(buffer: Seq<u8>, i: int, id: u8, v: int)
    requires
        stands_at(buffer, i, seq![id, 0x82u8] + high_first(v)),
        0 < v < 65536,
    ensures
        element_value(buffer, i, id) == Some(v as nat),
{
    let part = seq![id, 0x82u8] + high_first(v);
    lemma_stands_at(buffer, i, part, 0);
    lemma_stands_at(buffer, i, part, 1);
    lemma_stands_at(buffer, i, part, 2);
    lemma_stands_at(buffer, i, part, 3);
    assert(buffer.skip(i + 1) =~= seq![0x82u8] + high_first(v) + buffer.skip(i + 4));
    element_is_read_back(v, buffer.skip(i + 4));
}

proof fn lemma_search_skips(buffer: Seq<u8>, i: int, at: int, n: int, w: u32, h: u32)
    requires
        0 <= i <= at < n,
        w == 0 || h == 0,
        forall|k: int| i <= k < at ==> #[trigger] buffer[k] != 0xB0 && buffer[k] != 0xBA,
    ensures
        matroska_search(buffer, i, n, w, h) == matroska_search(buffer, at, n, w, h),
    decreases at - i,
{
    if i < at {
        assert(buffer[i] != 0xB0 && buffer[i] != 0xBA);
        lemma_search_skips(buffer, i + 1, at, n, w, h);
    }
}

/// Written back, the size of a Matroska video is read as what was written: where
/// the first of its bytes that may start an element start a width (`0xB0`) and a
/// height (`0xBA`), those are the size, width first, whichever of them is written
/// first.
pub proof fn matroska_size_is_read_back(data: Seq<u8>, i: int, j: int, w: int, h: int)
    requires
        0 < w < 65536,
        0 < h < 65536,
        0 <= i && i + 8 < data.len() && i + 8 < 65536,
        0 <= j && j + 8 < data.len() && j + 8 < 65536,
        stands_at(data, i, seq![0xB0u8, 0x82] + high_first(w)),
        stands_at(data, j, seq![0xBAu8, 0x82] + high_first(h)),
        forall|k: int|
            #![trigger data[k]]
            (0 <= k < i || 0 <= k < j) && k != i && k != j ==> data[k] != 0xB0 && data[k] != 0xBA,
    ensures
        matroska_dimensions(data) == (w as u32, h as u32),
        video_dimensions("mkv"@, Some(data)) == (w as u32, h as u32),
        video_dimensions("webm"@, Some(data)) == (w as u32, h as u32),
{
    let wide = seq![0xB0u8, 0x82] + high_first(w);
    let high = seq![0xBAu8, 0x82] + high_first(h);
    let buffer = head(data, 65536);
    let n = less(buffer.len(), 8);
    assert(buffer.subrange(i, i + 4) =~= data.subrange(i, i + 4));
    assert(buffer.subrange(j, j + 4) =~= data.subrange(j, j + 4));
    assert(stands_at(buffer, i, wide));
    assert(stands_at(buffer, j, high));
    lemma_element_is_read(buffer, i, 0xB0, w);
    lemma_element_is_read(buffer, j, 0xBA, h);
    lemma_stands_at(buffer, i, wide, 0);
    lemma_stands_at(buffer, j, high, 0);
    assert(element_value(buffer, i, 0xBA) is None);
    assert(element_value(buffer, j, 0xB0) is None);
    assert(forall|k: int| 0 <= k < buffer.len() ==> #[trigger] buffer[k] == data[k]);
    if i < j {
        lemma_search_skips(buffer, 0, i, n, 0, 0);
        lemma_search_skips(buffer, i + 1, j, n, w as u32, 0);
        assert(matroska_search(buffer, i, n, 0, 0) == matroska_search(
            buffer,
            i + 1,
            n,
            w as u32,
            0,
        ));
        assert(matroska_search(buffer, j, n, w as u32, 0) == matroska_search(
            buffer,
            j + 1,
            n,
            w as u32,
            h as u32,
        ));
    } else {
        lemma_search_skips(buffer, 0, j, n, 0, 0);
        lemma_search_skips(buffer, j + 1, i, n, 0, h as u32);
        assert(matroska_search(buffer, j, n, 0, 0) == matroska_search(
            buffer,
            j + 1,
            n,
            0,
            h as u32,
        ));
        assert(matroska_search(buffer, i, n, 0, h as u32) == matroska_search(
            buffer,
            i + 1,
            n,
            w as u32,
            h as u32,
        ));
    }
}

/// A size field of so many bytes is marked by as many leading zeros less one and a one in
/// its first byte; what is left of that byte belongs to the number.
pub proof fn size_fields_are_marked(first: u8)
    requires
        first > 0,
    ensures
        1 <= vint_length(first) <= 8,
        vint_first(first) < pow2((8 - vint_length(first)) as nat),
        first == pow2((8 - vint_length(first)) as nat) + vint_first(first),
{
    lemma2_to64();
}

/// Nothing is known of the size of a file that cannot be read, or that is no medium;
/// that of an image is what its header says, width first.
pub proof fn size_goes_by_the_kind_of_file(path: Seq<char>, data: Seq<u8>, w: u32, h: u32)
    ensures
        file_dimensions(path, None) == (0u32, 0u32),
        kind_of_path(path) is None ==> file_dimensions(path, Some(data)) == (0u32, 0u32),
        kind_of_path(path) == Some(MediaType::Image) && header_dimensions_by_extension(
            data,
            extension_or_empty(path),
        ) == Some((w, h)) ==> file_dimensions(path, Some(data)) == (w, h),
{
}

} // verus!
