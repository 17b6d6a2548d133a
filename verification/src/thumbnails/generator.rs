//! Thumbnail generation: about 256 pixels high, in the proportions of the
//! source, stored as JPEG.
use vstd::arithmetic::power2::{lemma_pow2_pos, pow2};
use vstd::prelude::*;

use crate::bitmap::{
    can_resample, check_can_resample, is_eight, is_resampled, picture_view, resize_exact, shallow,
    to_eight, Bitmap, Filter,
};
use crate::paths::{extension, lowercase, path_extension, to_lowercase};
use crate::double::{divided_ratio_error, of_whole, scaled_ratio_error, Double};
use crate::text::same_text;

verus! {

/// Target height of thumbnails in pixels.
pub const DEFAULT_THUMB_HEIGHT: u32 = 256;

/// Least width of a thumbnail, for very tall pictures.
pub const MIN_THUMB_WIDTH: u32 = 64;

/// Greatest width of a thumbnail, for very wide pictures.
pub const MAX_THUMB_WIDTH: u32 = 1024;

/// JPEG quality of thumbnails, out of 100.
pub const JPEG_QUALITY: u8 = 85;

/// An image format that thumbnails can be made from.
#[derive(Clone, Copy, PartialEq, Eq, Structural, Debug)]
pub enum ImageFormat {
    Jpeg,
    Png,
    WebP,
    Gif,
    Bmp,
    Tiff,
}

/// The format that a lower-case extension stands for.
pub open spec fn format_of_extension(ext: Seq<char>) -> Option<ImageFormat> {
    if ext == "jpg"@ || ext == "jpeg"@ {
        Some(ImageFormat::Jpeg)
    } else if ext == "png"@ {
        Some(ImageFormat::Png)
    } else if ext == "webp"@ {
        Some(ImageFormat::WebP)
    } else if ext == "gif"@ {
        Some(ImageFormat::Gif)
    } else if ext == "bmp"@ {
        Some(ImageFormat::Bmp)
    } else if ext == "tiff"@ || ext == "tif"@ {
        Some(ImageFormat::Tiff)
    } else {
        None
    }
}

/// The format that the extension of a path stands for, in any letter case.
pub open spec fn format_of_path(path: Seq<char>) -> Option<ImageFormat> {
    match path_extension(path) {
        Some(ext) => format_of_extension(lowercase(ext)),
        None => None,
    }
}

/// The height that the width is worked out for: never more than the source has.
pub open spec fn effective_height(src_height: u32, target_height: u32) -> u32 {
    if target_height < src_height {
        target_height
    } else {
        src_height
    }
}

/// The ratio of the sides.
pub open spec fn aspect(w: u32, h: u32) -> Double {
    of_whole(w as nat).quotient(of_whole(h as nat))
}

/// The width in proportion to the effective height, before it is kept within
/// bounds.
pub open spec fn proportional_width(w: u32, h: u32, target_height: u32) -> u32 {
    of_whole(effective_height(h, target_height) as nat).product(aspect(w, h)).nearest_whole()
}

/// A width kept within the bounds of thumbnails.
pub open spec fn bounded_width(w: u32) -> u32 {
    if w < MIN_THUMB_WIDTH {
        MIN_THUMB_WIDTH
    } else if w > MAX_THUMB_WIDTH {
        MAX_THUMB_WIDTH
    } else {
        w
    }
}

/// A length of at least one pixel.
pub open spec fn at_least_one(n: u32) -> u32 {
    if n == 0 {
        1
    } else {
        n
    }
}

/// The size of a thumbnail: the effective height and the width in proportion;
/// where the width leaves its bounds it is cut to them, and the height follows
/// in proportion instead. A source without pixels gives a square.
pub open spec fn thumb_dimensions(w: u32, h: u32, target_height: u32) -> (u32, u32) {
    if w == 0 || h == 0 {
        (target_height, target_height)
    } else {
        let proportional = proportional_width(w, h, target_height);
        let width = bounded_width(proportional);
        let height = if width != proportional {
            of_whole(width as nat).quotient(aspect(w, h)).nearest_whole()
        } else {
            effective_height(h, target_height)
        };
        (width, at_least_one(height))
    }
}

/// A thumbnail is from 64 to 1024 pixels wide and at least one high.
pub proof fn thumbnails_are_bounded(w: u32, h: u32, target_height: u32)
    requires
        w > 0 && h > 0,
    ensures
        ({
            let (width, height) = thumb_dimensions(w, h, target_height);
            MIN_THUMB_WIDTH <= width <= MAX_THUMB_WIDTH && height >= 1
        }),
{
}

proof fn lemma_width_of(b: nat, u: nat, n: int)
    requires
        u > 0,
        n == (2 * b + u) / (2 * u),
    ensures
        (2 * n - 1) * u <= 2 * b < (2 * n + 1) * u,
{
    assert((2 * n - 1) * u <= 2 * b < (2 * n + 1) * u) by (nonlinear_arith)
        requires
            u > 0,
            n == (2 * b + u) / (2 * u),
    {
        assert(n * (2 * u) <= 2 * b + u < (n + 1) * (2 * u));
    }
}

/// Where the width is not cut, it is less than a pixel from the proportion of the
/// source, and at most half a pixel for sources no higher than 65536 pixels.
pub proof fn thumbnails_are_in_proportion(w: u32, h: u32, target_height: u32)
    requires
        w > 0 && h > 0 && target_height > 0,
        MIN_THUMB_WIDTH <= proportional_width(w, h, target_height) <= MAX_THUMB_WIDTH,
    ensures
        ({
            let (width, height) = thumb_dimensions(w, h, target_height);
            &&& height == effective_height(h, target_height)
            &&& -(h as int) < width * h - height * w < h
            &&& h <= 65536 ==> -(h as int) <= 2 * (width * h - height * w) <= h
        }),
{
    let k = effective_height(h, target_height);
    let n = proportional_width(w, h, target_height) as int;
    let b = of_whole(k as nat).product(aspect(w, h)).size();
    let u = pow2(1074);
    lemma_pow2_pos(1074);
    scaled_ratio_error(k, w, h);
    lemma_width_of(b, u, n);
    let kw = (k * w) as nat;
    assert(kw * u < (n + 1) * (h * u) && kw * u > (n - 1) * (h * u)) by (nonlinear_arith)
        requires
            0x20_0000_0000_0000 * (0x20_0000_0000_0000 * (kw * u)) <= 0x20_0000_0000_0001 * (
            0x20_0000_0000_0001 * (b * h)),
            0x20_0000_0000_0000 * (0x20_0000_0000_0000 * (kw * u)) >= 0x1f_ffff_ffff_ffff * (
            0x1f_ffff_ffff_ffff * (b * h)),
            (2 * n - 1) * u <= 2 * b < (2 * n + 1) * u,
            64 <= n <= 1024,
            u > 0,
            h > 0,
    {
        let hu = h * u;
        assert(hu > 0);
        assert(2 * (b * h) < (2 * n + 1) * hu);
        assert(2 * (b * h) >= (2 * n - 1) * hu);
        assert(n * hu <= 1024 * hu);
        assert((2 * n + 1) * hu == 2 * (n * hu) + hu);
        assert((2 * n - 1) * hu == 2 * (n * hu) - hu);
        assert((n + 1) * (h * u) == n * hu + hu);
        assert((n - 1) * (h * u) == n * hu - hu);
    }
    assert((n + 1) * (h * u) == ((n + 1) * h) * u) by (nonlinear_arith);
    assert((n - 1) * (h * u) == ((n - 1) * h) * u) by (nonlinear_arith);
    let high = (n + 1) * h;
    let low = (n - 1) * h;
    assert(low < kw < high) by (nonlinear_arith)
        requires
            low * u < kw * u < high * u,
            u > 0,
    ;
    assert((n + 1) * h == n * h + h) by (nonlinear_arith);
    assert((n - 1) * h == n * h - h) by (nonlinear_arith);
    if h <= 65536 {
        let f: int = 0x20_0000_0000_0000;
        let over: int = 0x20_0000_0000_0001;
        let under: int = 0x1f_ffff_ffff_ffff;
        let high = (2 * n + 1) * h;
        let low = (2 * n - 1) * h;
        assert(2 * (b * h) < high * u && 2 * (b * h) >= low * u) by (nonlinear_arith)
            requires
                (2 * n - 1) * u <= 2 * b < (2 * n + 1) * u,
                high == (2 * n + 1) * h,
                low == (2 * n - 1) * h,
                h > 0,
        {
            assert(high * u == ((2 * n + 1) * u) * h);
            assert(low * u == ((2 * n - 1) * u) * h);
        }
        assert(0 <= low <= high <= 0x1000_0000) by (nonlinear_arith)
            requires
                high == (2 * n + 1) * h,
                low == (2 * n - 1) * h,
                64 <= n <= 1024,
                0 < h <= 65536,
        ;
        let bh = b * h;
        assert(2 * kw <= high) by (nonlinear_arith)
            requires
                f * (f * (kw * u)) <= over * (over * bh),
                2 * bh < high * u,
                0 <= high <= 0x1000_0000,
                f == 0x20_0000_0000_0000,
                over == 0x20_0000_0000_0001,
                u > 0,
        {
            assert((f * f) * (2 * kw) * u <= (over * over) * high * u);
            assert((f * f) * (2 * kw) <= (over * over) * high);
        }
        assert(2 * kw >= low) by (nonlinear_arith)
            requires
                f * (f * (kw * u)) >= under * (under * bh),
                2 * bh >= low * u,
                0 <= low <= 0x1000_0000,
                f == 0x20_0000_0000_0000,
                under == 0x1f_ffff_ffff_ffff,
                u > 0,
        {
            assert((f * f) * (2 * kw) * u >= (under * under) * low * u);
            assert((f * f) * (2 * kw) >= (under * under) * low);
        }
        assert((2 * n + 1) * h == 2 * (n * h) + h) by (nonlinear_arith);
        assert((2 * n - 1) * h == 2 * (n * h) - h) by (nonlinear_arith);
    }
}

/// Where the width is cut, the height follows: it is at most half a pixel from the
/// proportion of the source, unless it is kept at one pixel, which is less than a pixel
/// from it. Sources are taken to be no higher than 65536 pixels.
pub proof fn cut_thumbnails_are_in_proportion(w: u32, h: u32, target_height: u32)
    requires
        w > 0 && 0 < h <= 65536,
        bounded_width(proportional_width(w, h, target_height)) != proportional_width(
            w,
            h,
            target_height,
        ),
    ensures
        ({
            let (width, height) = thumb_dimensions(w, h, target_height);
            &&& -(w as int) <= height * w - width * h <= w
            &&& height > 1 ==> -(w as int) <= 2 * (height * w - width * h) <= w
        }),
{
    let k = bounded_width(proportional_width(w, h, target_height));
    let r = of_whole(k as nat).quotient(aspect(w, h));
    let b = r.size();
    let u = pow2(1074);
    lemma_pow2_pos(1074);
    divided_ratio_error(k, w, h);
    let n = (2 * b + u) as int / (2 * u) as int;
    lemma_width_of(b, u, n);
    let over: int = 0x20_0000_0000_0001;
    let under: int = 0x1f_ffff_ffff_ffff;
    let kh = k * h;
    let bw = b * w;
    let (high, low) = ((2 * n + 1) * w, (2 * n - 1) * w);
    assert(0 < kh <= 0x400_0000) by (nonlinear_arith)
        requires
            kh == k * h,
            64 <= k <= 1024,
            0 < h <= 65536,
    ;
    assert(2 * bw < high * u && 2 * bw >= low * u) by (nonlinear_arith)
        requires
            (2 * n - 1) * u <= 2 * b < (2 * n + 1) * u,
            high == (2 * n + 1) * w,
            low == (2 * n - 1) * w,
            bw == b * w,
            w > 0,
    {
        assert(high * u == ((2 * n + 1) * u) * w);
        assert(low * u == ((2 * n - 1) * u) * w);
    }
    assert(low <= 2 * kh) by (nonlinear_arith)
        requires
            under * bw <= over * (kh * u),
            2 * bw >= low * u,
            0 < kh <= 0x400_0000,
            over == 0x20_0000_0000_0001,
            under == 0x1f_ffff_ffff_ffff,
            u > 0,
    {
        assert(under * (low * u) <= over * (2 * kh * u));
        assert((under * low) * u <= (over * (2 * kh)) * u);
        assert(under * low <= over * (2 * kh));
    }
    assert(high >= 2 * kh) by (nonlinear_arith)
        requires
            over * bw >= under * (kh * u),
            2 * bw < high * u,
            0 < kh <= 0x400_0000,
            over == 0x20_0000_0000_0001,
            under == 0x1f_ffff_ffff_ffff,
            u > 0,
    {
        assert(over * (high * u) > under * (2 * kh * u));
        assert((over * high) * u > (under * (2 * kh)) * u);
        assert(over * high > under * (2 * kh));
    }
    assert((2 * n + 1) * w == 2 * (n * w) + w) by (nonlinear_arith);
    assert((2 * n - 1) * w == 2 * (n * w) - w) by (nonlinear_arith);
    assert(0 <= n < 0x1000_0000) by (nonlinear_arith)
        requires
            low == 2 * (n * w) - w,
            low <= 2 * kh,
            kh <= 0x400_0000,
            w > 0,
            n >= 0,
    {
        assert(n * w >= n);
        if n >= 0x1000_0000 {
            assert((2 * n - 1) * w >= 2 * n - 1);
        }
    }
    assert(r.nearest_whole() == n);
    if n == 0 {
        assert(1 * w == w);
        assert(0 * w == 0);
    }
}

/// A picture that is small enough is not scaled.
pub proof fn small_pictures_keep_their_size(w: u32, h: u32, target_height: u32)
    requires
        0 < h <= target_height,
        MIN_THUMB_WIDTH <= w <= MAX_THUMB_WIDTH,
    ensures
        thumb_dimensions(w, h, target_height) == (w, h),
{
    let b = of_whole(h as nat).product(aspect(w, h)).size();
    let u = pow2(1074);
    lemma_pow2_pos(1074);
    scaled_ratio_error(h, w, h);
    let n = ((2 * b + u) / (2 * u)) as int;
    lemma_width_of(b, u, n);
    assert(n == w) by (nonlinear_arith)
        requires
            0x20_0000_0000_0000 * (0x20_0000_0000_0000 * ((h * w) * u)) <= 0x20_0000_0000_0001 * (
            0x20_0000_0000_0001 * (b * h)),
            0x20_0000_0000_0000 * (0x20_0000_0000_0000 * ((h * w) * u)) >= 0x1f_ffff_ffff_ffff * (
            0x1f_ffff_ffff_ffff * (b * h)),
            (2 * n - 1) * u <= 2 * b < (2 * n + 1) * u,
            64 <= w <= 1024,
            u > 0,
            h > 0,
    {
        let wu = w * u;
        assert((h * w) * u == wu * h);
        assert(0x20_0000_0000_0000 * (0x20_0000_0000_0000 * wu) <= 0x20_0000_0000_0001 * (
        0x20_0000_0000_0001 * b));
        assert(0x20_0000_0000_0000 * (0x20_0000_0000_0000 * wu) >= 0x1f_ffff_ffff_ffff * (
        0x1f_ffff_ffff_ffff * b));
        assert(wu <= 1024 * u);
        assert(2 * b < 2 * wu + u);
        assert(2 * b > 2 * wu - u);
        assert((2 * n - 1) * u < (2 * w + 1) * u);
        assert((2 * n + 1) * u > (2 * w - 1) * u);
        assert(2 * n - 1 < 2 * w + 1);
        assert(2 * n + 1 > 2 * w - 1);
    }
}

/// How thumbnails are scaled.
#[derive(Clone, Copy, PartialEq, Eq, Structural, Debug)]
pub enum ResizeMode {
    Quality,
    Fast,
}

impl ResizeMode {
    /// The mode that the arguments ask for.
    pub fn from_flag(fast: bool) -> (r: Self)
        ensures
            r == if fast {
                ResizeMode::Fast
            } else {
                ResizeMode::Quality
            },
    {
        if fast {
            ResizeMode::Fast
        } else {
            ResizeMode::Quality
        }
    }

    /// The filter that the mode scales with: the fast one trades sharpness for time.
    pub fn filter(self) -> (r: Filter)
        ensures
            r == mode_filter(self),
    {
        match self {
            ResizeMode::Quality => Filter::CatmullRom,
            ResizeMode::Fast => Filter::Triangle,
        }
    }

    /// The name of the mode in reports.
    pub fn name(self) -> (r: String)
        ensures
            r@ == mode_name(self),
    {
        match self {
            ResizeMode::Quality => "quality".to_owned(),
            ResizeMode::Fast => "fast".to_owned(),
        }
    }
}

/// The name of a mode in reports.
pub open spec fn mode_name(mode: ResizeMode) -> Seq<char> {
    match mode {
        ResizeMode::Quality => "quality"@,
        ResizeMode::Fast => "fast"@,
    }
}

/// The filter that a mode scales with.
pub open spec fn mode_filter(mode: ResizeMode) -> Filter {
    match mode {
        ResizeMode::Quality => Filter::CatmullRom,
        ResizeMode::Fast => Filter::Triangle,
    }
}

/// The result of making a thumbnail: its size.
#[derive(Clone, Copy, PartialEq, Eq, Structural, Debug)]
pub struct ThumbnailResult {
    pub width: u32,
    pub height: u32,
}

/// Why a thumbnail could not be made.
#[derive(Clone, Copy, PartialEq, Eq, Structural, Debug)]
pub enum GenerateError {
    /// The source does not decode as its extension says.
    Load,
    /// The thumbnail or a step on the way to it does not fit in memory.
    TooLarge,
    /// The thumbnail does not encode.
    Encode,
}

/// What decoding makes of the bytes of a file with the given extension, as RGBA of
/// eight bits, or of sixteen where they hold samples of sixteen bits:
/// `image::ImageFormat::from_extension` names the format.
pub uninterp spec fn decoded_by_extension(bytes: Seq<u8>, ext: Seq<char>) -> Option<
    (u32, u32, Seq<u8>),
>;

/// What `image::codecs::jpeg::JpegEncoder` makes of a picture of eight bits at the
/// given quality, without its alpha channel.
pub uninterp spec fn encoded_jpeg(picture: (u32, u32, Seq<u8>), quality: u8) -> Option<Seq<u8>>;

/// `image::ImageFormat::from_extension` goes by the extension in any letter
/// case, and `image::load_from_memory_with_format` decodes the bytes in that
/// format; `to_rgba16` brings colour types of sixteen bits to eight bytes per pixel,
/// and `to_rgba8` every other to four, those of floating point samples among them. The
/// result is a function of bytes and extension, and its buffer holds exactly the pixels
/// of its size.
#[verifier::external_body]
fn load_by_extension(bytes: &[u8], ext: &str) -> (r: Option<Bitmap>)
    ensures
        picture_view(r) == decoded_by_extension(bytes@, ext@),
        r matches Some(b) ==> b.wf(),
{
    let format = image::ImageFormat::from_extension(ext)?;
    let img = image::load_from_memory_with_format(bytes, format).ok()?;
    let rgba = match img {
        image::DynamicImage::ImageLuma16(_)
        | image::DynamicImage::ImageLumaA16(_)
        | image::DynamicImage::ImageRgb16(_)
        | image::DynamicImage::ImageRgba16(_) => {
            img.to_rgba16().into_raw().into_iter().flat_map(u16::to_le_bytes).collect()
        },
        _ => img.to_rgba8().into_raw(),
    };
    Some(Bitmap { width: img.width(), height: img.height(), rgba })
}

/// `image::codecs::jpeg::JpegEncoder` writes the picture, reduced to red, green
/// and blue by `to_rgb8`, at the given quality, or fails. The result is a
/// function of picture and quality.
#[verifier::external_body]
fn encode_jpeg(img: Bitmap, quality: u8) -> (r: Option<Vec<u8>>)
    requires
        is_eight(img@),
        1 <= quality <= 100,
    ensures
        match r {
            Some(v) => encoded_jpeg(img@, quality) == Some(v@),
            None => encoded_jpeg(img@, quality) is None,
        },
{
    let source = image::RgbaImage::from_raw(img.width, img.height, img.rgba)?;
    let mut out = Vec::new();
    let encoder = image::codecs::jpeg::JpegEncoder::new_with_quality(&mut out, quality);
    image::DynamicImage::ImageRgba8(source).to_rgb8().write_with_encoder(encoder).ok()?;
    Some(out)
}

/// Whether `small` may be a decoded picture brought to the size of its thumbnail.
pub open spec fn is_small(
    picture: (u32, u32, Seq<u8>),
    target_height: u32,
    mode: ResizeMode,
    small: (u32, u32, Seq<u8>),
) -> bool {
    &&& (small.0, small.1) == thumb_dimensions(picture.0, picture.1, target_height)
    &&& is_resampled(picture, small.0, small.1, mode_filter(mode), small.2)
}

/// The thumbnail made of a picture that has its size.
pub open spec fn encoded_thumbnail(small: (u32, u32, Seq<u8>)) -> Result<
    (Seq<u8>, u32, u32),
    GenerateError,
> {
    match encoded_jpeg(shallow(small), JPEG_QUALITY) {
        Some(bytes) => Ok((bytes, small.0, small.1)),
        None => Err(GenerateError::Encode),
    }
}

/// Whether a picture can be brought to the size of its thumbnail.
pub open spec fn can_shrink(picture: (u32, u32, Seq<u8>), target_height: u32) -> bool {
    let (w, h) = thumb_dimensions(picture.0, picture.1, target_height);
    can_resample(picture.0, w, h)
}

/// Whether `r` is the thumbnail of a decoded picture, with its size.
pub open spec fn is_thumbnail(
    picture: (u32, u32, Seq<u8>),
    target_height: u32,
    mode: ResizeMode,
    r: Result<(Seq<u8>, u32, u32), GenerateError>,
) -> bool {
    if can_shrink(picture, target_height) {
        exists|small: (u32, u32, Seq<u8>)|
            #[trigger] is_small(picture, target_height, mode, small) && r == encoded_thumbnail(
                small,
            )
    } else {
        r == Err::<(Seq<u8>, u32, u32), _>(GenerateError::TooLarge)
    }
}

/// Whether `r` is the thumbnail of a file, with its size.
pub open spec fn is_thumbnail_of_file(
    bytes: Seq<u8>,
    path: Seq<char>,
    target_height: u32,
    mode: ResizeMode,
    r: Result<(Seq<u8>, u32, u32), GenerateError>,
) -> bool {
    match source_picture(bytes, path) {
        Some(picture) => is_thumbnail(picture, target_height, mode, r),
        None => r == Err::<(Seq<u8>, u32, u32), _>(GenerateError::Load),
    }
}

/// The picture that a file shows by its extension.
pub open spec fn source_picture(bytes: Seq<u8>, path: Seq<char>) -> Option<(u32, u32, Seq<u8>)> {
    match path_extension(path) {
        Some(ext) => decoded_by_extension(bytes, ext),
        None => None,
    }
}

/// A thumbnail as plain values.
pub open spec fn thumbnail_view(r: Result<(Vec<u8>, u32, u32), GenerateError>) -> Result<
    (Seq<u8>, u32, u32),
    GenerateError,
> {
    match r {
        Ok((bytes, w, h)) => Ok((bytes@, w, h)),
        Err(e) => Err(e),
    }
}

/// A thumbnail with its result as plain values.
pub open spec fn result_view(r: Result<(Vec<u8>, ThumbnailResult), GenerateError>) -> Result<
    (Seq<u8>, u32, u32),
    GenerateError,
> {
    match r {
        Ok((bytes, result)) => Ok((bytes@, result.width, result.height)),
        Err(e) => Err(e),
    }
}

/// A thumbnail with its size as plain values.
pub open spec fn sized_view(r: Result<(Vec<u8>, (u32, u32)), GenerateError>) -> Result<
    (Seq<u8>, u32, u32),
    GenerateError,
> {
    match r {
        Ok((bytes, size)) => Ok((bytes@, size.0, size.1)),
        Err(e) => Err(e),
    }
}

/// Makes thumbnails.
pub struct ThumbnailGenerator;

impl ThumbnailGenerator {
    /// The format that the extension of a path stands for.
    pub fn format_from_extension(path: &str) -> (r: Option<ImageFormat>)
        ensures
            r == format_of_path(path@),
    {
        match extension(path) {
            Some(ext) => Self::format_from_lowercase(&to_lowercase(&ext)),
            None => None,
        }
    }

    /// The format that a lower-case extension stands for.
    pub fn format_from_lowercase(ext: &str) -> (r: Option<ImageFormat>)
        ensures
            r == format_of_extension(ext@),
    {
        if same_text(ext, "jpg") || same_text(ext, "jpeg") {
            Some(ImageFormat::Jpeg)
        } else if same_text(ext, "png") {
            Some(ImageFormat::Png)
        } else if same_text(ext, "webp") {
            Some(ImageFormat::WebP)
        } else if same_text(ext, "gif") {
            Some(ImageFormat::Gif)
        } else if same_text(ext, "bmp") {
            Some(ImageFormat::Bmp)
        } else if same_text(ext, "tiff") || same_text(ext, "tif") {
            Some(ImageFormat::Tiff)
        } else {
            None
        }
    }

    /// Whether a file can be made into a thumbnail, going by its name.
    pub fn can_generate(path: &str) -> (r: bool)
        ensures
            r == (format_of_path(path@) is Some),
    {
        Self::format_from_extension(path).is_some()
    }

    /// Works out the size of a thumbnail.
    pub fn calculate_dimensions(src_width: u32, src_height: u32, target_height: u32) -> (r: (
        u32,
        u32,
    ))
        ensures
            r == thumb_dimensions(src_width, src_height, target_height),
    {
        if src_height == 0 || src_width == 0 {
            return (target_height, target_height);
        }
        let effective: u32 = if target_height < src_height {
            target_height
        } else {
            src_height
        };
        let ratio = Double::from_whole(src_width as u64).over(
            Double::from_whole(src_height as u64),
        );
        let calculated: u32 = Double::from_whole(effective as u64).times(ratio).round_to_whole();
        let width: u32 = if calculated < MIN_THUMB_WIDTH {
            MIN_THUMB_WIDTH
        } else if calculated > MAX_THUMB_WIDTH {
            MAX_THUMB_WIDTH
        } else {
            calculated
        };
        let height: u32 = if width != calculated {
            Double::from_whole(width as u64).over(ratio).round_to_whole()
        } else {
            effective
        };
        if height == 0 {
            (width, 1)
        } else {
            (width, height)
        }
    }

    /// Decodes a file as its extension says.
    pub fn load_image(bytes: &[u8], path: &str) -> (r: Result<Bitmap, GenerateError>)
        ensures
            match r {
                Ok(img) => img.wf() && source_picture(bytes@, path@) == Some(img@),
                Err(e) => source_picture(bytes@, path@) is None && e == GenerateError::Load,
            },
    {
        let ext = match extension(path) {
            Some(ext) => ext,
            None => return Err(GenerateError::Load),
        };
        match load_by_extension(bytes, &ext) {
            Some(img) => Ok(img),
            None => Err(GenerateError::Load),
        }
    }

    /// Scales a picture to the size of its thumbnail.
    pub fn resize_image(img: &Bitmap, target_height: u32, mode: ResizeMode) -> (r: Result<
        Bitmap,
        GenerateError,
    >)
        requires
            img.wf(),
        ensures
            ({
                match r {
                    Ok(small) => {
                        &&& can_shrink(img@, target_height)
                        &&& small.wf()
                        &&& is_small(img@, target_height, mode, small@)
                    },
                    Err(e) => !can_shrink(img@, target_height) && e == GenerateError::TooLarge,
                }
            }),
    {
        let (width, height) = Self::calculate_dimensions(img.width, img.height, target_height);
        if !check_can_resample(img.width, width, height) {
            return Err(GenerateError::TooLarge);
        }
        Ok(resize_exact(img, width, height, mode.filter()))
    }

    /// Encodes a thumbnail as JPEG.
    pub fn encode_image(img: Bitmap) -> (r: Result<Vec<u8>, GenerateError>)
        requires
            img.wf(),
        ensures
            match r {
                Ok(bytes) => encoded_jpeg(shallow(img@), JPEG_QUALITY) == Some(bytes@),
                Err(e) => encoded_jpeg(shallow(img@), JPEG_QUALITY) is None && e
                    == GenerateError::Encode,
            },
    {
        match encode_jpeg(to_eight(img), JPEG_QUALITY) {
            Some(bytes) => Ok(bytes),
            None => Err(GenerateError::Encode),
        }
    }

    /// Makes the thumbnail of a decoded picture: JPEG bytes and size.
    pub fn thumbnail_from_picture(img: &Bitmap, target_height: u32, mode: ResizeMode) -> (r: Result<
        (Vec<u8>, u32, u32),
        GenerateError,
    >)
        requires
            img.wf(),
        ensures
            is_thumbnail(img@, target_height, mode, thumbnail_view(r)),
            r matches Ok((bytes, w, h)) ==> (w, h) == thumb_dimensions(
                img.width,
                img.height,
                target_height,
            ),
    {
        let small = match Self::resize_image(img, target_height, mode) {
            Ok(small) => small,
            Err(e) => return Err(e),
        };
        let (width, height) = (small.width, small.height);
        match Self::encode_image(small) {
            Ok(bytes) => Ok((bytes, width, height)),
            Err(e) => Err(e),
        }
    }

    /// Makes the thumbnail of a file, given its bytes and its path: JPEG bytes
    /// and size.
    pub fn generate_in_memory(bytes: &[u8], path: &str, target_height: u32) -> (r: Result<
        (Vec<u8>, u32, u32),
        GenerateError,
    >)
        ensures
            is_thumbnail_of_file(
                bytes@,
                path@,
                target_height,
                ResizeMode::Quality,
                thumbnail_view(r),
            ),
            source_picture(bytes@, path@) matches Some(p) ==> r matches Ok((_, w, h)) ==> (w, h)
                == thumb_dimensions(p.0, p.1, target_height),
            source_picture(bytes@, path@) is None ==> r is Err,
    {
        match Self::load_image(bytes, path) {
            Ok(img) => Self::thumbnail_from_picture(&img, target_height, ResizeMode::Quality),
            Err(e) => Err(e),
        }
    }

    /// Makes the thumbnail of a file in the given mode: the JPEG bytes to store and the
    /// full result.
    pub fn generate_thumbnail_with_mode(
        bytes: &[u8],
        path: &str,
        target_height: u32,
        mode: ResizeMode,
    ) -> (r: Result<(Vec<u8>, ThumbnailResult), GenerateError>)
        ensures
            is_thumbnail_of_file(bytes@, path@, target_height, mode, result_view(r)),
            source_picture(bytes@, path@) matches Some(p) ==> r matches Ok((_, result)) ==> (
            result.width, result.height) == thumb_dimensions(p.0, p.1, target_height),
            source_picture(bytes@, path@) is None ==> r is Err,
    {
        let img = match Self::load_image(bytes, path) {
            Ok(img) => img,
            Err(e) => return Err(e),
        };
        match Self::thumbnail_from_picture(&img, target_height, mode) {
            Ok((jpeg, width, height)) => Ok((jpeg, ThumbnailResult { width, height })),
            Err(e) => Err(e),
        }
    }

    /// Makes the thumbnail of a file: the JPEG bytes to store and the full
    /// result.
    pub fn generate_thumbnail(bytes: &[u8], path: &str, target_height: u32) -> (r: Result<
        (Vec<u8>, ThumbnailResult),
        GenerateError,
    >)
        ensures
            is_thumbnail_of_file(bytes@, path@, target_height, ResizeMode::Quality, result_view(r)),
            source_picture(bytes@, path@) matches Some(p) ==> r matches Ok((_, result)) ==> (
            result.width, result.height) == thumb_dimensions(p.0, p.1, target_height),
            source_picture(bytes@, path@) is None ==> r is Err,
    {
        Self::generate_thumbnail_with_mode(bytes, path, target_height, ResizeMode::Quality)
    }

    /// Makes the thumbnail of a file: the JPEG bytes to store and their width
    /// and height.
    pub fn generate(bytes: &[u8], path: &str, target_height: u32) -> (r: Result<
        (Vec<u8>, (u32, u32)),
        GenerateError,
    >)
        ensures
            is_thumbnail_of_file(bytes@, path@, target_height, ResizeMode::Quality, sized_view(r)),
            source_picture(bytes@, path@) matches Some(p) ==> r matches Ok((_, result)) ==> (
            result.0, result.1) == thumb_dimensions(p.0, p.1, target_height),
            source_picture(bytes@, path@) is None ==> r is Err,
    {
        match Self::generate_thumbnail(bytes, path, target_height) {
            Ok((jpeg, result)) => Ok((jpeg, (result.width, result.height))),
            Err(e) => Err(e),
        }
    }
}

/// What two roundings add is less than half a pixel.
proof fn lemma_little_more(b: int, hu: int, u: int)
    requires
        0x400_0000_0000_0000_0000_0000_0000int * hu >= 0x3ff_ffff_ffff_ffc0_0000_0000_0001int * b,
        0 <= hu <= 2048 * u,
        u > 0,
    ensures
        2 * b < 2 * hu + u,
{
}

/// What two roundings take away is less than half a pixel.
proof fn lemma_little_less(b: int, lu: int, u: int)
    requires
        0x400_0000_0000_0000_0000_0000_0000int * lu <= 0x400_0000_0000_0040_0000_0000_0001int * b,
        lu <= 2048 * u,
        u > 0,
    ensures
        2 * b + u >= 2 * lu,
{
}

/// What is worked out for the width of a thumbnail, between two whole numbers of which
/// the proportion of the source leaves no doubt.
proof fn lemma_width_between(w: u32, h: u32, target_height: u32, low: int, high: int)
    requires
        w > 0 && h > 0 && target_height > 0,
        0 <= low <= 2048 && 0 <= high <= 2048,
    ensures
        ({
            let k = if h < target_height {
                h
            } else {
                target_height
            };
            &&& k * w >= low * h ==> proportional_width(w, h, target_height) >= low
            &&& k * w <= high * h ==> proportional_width(w, h, target_height) <= high
        }),
{
    let k = effective_height(h, target_height);
    let b = of_whole(k as nat).product(aspect(w, h)).size();
    let u = pow2(1074);
    lemma_pow2_pos(1074);
    scaled_ratio_error(k, w, h);
    let n = (2 * b + u) as int / (2 * u) as int;
    lemma_width_of(b, u, n);
    let kw = (k * w) as nat;
    let f: int = 0x20_0000_0000_0000;
    let over: int = 0x20_0000_0000_0001;
    let under: int = 0x1f_ffff_ffff_ffff;
    let bh = b * h;
    assert(f * (f * (kw * u)) <= over * (over * bh));
    assert(f * (f * (kw * u)) >= under * (under * bh));
    if kw >= low * h {
        assert((f * f) * low * u <= (over * over) * b) by (nonlinear_arith)
            requires
                f * (f * (kw * u)) <= over * (over * bh),
                kw >= low * h,
                bh == b * h,
                h > 0,
                u > 0,
                f > 0,
        {
            assert((f * f) * (kw * u) <= (over * over) * (b * h));
            assert(kw * u >= (low * h) * u);
            assert((f * f) * ((low * h) * u) <= (f * f) * (kw * u));
            assert((f * f) * ((low * h) * u) == ((f * f) * low * u) * h);
            assert(((f * f) * low * u) * h <= ((over * over) * b) * h);
        }
        let lu = low * u;
        assert((f * f) * low * u == (f * f) * lu) by (nonlinear_arith)
            requires
                lu == low * u,
        ;
        assert(lu <= 2048 * u) by (nonlinear_arith)
            requires
                lu == low * u,
                low <= 2048,
                u > 0,
        ;
        assert(f * f == 0x400_0000_0000_0000_0000_0000_0000int && over * over == 0x400_0000_0000_0040_0000_0000_0001int) by (nonlinear_arith)
            requires
                f == 0x20_0000_0000_0000,
                over == 0x20_0000_0000_0001,
        ;
        lemma_little_less(b as int, lu, u as int);
        assert(n >= low) by (nonlinear_arith)
            requires
                2 * b < (2 * n + 1) * u,
                2 * b + u >= 2 * (low * u),
                u > 0,
        {
            assert((2 * n + 2) * u > (2 * low) * u);
        }
    }
    if kw <= high * h {
        assert((f * f) * high * u >= (under * under) * b) by (nonlinear_arith)
            requires
                f * (f * (kw * u)) >= under * (under * bh),
                kw <= high * h,
                bh == b * h,
                h > 0,
                u > 0,
                f > 0,
        {
            assert((f * f) * (kw * u) >= (under * under) * (b * h));
            assert(kw * u <= (high * h) * u);
            assert((f * f) * ((high * h) * u) >= (f * f) * (kw * u));
            assert((f * f) * ((high * h) * u) == ((f * f) * high * u) * h);
            assert(((f * f) * high * u) * h >= ((under * under) * b) * h);
        }
        let hu = high * u;
        assert((f * f) * high * u == (f * f) * hu) by (nonlinear_arith)
            requires
                hu == high * u,
        ;
        assert(0 <= hu <= 2048 * u) by (nonlinear_arith)
            requires
                hu == high * u,
                0 <= high <= 2048,
                u > 0,
        ;
        assert(f * f == 0x400_0000_0000_0000_0000_0000_0000int && under * under == 0x3ff_ffff_ffff_ffc0_0000_0000_0001int) by (nonlinear_arith)
            requires
                f == 0x20_0000_0000_0000,
                under == 0x1f_ffff_ffff_ffff,
        ;
        lemma_little_more(b as int, hu, u as int);
        assert(n <= high) by (nonlinear_arith)
            requires
                (2 * n - 1) * u <= 2 * b,
                2 * b < 2 * (high * u) + u,
                u > 0,
        {
            assert((2 * n - 1) * u < (2 * high + 1) * u);
        }
    }
}

/// The size of a thumbnail goes by the sides of its source alone. Where the width in
/// proportion to the height, which is the one asked for or that of the source if that is
/// less, is from 64 to 1024 pixels, the thumbnail has that height and that width, to
/// less than a pixel. A narrower source is 64 pixels wide, a wider one 1024, and the
/// height follows to half a pixel, and is at least one. Such sources are taken to be no
/// higher than 65536 pixels.
pub proof fn thumbnails_go_by_the_source(w: u32, h: u32, target_height: u32)
    requires
        w > 0 && h > 0 && target_height > 0,
    ensures
        ({
            let (width, height) = thumb_dimensions(w, h, target_height);
            let k = if h < target_height {
                h
            } else {
                target_height
            };
            &&& 64 * h <= k * w <= 1024 * h ==> {
                &&& height == k
                &&& -(h as int) < width * h - height * w < h
                &&& h <= 65536 ==> -(h as int) <= 2 * (width * h - height * w) <= h
            }
            &&& k * w <= 63 * h ==> width == 64
            &&& k * w >= 1025 * h ==> width == 1024
            &&& h <= 65536 && (k * w <= 63 * h || k * w >= 1025 * h) ==> {
                &&& height >= 1
                &&& height > 1 ==> -(w as int) <= 2 * (height * w - width * h) <= w
                &&& -(w as int) <= height * w - width * h <= w
            }
        }),
{
    let k = effective_height(h, target_height);
    lemma_width_between(w, h, target_height, 64, 1024);
    lemma_width_between(w, h, target_height, 1025, 63);
    if 64 * h <= k * w <= 1024 * h {
        thumbnails_are_in_proportion(w, h, target_height);
    }
    if h <= 65536 && (k * w <= 63 * h || k * w >= 1025 * h) {
        cut_thumbnails_are_in_proportion(w, h, target_height);
    }
}

/// A picture without pixels is given a square thumbnail.
pub proof fn empty_pictures_are_square(w: u32, h: u32, target_height: u32)
    requires
        w == 0 || h == 0,
    ensures
        thumb_dimensions(w, h, target_height) == (target_height, target_height),
{
}

/// Everything that a thumbnail can be made from is an image, and two spellings of an
/// extension stand for one format.
pub proof fn formats_are_those_of_images(ext: Seq<char>)
    ensures
        format_of_extension(ext) is Some ==> crate::models::media_item::type_of_extension(ext)
            == Some(crate::models::media_item::MediaType::Image),
        format_of_extension("jpg"@) == format_of_extension("jpeg"@),
        format_of_extension("tif"@) == format_of_extension("tiff"@),
        format_of_extension("jpg"@) == Some(ImageFormat::Jpeg),
        format_of_extension("png"@) == Some(ImageFormat::Png),
        format_of_extension("webp"@) == Some(ImageFormat::WebP),
        format_of_extension("gif"@) == Some(ImageFormat::Gif),
        format_of_extension("bmp"@) == Some(ImageFormat::Bmp),
        format_of_extension("tiff"@) == Some(ImageFormat::Tiff),
{
    reveal_strlit("jpg");
    reveal_strlit("jpeg");
    reveal_strlit("png");
    reveal_strlit("webp");
    reveal_strlit("gif");
    reveal_strlit("bmp");
    reveal_strlit("tiff");
    reveal_strlit("tif");
    assert("jpg"@.len() == 3 && "jpeg"@.len() == 4 && "webp"@.len() == 4 && "tiff"@.len() == 4);
    assert("jpg"@[0] == 'j' && "jpeg"@[0] == 'j' && "png"@[0] == 'p' && "webp"@[0] == 'w' && "gif"@[0]
        == 'g' && "bmp"@[0] == 'b' && "tiff"@[0] == 't' && "tif"@[0] == 't');
}

/// The fast mode scales with the triangle filter and is named so; the other takes more
/// care.
pub proof fn modes_have_their_filters()
    ensures
        mode_filter(ResizeMode::Fast) == Filter::Triangle,
        mode_filter(ResizeMode::Quality) == Filter::CatmullRom,
        mode_name(ResizeMode::Fast) == "fast"@,
        mode_name(ResizeMode::Quality) == "quality"@,
{
}

/// A thumbnail of a file has the size that goes with the size of the picture in it, and its
/// bytes are those of a JPEG picture of that size, at eighty-five of a hundred.
pub proof fn thumbnail_of_a_file_has_its_size(
    bytes: Seq<u8>,
    path: Seq<char>,
    target_height: u32,
    mode: ResizeMode,
    r: Result<(Seq<u8>, u32, u32), GenerateError>,
)
    requires
        is_thumbnail_of_file(bytes, path, target_height, mode, r),
    ensures
        path_extension(path) is None ==> r is Err,
        path_extension(path) matches Some(ext) ==> match decoded_by_extension(bytes, ext) {
            None => r == Err::<(Seq<u8>, u32, u32), _>(GenerateError::Load),
            Some(picture) => r matches Ok((jpeg, w, h)) ==> {
                &&& (w, h) == thumb_dimensions(picture.0, picture.1, target_height)
                &&& exists|samples: Seq<u8>| #[trigger]
                    encoded_jpeg(shallow((w, h, samples)), 85) == Some(jpeg)
            },
        },
{
    if path_extension(path) is Some && decoded_by_extension(
        bytes,
        path_extension(path)->0,
    ) is Some && r is Ok {
        let picture = decoded_by_extension(bytes, path_extension(path)->0)->0;
        let small = choose|small: (u32, u32, Seq<u8>)|
            #[trigger] is_small(picture, target_height, mode, small) && r == encoded_thumbnail(
                small,
            );
        assert(encoded_jpeg(shallow((small.0, small.1, small.2)), 85) == Some((r->Ok_0).0));
    }
}

/// Thumbnails of pictures are between 64 and 1024 pixels wide and at least one high.
pub proof fn thumbnails_are_neither_narrow_nor_wide(w: u32, h: u32, target_height: u32)
    requires
        w > 0 && h > 0,
    ensures
        64 <= thumb_dimensions(w, h, target_height).0 <= 1024,
        thumb_dimensions(w, h, target_height).1 >= 1,
{
}

/// Thumbnails are 256 pixels high where nothing else is asked for.
pub proof fn height_of_thumbnails()
    ensures
        DEFAULT_THUMB_HEIGHT == 256,
{
}

} // verus!
