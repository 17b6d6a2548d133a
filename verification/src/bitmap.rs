//! Decoded pictures as plain pixels, and the picture operations that the image
//! crate performs on them.
use vstd::prelude::*;

verus! {

/// A decoded picture: red, green, blue and alpha of each pixel, row by row from the
/// top left. A sample takes one byte or two, the less significant first.
#[derive(Debug)]
pub struct Bitmap {
    pub width: u32,
    pub height: u32,
    pub rgba: Vec<u8>,
}

impl View for Bitmap {
    type V = (u32, u32, Seq<u8>);

    open spec fn view(&self) -> (u32, u32, Seq<u8>) {
        (self.width, self.height, self.rgba@)
    }
}

/// Whether the samples of a picture take one byte each.
pub open spec fn is_eight(p: (u32, u32, Seq<u8>)) -> bool {
    p.2.len() == 4 * p.0 * p.1
}

/// Whether a buffer holds exactly the pixels of its size.
pub open spec fn is_picture(p: (u32, u32, Seq<u8>)) -> bool {
    is_eight(p) || p.2.len() == 8 * p.0 * p.1
}

/// The number of bytes of a pixel.
pub open spec fn pixel_bytes(p: (u32, u32, Seq<u8>)) -> int {
    if is_eight(p) {
        4
    } else {
        8
    }
}

/// The bytes of the pixel at `(x, y)`, in rows of the given width and pixels of `b`
/// bytes.
pub open spec fn pixel_at(data: Seq<u8>, b: int, width: int, x: int, y: int) -> Seq<u8> {
    data.subrange(b * (y * width + x), b * (y * width + x) + b)
}

impl Bitmap {
    /// The buffer holds exactly the pixels of the picture.
    pub open spec fn wf(self) -> bool {
        is_picture(self@)
    }

    /// The bytes of one pixel.
    pub open spec fn pixel(self, x: int, y: int) -> Seq<u8> {
        pixel_at(self.rgba@, pixel_bytes(self@), self.width as int, x, y)
    }
}

/// An optional picture as plain values.
pub open spec fn picture_view(r: Option<Bitmap>) -> Option<(u32, u32, Seq<u8>)> {
    match r {
        Some(b) => Some(b@),
        None => None,
    }
}

/// Why the first frame of a GIF could not be had.
#[derive(Clone, Copy, PartialEq, Eq, Structural, Debug)]
pub enum GifFault {
    /// The file header is not that of a GIF.
    Header,
    /// The first frame does not decode.
    Frame,
}

/// The first frame of a GIF as plain values.
pub open spec fn frame_view(r: Result<Option<Bitmap>, GifFault>) -> Result<
    Option<(u32, u32, Seq<u8>)>,
    GifFault,
> {
    match r {
        Ok(f) => Ok(picture_view(f)),
        Err(e) => Err(e),
    }
}

/// What `image::load_from_memory` makes of the given bytes, as RGBA of eight bits, or
/// of sixteen where they hold samples of sixteen bits.
pub uninterp spec fn decoded_image(bytes: Seq<u8>) -> Option<(u32, u32, Seq<u8>)>;

/// What `image::load_from_memory_with_format` makes of the given bytes when told
/// that they are a JPEG, as eight-bit RGBA.
pub uninterp spec fn decoded_jpeg(bytes: Seq<u8>) -> Option<(u32, u32, Seq<u8>)>;

/// What the frame iterator of `image::codecs::gif::GifDecoder` gives first.
pub uninterp spec fn decoded_gif_frame(bytes: Seq<u8>) -> Result<
    Option<(u32, u32, Seq<u8>)>,
    GifFault,
>;

/// The size that `image::ImageReader::into_dimensions` reads from the header of
/// the given bytes.
pub uninterp spec fn header_dimensions(bytes: Seq<u8>) -> Option<(u32, u32)>;

/// Whether bytes begin with one of the two GIF signatures.
pub open spec fn has_gif_signature(bytes: Seq<u8>) -> bool {
    bytes.len() >= 6 && (bytes.take(6) == seq![0x47u8, 0x49u8, 0x46u8, 0x38u8, 0x39u8, 0x61u8]
        || bytes.take(6) == seq![0x47u8, 0x49u8, 0x46u8, 0x38u8, 0x37u8, 0x61u8])
}

/// `image::guess_format` goes by the first bytes alone: it answers GIF for the
/// signatures `GIF89a` and `GIF87a` and for nothing else.
#[verifier::external_body]
pub(crate) fn is_gif(bytes: &[u8]) -> (r: bool)
    ensures
        r == has_gif_signature(bytes@),
{
    matches!(image::guess_format(bytes), Ok(image::ImageFormat::Gif))
}

/// `image::load_from_memory` guesses the format from the bytes and decodes them;
/// `to_rgba16` brings colour types of sixteen bits to eight bytes per pixel, and
/// `to_rgba8` every other to four, those of floating point samples among them. The
/// result is a function of the bytes, and its buffer holds exactly the pixels of its
/// size.
#[verifier::external_body]
pub(crate) fn load_from_memory(bytes: &[u8]) -> (r: Option<Bitmap>)
    ensures
        picture_view(r) == decoded_image(bytes@),
        r matches Some(b) ==> b.wf(),
{
    let img = image::load_from_memory(bytes).ok()?;
    let rgba = match img {
        image::DynamicImage::ImageLuma16(_)
        | image::DynamicImage::ImageLumaA16(_)
        | image::DynamicImage::ImageRgb16(_)
        | image::DynamicImage::ImageRgba16(_) => {
            img.to_rgba16().into_raw().into_iter().flat_map(u16::to_le_bytes).collect()
        },
        _ => img.to_rgba8().into_raw(),
    };
    Some(Bitmap { width: img.width(), height: img.height(), rgba })
}

/// `image::load_from_memory_with_format` decodes the bytes as a JPEG; `to_rgba8`
/// brings them to four bytes per pixel. The result is a function of the bytes,
/// and its buffer holds exactly the pixels of its size.
#[verifier::external_body]
pub(crate) fn load_jpeg(bytes: &[u8]) -> (r: Option<Bitmap>)
    ensures
        picture_view(r) == decoded_jpeg(bytes@),
        r matches Some(b) ==> b.wf(),
{
    let format = image::ImageFormat::Jpeg;
    let pixels = image::load_from_memory_with_format(bytes, format).ok()?.to_rgba8();
    Some(Bitmap { width: pixels.width(), height: pixels.height(), rgba: pixels.into_raw() })
}

/// `image::codecs::gif::GifDecoder` reads the header when it is made, and its
/// frame iterator gives the composed first frame in RGBA, an error, or nothing.
/// The result is a function of the bytes, and its buffer holds exactly the
/// pixels of its size.
#[verifier::external_body]
pub(crate) fn first_gif_frame(bytes: &[u8]) -> (r: Result<Option<Bitmap>, GifFault>)
    ensures
        frame_view(r) == decoded_gif_frame(bytes@),
        r matches Ok(Some(b)) ==> b.wf(),
{
    let decoder = image::codecs::gif::GifDecoder::new(std::io::Cursor::new(bytes)).map_err(
        |_| GifFault::Header,
    )?;
    match image::AnimationDecoder::into_frames(decoder).next() {
        None => Ok(None),
        Some(frame) => {
            let pixels = frame.map_err(|_| GifFault::Frame)?.into_buffer();
            let (width, height) = pixels.dimensions();
            Ok(Some(Bitmap { width, height, rgba: pixels.into_raw() }))
        },
    }
}

/// `image::ImageReader::into_dimensions`, after `with_guessed_format`, reads the
/// size out of the header without decoding the pixels. The result is a function
/// of the bytes.
#[verifier::external_body]
pub(crate) fn dimensions_from_header(bytes: &[u8]) -> (r: Option<(u32, u32)>)
    ensures
        r == header_dimensions(bytes@),
{
    let reader = image::ImageReader::new(std::io::Cursor::new(bytes));
    reader.with_guessed_format().ok()?.into_dimensions().ok()
}

/// A way to turn or mirror a picture.
#[derive(Clone, Copy, PartialEq, Eq, Structural, Debug)]
pub enum Turn {
    /// A quarter clockwise.
    Quarter,
    Half,
    /// A quarter counter-clockwise.
    ThreeQuarters,
    /// Left to right.
    Across,
    /// Top to bottom.
    Down,
}

/// Whether a turn exchanges width and height.
pub open spec fn exchanges(turn: Turn) -> bool {
    turn == Turn::Quarter || turn == Turn::ThreeQuarters
}

/// Where the pixel at `(x, y)` of a turned picture stands in the picture itself, which
/// has the given size.
pub open spec fn turn_source(turn: Turn, w: int, h: int, x: int, y: int) -> (int, int) {
    match turn {
        Turn::Quarter => (y, h - 1 - x),
        Turn::Half => (w - 1 - x, h - 1 - y),
        Turn::ThreeQuarters => (w - 1 - y, x),
        Turn::Across => (w - 1 - x, y),
        Turn::Down => (x, h - 1 - y),
    }
}

/// Whether `out` is a picture turned.
pub open spec fn is_turned(turn: Turn, img: Bitmap, out: Bitmap) -> bool {
    &&& out.wf()
    &&& out.width == if exchanges(turn) {
        img.height
    } else {
        img.width
    }
    &&& out.height == if exchanges(turn) {
        img.width
    } else {
        img.height
    }
    &&& out.rgba@.len() == img.rgba@.len()
    &&& forall|x: int, y: int|
        0 <= x < out.width && 0 <= y < out.height ==> #[trigger] out.pixel(x, y) == img.pixel(
            turn_source(turn, img.width as int, img.height as int, x, y).0,
            turn_source(turn, img.width as int, img.height as int, x, y).1,
        )
}

impl Bitmap {
    /// The number of bytes of a pixel.
    pub(crate) fn bytes_per_pixel(&self) -> (r: usize)
        requires
            self.wf(),
        ensures
            r == pixel_bytes(self@),
    {
        proof {
            lemma_area(self.width, self.height);
        }
        let area: u64 = self.width as u64 * self.height as u64;
        if self.rgba.len() as u128 == 4 * area as u128 {
            4
        } else {
            8
        }
    }
}

proof fn lemma_area(w: u32, h: u32)
    ensures
        0 <= w * h <= 0xffff_fffe_0000_0001,
        4 * w * h == 4 * (w * h),
        8 * w * h == 8 * (w * h),
{
    assert(0 <= w * h <= 0xffff_fffe_0000_0001) by (nonlinear_arith)
        requires
            w <= 0xffff_ffff,
            h <= 0xffff_ffff,
    ;
    assert(4 * w * h == 4 * (w * h) && 8 * w * h == 8 * (w * h)) by (nonlinear_arith);
}

/// A place within a picture has a number below that of its pixels.
proof fn lemma_place(w: int, h: int, x: int, y: int)
    requires
        0 <= x < w,
        0 <= y < h,
    ensures
        0 <= y * w,
        0 <= y * w + x < w * h,
        y * w + w <= w * h,
{
    assert(y * w + w <= w * h) by (nonlinear_arith)
        requires
            0 <= y < h,
            0 < w,
    ;
    assert(0 <= y * w) by (nonlinear_arith)
        requires
            0 <= y,
            0 < w,
    ;
}

/// The place of a number is the only one that has it.
proof fn lemma_same_place(w: int, x: int, y: int, u: int, v: int)
    requires
        0 <= x < w,
        0 <= u < w,
        y * w + x == v * w + u,
    ensures
        x == u && y == v,
{
    assert(x == u && y == v) by (nonlinear_arith)
        requires
            0 <= x < w,
            0 <= u < w,
            y * w + x == v * w + u,
    ;
}

fn source_of(turn: Turn, w: u32, h: u32, x: u32, y: u32) -> (r: (u32, u32))
    requires
        exchanges(turn) ==> x < h && y < w,
        !exchanges(turn) ==> x < w && y < h,
    ensures
        (r.0 as int, r.1 as int) == turn_source(turn, w as int, h as int, x as int, y as int),
        r.0 < w && r.1 < h,
{
    match turn {
        Turn::Quarter => (y, h - 1 - x),
        Turn::Half => (w - 1 - x, h - 1 - y),
        Turn::ThreeQuarters => (w - 1 - y, x),
        Turn::Across => (w - 1 - x, y),
        Turn::Down => (x, h - 1 - y),
    }
}

fn push_pixel(out: &mut Vec<u8>, img: &Bitmap, bytes: usize, x: u32, y: u32)
    requires
        img.wf(),
        bytes == pixel_bytes(img@),
        x < img.width,
        y < img.height,
    ensures
        final(out)@ == old(out)@ + img.pixel(x as int, y as int),
        img.pixel(x as int, y as int).len() == bytes,
{
    let ghost place = y * img.width + x;
    let ghost area = img.width * img.height;
    let len: usize = img.rgba.len();
    proof {
        lemma_place(img.width as int, img.height as int, x as int, y as int);
        lemma_area(img.width, img.height);
        assert(len == bytes * area);
        assert(bytes * place + bytes <= bytes * area) by (nonlinear_arith)
            requires
                0 <= place < area,
                bytes > 0,
        ;
        assert(0 <= bytes * place) by (nonlinear_arith)
            requires
                0 <= place,
                bytes > 0,
        ;
        assert(place < area <= len);
    }
    let number: usize = (y as u64 * img.width as u64 + x as u64) as usize;
    assert(number == place);
    let at: usize = bytes * number;
    let ghost before = out@;
    let mut i: usize = 0;
    while i < bytes
        invariant
            i <= bytes,
            at + bytes <= len,
            len == img.rgba@.len(),
            out@ == before + img.rgba@.subrange(at as int, at + i),
        decreases bytes - i,
    {
        out.push(img.rgba[at + i]);
        i = i + 1;
        assert(out@ =~= before + img.rgba@.subrange(at as int, at + i));
    }
}

/// Whether these are the first `n` pixels of a picture turned, in rows of the given
/// width.
spec fn is_turned_up_to(turn: Turn, img: Bitmap, width: int, out: Seq<u8>, n: int) -> bool {
    let b = pixel_bytes(img@);
    &&& out.len() == b * n
    &&& forall|x: int, y: int|
        0 <= x < width && 0 <= y && y * width + x < n ==> #[trigger] pixel_at(out, b, width, x, y)
            == img.pixel(
            turn_source(turn, img.width as int, img.height as int, x, y).0,
            turn_source(turn, img.width as int, img.height as int, x, y).1,
        )
}

/// One more pixel of a picture that is turned.
proof fn lemma_one_more(
    turn: Turn,
    img: Bitmap,
    width: int,
    out: Seq<u8>,
    x: int,
    y: int,
    pixel: Seq<u8>,
)
    requires
        is_turned_up_to(turn, img, width, out, y * width + x),
        0 <= x < width,
        0 <= y,
        pixel.len() == pixel_bytes(img@),
        pixel == img.pixel(
            turn_source(turn, img.width as int, img.height as int, x, y).0,
            turn_source(turn, img.width as int, img.height as int, x, y).1,
        ),
    ensures
        is_turned_up_to(turn, img, width, out + pixel, y * width + x + 1),
{
    let b = pixel_bytes(img@);
    let n = y * width + x;
    assert(b * (n + 1) == b * n + b) by (nonlinear_arith);
    assert forall|u: int, v: int| 0 <= u < width && 0 <= v && v * width + u < n + 1 implies
        #[trigger] pixel_at(out + pixel, b, width, u, v) == img.pixel(
        turn_source(turn, img.width as int, img.height as int, u, v).0,
        turn_source(turn, img.width as int, img.height as int, u, v).1,
    ) by {
        let k = v * width + u;
        assert(0 <= v * width) by (nonlinear_arith)
            requires
                0 <= v,
                0 < width,
        ;
        assert(0 <= b * k) by (nonlinear_arith)
            requires
                0 <= k,
                0 < b,
        ;
        if k < n {
            assert(b * k + b <= b * n) by (nonlinear_arith)
                requires
                    k < n,
                    0 < b,
            ;
            assert(pixel_at(out + pixel, b, width, u, v) =~= pixel_at(out, b, width, u, v));
        } else {
            lemma_same_place(width, x, y, u, v);
            assert(pixel_at(out + pixel, b, width, u, v) =~= pixel);
        }
    }
}

/// Turns or mirrors a picture.
pub(crate) fn turned(img: &Bitmap, turn: Turn) -> (r: Bitmap)
    requires
        img.wf(),
    ensures
        is_turned(turn, *img, r),
{
    let (width, height) = match turn {
        Turn::Quarter | Turn::ThreeQuarters => (img.height, img.width),
        _ => (img.width, img.height),
    };
    let bytes: usize = img.bytes_per_pixel();
    let mut rgba: Vec<u8> = Vec::new();
    let ghost w = width as int;
    let mut y: u32 = 0;
    assert(is_turned_up_to(turn, *img, w, rgba@, 0));
    assert(0 * w == 0);
    while y < height
        invariant
            img.wf(),
            bytes == pixel_bytes(img@),
            y <= height,
            w == width,
            exchanges(turn) ==> width == img.height && height == img.width,
            !exchanges(turn) ==> width == img.width && height == img.height,
            is_turned_up_to(turn, *img, w, rgba@, y * w),
        decreases height - y,
    {
        let mut x: u32 = 0;
        while x < width
            invariant
                img.wf(),
                bytes == pixel_bytes(img@),
                y < height,
                x <= width,
                w == width,
                exchanges(turn) ==> width == img.height && height == img.width,
                !exchanges(turn) ==> width == img.width && height == img.height,
                is_turned_up_to(turn, *img, w, rgba@, y * w + x),
            decreases width - x,
        {
            let (sx, sy) = source_of(turn, img.width, img.height, x, y);
            let ghost before = rgba@;
            push_pixel(&mut rgba, img, bytes, sx, sy);
            proof {
                lemma_one_more(
                    turn,
                    *img,
                    w,
                    before,
                    x as int,
                    y as int,
                    img.pixel(sx as int, sy as int),
                );
            }
            x = x + 1;
        }
        assert((y + 1) * w == y * w + w) by (nonlinear_arith);
        y = y + 1;
    }
    let r = Bitmap { width, height, rgba };
    proof {
        let b = pixel_bytes(img@);
        let area = img.width * img.height;
        assert(height * w == area) by (nonlinear_arith)
            requires
                w == width,
                area == img.width * img.height,
                (width == img.height && height == img.width) || (width == img.width && height
                    == img.height),
        ;
        assert(r.rgba@.len() == img.rgba@.len()) by (nonlinear_arith)
            requires
                r.rgba@.len() == b * (height * w),
                height * w == img.width * img.height,
                img.rgba@.len() == b * img.width * img.height,
        ;
        assert(4 * r.width * r.height == 4 * img.width * img.height && 8 * r.width * r.height == 8
            * img.width * img.height) by (nonlinear_arith)
            requires
                (r.width == img.height && r.height == img.width) || (r.width == img.width
                    && r.height == img.height),
        ;
        assert forall|x: int, y: int| 0 <= x < r.width && 0 <= y < r.height implies
            #[trigger] r.pixel(x, y) == img.pixel(
            turn_source(turn, img.width as int, img.height as int, x, y).0,
            turn_source(turn, img.width as int, img.height as int, x, y).1,
        ) by {
            lemma_place(r.width as int, r.height as int, x, y);
            assert(height * w == w * height) by (nonlinear_arith);
            assert(pixel_at(r.rgba@, b, w, x, y) == r.pixel(x, y));
        }
    }
    r
}

/// The sample with the given number.
pub open spec fn sample(p: (u32, u32, Seq<u8>), i: int) -> int {
    if is_eight(p) {
        p.2[i] as int
    } else {
        p.2[2 * i] + 256 * p.2[2 * i + 1]
    }
}

/// The samples of a picture in eight bits: those of sixteen bits to the nearest.
pub open spec fn eight_bits(p: (u32, u32, Seq<u8>)) -> Seq<u8> {
    if is_eight(p) {
        p.2
    } else {
        Seq::new((4 * p.0 * p.1) as nat, |i: int| ((sample(p, i) + 128) / 257) as u8)
    }
}

/// A picture in eight bits.
pub open spec fn shallow(p: (u32, u32, Seq<u8>)) -> (u32, u32, Seq<u8>) {
    (p.0, p.1, eight_bits(p))
}

/// Brings a picture to eight bits per sample.
pub fn to_eight(img: Bitmap) -> (r: Bitmap)
    requires
        img.wf(),
    ensures
        r.wf(),
        is_eight(r@),
        r@ == shallow(img@),
{
    if img.bytes_per_pixel() == 4 {
        return img;
    }
    let mut rgba: Vec<u8> = Vec::new();
    let mut i: usize = 0;
    let len: usize = img.rgba.len();
    let count: usize = len / 2;
    let ghost all = eight_bits(img@);
    proof {
        lemma_area(img.width, img.height);
    }
    assert(all.len() == count);
    while i < count
        invariant
            i <= count,
            len == img.rgba@.len(),
            len == 2 * count,
            all.len() == count,
            all == eight_bits(img@),
            !is_eight(img@),
            rgba@ == all.take(i as int),
        decreases count - i,
    {
        let deep: u32 = img.rgba[2 * i] as u32 + 256 * img.rgba[2 * i + 1] as u32;
        rgba.push(((deep + 128) / 257) as u8);
        i = i + 1;
        assert(rgba@ =~= all.take(i as int));
    }
    assert(rgba@ =~= all);
    Bitmap { width: img.width, height: img.height, rgba }
}

/// How pixels are weighed when a picture is resampled.
#[derive(Clone, Copy, PartialEq, Eq, Structural, Debug)]
pub enum Filter {
    CatmullRom,
    Triangle,
}

/// The longest side that a picture is resampled to. Positions are worked out in single
/// precision, which no longer tells the pixels of much longer sides apart.
pub const MAX_SIDE: u32 = 0x10_0000;

/// What `image::imageops::resize` makes of a picture of eight bits with the triangle
/// filter.
pub uninterp spec fn resampled_eight(
    picture: (u32, u32, Seq<u8>),
    width: u32,
    height: u32,
) -> Seq<u8>;

/// What `image::imageops::resize` makes of a picture of sixteen bits with the triangle
/// filter.
pub uninterp spec fn resampled_sixteen(
    picture: (u32, u32, Seq<u8>),
    width: u32,
    height: u32,
) -> Seq<u8>;

/// A picture at another size, at its own number of bits, by the triangle filter.
pub open spec fn resampled(picture: (u32, u32, Seq<u8>), width: u32, height: u32) -> Seq<u8> {
    if is_eight(picture) {
        resampled_eight(picture, width, height)
    } else {
        resampled_sixteen(picture, width, height)
    }
}

/// Whether `out` may be a picture brought to another size: it has the pixels of that
/// size, at the number of bits of the picture, and where the size is that of the
/// picture, its pixels. The triangle filter leaves nothing open beyond that.
pub open spec fn is_resampled(
    picture: (u32, u32, Seq<u8>),
    width: u32,
    height: u32,
    filter: Filter,
    out: Seq<u8>,
) -> bool {
    &&& out.len() == pixel_bytes(picture) * width * height
    &&& (width, height) == (picture.0, picture.1) ==> out == picture.2
    &&& filter == Filter::Triangle ==> out == resampled(picture, width, height)
}

/// Whether a picture can be resampled at all: the memory for it can be had, and the
/// sides asked for are not too long.
pub open spec fn can_resample(src_width: u32, width: u32, height: u32) -> bool {
    &&& width <= MAX_SIDE && height <= MAX_SIDE
    &&& 16 * src_width * height <= isize::MAX && 16 * width * height <= isize::MAX
}

/// `image::imageops::resize` gives a picture of exactly the size asked for, and a copy
/// where that is the size of the source. With the triangle filter the result is a
/// function of the picture and the size. The kernel of the Catmull-Rom filter takes
/// powers whose last bits may differ between machines, so nothing more is said of it.
/// The call needs the room for one picture as wide as the source and as high as the
/// result, at sixteen bytes per pixel. It works out positions in single precision: for
/// sides of many millions of pixels no pixel gets any weight, and it panics.
#[verifier::external_body]
fn resize_eight(img: &Bitmap, width: u32, height: u32, filter: Filter) -> (r: Vec<u8>)
    requires
        is_eight(img@),
        can_resample(img.width, width, height),
    ensures
        r@.len() == 4 * width * height,
        (width, height) == (img.width, img.height) ==> r@ == img.rgba@,
        filter == Filter::Triangle ==> r@ == resampled_eight(img@, width, height),
{
    let source = image::RgbaImage::from_raw(img.width, img.height, img.rgba.clone()).unwrap();
    let kind = match filter {
        Filter::CatmullRom => image::imageops::FilterType::CatmullRom,
        Filter::Triangle => image::imageops::FilterType::Triangle,
    };
    image::imageops::resize(&source, width, height, kind).into_raw()
}

/// `image::imageops::resize` on samples of sixteen bits: a picture of exactly the size
/// asked for, and a copy where that is the size of the source. With the triangle filter
/// the result is a function of the picture and the size; with the Catmull-Rom filter
/// nothing more is said of it, as its last bits may differ between machines. Memory and
/// sides are limited as they are for eight bits.
#[verifier::external_body]
fn resize_sixteen(img: &Bitmap, width: u32, height: u32, filter: Filter) -> (r: Vec<u8>)
    requires
        img.rgba@.len() == 8 * img.width * img.height,
        can_resample(img.width, width, height),
    ensures
        r@.len() == 8 * width * height,
        (width, height) == (img.width, img.height) ==> r@ == img.rgba@,
        filter == Filter::Triangle ==> r@ == resampled_sixteen(img@, width, height),
{
    let deep: Vec<u16> =
        img.rgba.chunks_exact(2).map(|b| u16::from_le_bytes([b[0], b[1]])).collect();
    let source =
        image::ImageBuffer::<image::Rgba<u16>, _>::from_raw(img.width, img.height, deep).unwrap();
    let kind = match filter {
        Filter::CatmullRom => image::imageops::FilterType::CatmullRom,
        Filter::Triangle => image::imageops::FilterType::Triangle,
    };
    let out = image::imageops::resize(&source, width, height, kind).into_raw();
    out.into_iter().flat_map(u16::to_le_bytes).collect()
}

/// Brings a picture to another size.
pub(crate) fn resize_exact(img: &Bitmap, width: u32, height: u32, filter: Filter) -> (r: Bitmap)
    requires
        img.wf(),
        can_resample(img.width, width, height),
    ensures
        r.width == width,
        r.height == height,
        is_resampled(img@, width, height, filter, r.rgba@),
        r.wf(),
{
    let rgba = if img.bytes_per_pixel() == 4 {
        resize_eight(img, width, height, filter)
    } else {
        resize_sixteen(img, width, height, filter)
    };
    Bitmap { width, height, rgba }
}

pub(crate) fn check_can_resample(src_width: u32, width: u32, height: u32) -> (r: bool)
    ensures
        r == can_resample(src_width, width, height),
{
    assert(16 * src_width * height <= 16 * 0xffff_ffff * 0xffff_ffff) by (nonlinear_arith)
        requires
            src_width <= 0xffff_ffff,
            height <= 0xffff_ffff,
    ;
    assert(16 * width * height <= 16 * 0xffff_ffff * 0xffff_ffff) by (nonlinear_arith)
        requires
            width <= 0xffff_ffff,
            height <= 0xffff_ffff,
    ;
    width <= MAX_SIDE && height <= MAX_SIDE && 16 * src_width as u128 * height as u128
        <= isize::MAX as u128 && 16 * width as u128 * height as u128 <= isize::MAX as u128
}

/// A sample of sixteen bits, the less significant byte first, is brought to the
/// nearest of eight bits, of which each step is 257 of its own; one of eight bits is
/// kept.
pub proof fn samples_are_brought_to_the_nearest(p: (u32, u32, Seq<u8>), i: int)
    requires
        is_picture(p),
        0 <= i < 4 * p.0 * p.1,
    ensures
        eight_bits(p).len() == 4 * p.0 * p.1,
        p.2.len() == 4 * p.0 * p.1 ==> eight_bits(p)[i] == p.2[i],
        p.2.len() == 8 * p.0 * p.1 && p.2.len() != 4 * p.0 * p.1 ==> {
            let sixteen = p.2[2 * i] + 256 * p.2[2 * i + 1];
            -128 <= 257 * eight_bits(p)[i] - sixteen <= 128
        },
{
}

} // verus!
