//! Decoding pictures to the size at which the viewer shows them.
use vstd::arithmetic::power2::{lemma2_to64, lemma_pow2_adds, pow2};
use vstd::prelude::*;

use crate::bitmap::{
    can_resample, check_can_resample, decoded_jpeg, is_eight, resampled, resize_exact, shallow,
    to_eight, Bitmap, Filter,
};
use crate::image_loader::{
    effective_orientation, exif_orientation, is_opened, open_embedded_jpeg_preview_with_rotation,
    open_image_with_rotation, preview_bytes, stored_dimensions, stored_picture,
    upright_dimensions, OpenError,
};
use crate::layout::justified::{lemma_one, lemma_product_is_shaped};
use crate::single::{
    lemma_units_of, magnitudes_are_ordered, nearest, nearest_is_nearest, of_whole,
    rounding_keeps_at_least, rounding_keeps_at_most, rounding_keeps_fractions, units,
    whole_is_exact, Single, ONE,
};

verus! {

/// The longer side of the preview that is shown at once.
pub const PREVIEW_SIZE: u32 = 512;

/// The number, or one in place of zero.
pub open spec fn some(n: u32) -> u32 {
    if n == 0 {
        1
    } else {
        n
    }
}

fn at_least_one(n: u32) -> (r: u32)
    ensures
        r == some(n),
{
    if n == 0 {
        1
    } else {
        n
    }
}

/// The scale at which the longer side of a picture has the given length.
pub open spec fn fit_scale(width: u32, height: u32, max_size: u32) -> Single {
    of_whole(max_size as nat).quotient(
        of_whole(
            if width > height {
                width as nat
            } else {
                height as nat
            },
        ),
    )
}

/// The size to which a picture is scaled down so that its longer side has at most
/// the given length; nothing where it is no longer than that.
pub open spec fn fitted(width: u32, height: u32, max_size: u32) -> Option<(u32, u32)> {
    let scale = fit_scale(width, height, max_size);
    if scale.less(Single { bits: ONE }) {
        Some(
            (
                some(of_whole(width as nat).product(scale).whole()),
                some(of_whole(height as nat).product(scale).whole()),
            ),
        )
    } else {
        None
    }
}

/// The size to which a picture is scaled down.
pub fn fit_within(width: u32, height: u32, max_size: u32) -> (r: Option<(u32, u32)>)
    ensures
        r == fitted(width, height, max_size),
{
    let longer: u32 = if width > height {
        width
    } else {
        height
    };
    let scale = Single::from_whole(max_size as u64).over(Single::from_whole(longer as u64));
    if scale.is_less(Single { bits: ONE }) {
        let w: u32 = Single::from_whole(width as u64).times(scale).to_whole();
        let h: u32 = Single::from_whole(height as u64).times(scale).to_whole();
        Some((at_least_one(w), at_least_one(h)))
    } else {
        None
    }
}

/// Whether a picture can be scaled down: memory permitting, and not to too long a side.
pub open spec fn can_fit(picture: (u32, u32, Seq<u8>), max_size: u32) -> bool {
    match fitted(picture.0, picture.1, max_size) {
        Some((w, h)) => can_resample(picture.0, w, h),
        None => true,
    }
}

/// A picture scaled down so that its longer side has at most the given length.
pub open spec fn scaled_down(picture: (u32, u32, Seq<u8>), max_size: u32) -> (u32, u32, Seq<u8>) {
    match fitted(picture.0, picture.1, max_size) {
        Some((w, h)) => (w, h, resampled(picture, w, h)),
        None => picture,
    }
}

/// Scales a picture down.
pub fn scale_down(img: Bitmap, max_size: u32) -> (r: Option<Bitmap>)
    requires
        img.wf(),
    ensures
        match r {
            Some(out) => can_fit(img@, max_size) && out@ == scaled_down(img@, max_size)
                && out.wf(),
            None => !can_fit(img@, max_size),
        },
{
    match fit_within(img.width, img.height, max_size) {
        Some((w, h)) => {
            if !check_can_resample(img.width, w, h) {
                return None;
            }
            Some(resize_exact(&img, w, h, Filter::Triangle))
        },
        None => Some(img),
    }
}

/// A picture that was decoded to be shown.
#[derive(Debug)]
pub struct Decoded {
    pub picture: Bitmap,
    /// The size of the whole picture.
    pub orig_width: u32,
    pub orig_height: u32,
    /// Whether it is the small picture that is embedded in the file.
    pub embedded: bool,
}

/// Whether `out` is the embedded picture of a file, upright and turned, and the
/// size is that of the whole picture.
pub open spec fn is_embedded(
    head: Seq<u8>,
    bytes: Seq<u8>,
    rotation: int,
    out: Bitmap,
    width: u32,
    height: u32,
) -> bool {
    &&& preview_bytes(head) is Some
    &&& exists|img: Bitmap|
        {
            &&& img.wf()
            &&& decoded_jpeg(preview_bytes(head)->0) == Some(#[trigger] img@)
            &&& is_opened(effective_orientation(head), rotation, img, out)
        }
    &&& stored_dimensions(bytes) matches Ok(dims) && (width, height) == upright_dimensions(
        dims,
        exif_orientation(head),
    )
}

/// Whether a file has no embedded picture that can be used.
pub open spec fn no_embedded(head: Seq<u8>, bytes: Seq<u8>) -> bool {
    preview_bytes(head) is None || decoded_jpeg(preview_bytes(head)->0) is None
        || stored_dimensions(bytes) is Err
}

/// Whether `out` is the picture of a file, upright and turned.
pub open spec fn is_whole(bytes: Seq<u8>, rotation: int, out: Bitmap) -> bool {
    exists|img: Bitmap|
        {
            &&& img.wf()
            &&& stored_picture(bytes) == Ok::<_, OpenError>(#[trigger] img@)
            &&& is_opened(effective_orientation(bytes), rotation, img, out)
        }
}

/// Whether `d` is made of the picture `out`: the embedded one of a file or, where it
/// has none, the whole one, scaled down.
pub open spec fn is_decoded(
    head: Seq<u8>,
    bytes: Seq<u8>,
    max_size: u32,
    rotation: int,
    out: Bitmap,
    d: Decoded,
) -> bool {
    &&& d.picture@ == scaled_down(out@, max_size)
    &&& if d.embedded {
        is_embedded(head, bytes, rotation, out, d.orig_width, d.orig_height)
    } else {
        no_embedded(head, bytes) && is_whole(bytes, rotation, out) && d.orig_width == out.width
            && d.orig_height == out.height
    }
}

/// Why a file gives no picture scaled down: it does not decode, or cannot be
/// scaled.
pub open spec fn is_undecodable(
    head: Seq<u8>,
    bytes: Seq<u8>,
    max_size: u32,
    rotation: int,
) -> bool {
    ||| no_embedded(head, bytes) && stored_picture(bytes) is Err
    ||| exists|out: Bitmap|
        !can_fit(out@, max_size) && (no_embedded(head, bytes) && #[trigger] is_whole(
            bytes,
            rotation,
            out,
        ))
    ||| exists|out: Bitmap, width: u32, height: u32|
        !can_fit(out@, max_size) && #[trigger] is_embedded(
            head,
            bytes,
            rotation,
            out,
            width,
            height,
        )
}

/// Decodes a file so that the longer side has at most the given length: the
/// embedded picture where there is one, else the picture itself, at its own number of
/// bits. `head` is the first part of the file and `bytes` all of it.
pub fn decode_image_downscaled(head: &[u8], bytes: &[u8], max_size: u32, extra_rotation_cw: u8) -> (
    r: Option<Decoded>)
    ensures
        match r {
            Some(d) => {
                &&& d.picture.wf()
                &&& exists|out: Bitmap|
                    #[trigger] is_decoded(
                        head@,
                        bytes@,
                        max_size,
                        extra_rotation_cw as int,
                        out,
                        d,
                    )
            },
            None => is_undecodable(head@, bytes@, max_size, extra_rotation_cw as int),
        },
{
    if let Some((img, orig_width, orig_height)) = open_embedded_jpeg_preview_with_rotation(
        head,
        bytes,
        extra_rotation_cw,
    ) {
        assert(is_embedded(
            head@,
            bytes@,
            extra_rotation_cw as int,
            img,
            orig_width,
            orig_height,
        ));
        let ghost shown = img;
        let picture = match scale_down(img, max_size) {
            Some(picture) => picture,
            None => return None,
        };
        let d = Decoded { picture, orig_width, orig_height, embedded: true };
        assert(is_decoded(head@, bytes@, max_size, extra_rotation_cw as int, shown, d));
        return Some(d);
    }
    let img = match open_image_with_rotation(bytes, extra_rotation_cw) {
        Ok(img) => img,
        Err(_) => return None,
    };
    assert(is_whole(bytes@, extra_rotation_cw as int, img));
    let ghost shown = img;
    let orig_width: u32 = img.width;
    let orig_height: u32 = img.height;
    let picture = match scale_down(img, max_size) {
        Some(picture) => picture,
        None => return None,
    };
    let d = Decoded { picture, orig_width, orig_height, embedded: false };
    assert(is_decoded(head@, bytes@, max_size, extra_rotation_cw as int, shown, d));
    Some(d)
}

/// Whether `d` is what was decoded, brought to eight bits.
pub open spec fn is_shown(decoded: Decoded, d: Decoded) -> bool {
    &&& d.picture@ == shallow(decoded.picture@)
    &&& d.orig_width == decoded.orig_width
    &&& d.orig_height == decoded.orig_height
    &&& d.embedded == decoded.embedded
}

/// Decodes a file to be shown so that the longer side has at most the given length.
/// `head` is the first part of the file and `bytes` all of it.
pub fn decode_image_viewport(head: &[u8], bytes: &[u8], max_size: u32, extra_rotation_cw: u8) -> (r:
    Option<Decoded>)
    ensures
        match r {
            Some(d) => {
                &&& d.picture.wf() && is_eight(d.picture@)
                &&& exists|out: Bitmap, decoded: Decoded|
                    #[trigger] is_decoded(
                        head@,
                        bytes@,
                        max_size,
                        extra_rotation_cw as int,
                        out,
                        decoded,
                    ) && is_shown(decoded, d)
            },
            None => is_undecodable(head@, bytes@, max_size, extra_rotation_cw as int),
        },
{
    match decode_image_downscaled(head, bytes, max_size, extra_rotation_cw) {
        Some(decoded) => {
            let ghost whole = decoded;
            let ghost out = choose|out: Bitmap|
                #[trigger] is_decoded(
                    head@,
                    bytes@,
                    max_size,
                    extra_rotation_cw as int,
                    out,
                    decoded,
                );
            let d = Decoded {
                picture: to_eight(decoded.picture),
                orig_width: decoded.orig_width,
                orig_height: decoded.orig_height,
                embedded: decoded.embedded,
            };
            assert(is_decoded(head@, bytes@, max_size, extra_rotation_cw as int, out, whole)
                && is_shown(whole, d));
            Some(d)
        },
        None => None,
    }
}

/// Decodes a file at its full size, to be shown.
pub fn decode_image_full(bytes: &[u8], extra_rotation_cw: u8) -> (r: Option<Decoded>)
    ensures
        match r {
            Some(d) => {
                &&& d.picture.wf() && is_eight(d.picture@)
                &&& !d.embedded
                &&& exists|out: Bitmap|
                    #[trigger] is_whole(bytes@, extra_rotation_cw as int, out) && d.picture@
                        == shallow(out@)
                &&& d.orig_width == some(d.picture.width)
                &&& d.orig_height == some(d.picture.height)
            },
            None => stored_picture(bytes@) is Err,
        },
{
    match open_image_with_rotation(bytes, extra_rotation_cw) {
        Ok(img) => {
            assert(is_whole(bytes@, extra_rotation_cw as int, img));
            let orig_width: u32 = at_least_one(img.width);
            let orig_height: u32 = at_least_one(img.height);
            Some(Decoded { picture: to_eight(img), orig_width, orig_height, embedded: false })
        },
        Err(_) => None,
    }
}

/// The scale at which a picture fits is rounded from the ratio of the length that is
/// asked for to that of its longer side.
pub(crate) proof fn lemma_fit_ratio(longer: u32, max_size: u32)
    requires
        0 < longer < 0x100_0000,
        0 < max_size < 0x100_0000,
    ensures
        ({
            let scale = of_whole(max_size as nat).quotient(of_whole(longer as nat));
            &&& !scale.negative() && !scale.nan() && !scale.infinite()
            &&& scale.magnitude() == nearest(max_size as nat * pow2(149), longer as nat)
            &&& scale.less(Single { bits: ONE }) <==> max_size < longer
        }),
{
    let u = pow2(149);
    let p = max_size as nat;
    let q = longer as nat;
    lemma_one();
    whole_is_exact(p);
    whole_is_exact(q);
    let num = (p * u) * u;
    let den = q * u;
    assert(den > 0) by (nonlinear_arith)
        requires
            den == q * u,
            q > 0,
            u > 0,
    ;
    assert(num * q == (p * u) * den) by (nonlinear_arith)
        requires
            num == (p * u) * u,
            den == q * u,
    ;
    rounding_keeps_fractions(num, den, p * u, q);
    rounding_keeps_fractions(p * u, q, num, den);
    nearest_is_nearest(num, den);
    let m = nearest(p * u, q);
    lemma2_to64();
    lemma_pow2_adds(149, 24);
    lemma_units_of(150, 0x80_0000);
    lemma_pow2_adds(150, 23);
    let top = 151 * 0x80_0000int;
    assert(units(top) == pow2(173)) by (nonlinear_arith)
        requires
            units(top) == 0x80_0000 * pow2(150),
            pow2(173) == pow2(150) * 0x80_0000,
    ;
    assert(p * u <= pow2(173) * q) by (nonlinear_arith)
        requires
            pow2(173) == u * 0x100_0000,
            p < 0x100_0000,
            q >= 1,
    ;
    rounding_keeps_at_most(top, p * u, q);
    if max_size < longer {
        // The number before one is one less its `2^24`th part.
        lemma_units_of(125, 0xff_ffff);
        lemma_pow2_adds(125, 24);
        let g = pow2(125);
        assert(p * u <= (0xff_ffff * g) * q) by (nonlinear_arith)
            requires
                u == g * 0x100_0000,
                p + 1 <= q,
                q < 0x100_0000,
        {
            assert(0x100_0000 * p <= 0xff_ffff * q);
            assert(p * (g * 0x100_0000) == (0x100_0000 * p) * g);
        }
        rounding_keeps_at_most(0x3f7f_ffff, p * u, q);
        magnitudes_are_ordered(m, ONE as int);
    } else {
        assert(u * q <= p * u) by (nonlinear_arith)
            requires
                q <= p,
        ;
        rounding_keeps_at_least(ONE as int, p * u, q);
        if ONE < m {
            magnitudes_are_ordered(ONE as int, m);
        }
    }
}

/// A side at the scale that is rounded from `p` to `q`: before it is made whole, it is
/// less than a 256th of a pixel from its proportion.
pub(crate) proof fn lemma_scaled_side(side: u32, scale: Single, p: nat, q: nat)
    requires
        0 < side <= q,
        0 < p <= 8192,
        q < 0x100_0000,
        !scale.negative() && !scale.nan(),
        scale.magnitude() == nearest(p * pow2(149), q),
    ensures
        ({
            let b = of_whole(side as nat).product(scale);
            let u = pow2(149);
            &&& !b.nan() && !b.negative() && !b.infinite()
            &&& 256 * (b.size() * q) <= 256 * ((side * p) * u) + q * u
            &&& 256 * ((side * p) * u) <= 256 * (b.size() * q) + q * u
        }),
{
    let u = pow2(149);
    lemma_one();
    lemma2_to64();
    lemma_pow2_adds(149, 24);
    let n = side as nat;
    whole_is_exact(n);
    assert(u <= n * u <= 0x100_0000 * u) by (nonlinear_arith)
        requires
            1 <= n < 0x100_0000,
            u > 0,
    ;
    lemma_product_is_shaped(of_whole(n), scale, p, q);
    let bq = of_whole(n).product(scale).size() * q;
    let h = (n * u) * p;
    let x = (side * p) * u;
    assert(h == x) by (nonlinear_arith)
        requires
            h == (n * u) * p,
            x == (n * p) * u,
    ;
    let qu = q * u;
    assert(x <= 8192 * qu) by (nonlinear_arith)
        requires
            x == (n * p) * u,
            n <= q,
            p <= 8192,
            qu == q * u,
    {
        assert(n * p <= q * 8192);
        assert((n * p) * u <= (q * 8192) * u);
    }
    assert(0x40_0000 * (bq - x) <= bq && 0x40_0000 * (x - bq) <= bq);
}

proof fn lemma_whole_side(b: nat, u: nat, n: nat, x: nat, q: nat)
    requires
        u > 0 && q > 0,
        n == b / u,
        256 * (b * q) <= 256 * (x * u) + q * u,
        256 * (x * u) <= 256 * (b * q) + q * u,
    ensures
        256 * (n * q - x) <= q,
        256 * (x - n * q) < 257 * q,
{
    let rest = b % u;
    assert(b == n * u + rest && rest < u) by (nonlinear_arith)
        requires
            n == b / u,
            rest == b % u,
            u > 0,
    ;
    assert(b * q == (n * q) * u + rest * q) by (nonlinear_arith)
        requires
            b == n * u + rest,
    ;
    assert(0 <= rest * q < u * q) by (nonlinear_arith)
        requires
            0 <= rest < u,
            q > 0,
    ;
    let nq = n * q;
    assert(u * q == q * u) by (nonlinear_arith);
    assert(256 * (nq - x) <= q) by (nonlinear_arith)
        requires
            256 * (nq * u) <= 256 * (x * u) + q * u,
            u > 0,
    ;
    assert(256 * (x - nq) < 257 * q) by (nonlinear_arith)
        requires
            256 * (x * u) < 256 * (nq * u) + 257 * (q * u),
            u > 0,
    ;
}

/// A picture is scaled down just where its longer side is longer than asked for. Its
/// sides are then those of the picture times what is asked for over the longer side,
/// without their fraction, but at least one; rounding takes them no further than a 256th
/// of a pixel from there.
pub proof fn scaled_pictures_keep_their_shape(width: u32, height: u32, max_size: u32)
    requires
        0 < width < 0x100_0000 && 0 < height < 0x100_0000,
        0 < max_size <= 8192,
    ensures
        ({
            let longer = if width > height {
                width
            } else {
                height
            };
            match fitted(width, height, max_size) {
                None => longer <= max_size,
                Some((w, h)) => {
                    &&& longer > max_size
                    &&& w == 1 || 256 * (w * longer - width * max_size) <= longer
                    &&& h == 1 || 256 * (h * longer - height * max_size) <= longer
                    &&& 256 * (width * max_size - w * longer) < 257 * longer
                    &&& 256 * (height * max_size - h * longer) < 257 * longer
                    &&& w >= 1 && h >= 1
                },
            }
        }),
{
    let longer = if width > height {
        width
    } else {
        height
    };
    let u = pow2(149);
    lemma_one();
    lemma_fit_ratio(longer, max_size);
    let scale = fit_scale(width, height, max_size);
    if longer > max_size {
        let q = longer as nat;
        lemma_scaled_side(width, scale, max_size as nat, q);
        lemma_scaled_side(height, scale, max_size as nat, q);
        let a = of_whole(width as nat).product(scale);
        let b = of_whole(height as nat).product(scale);
        let (m, n) = (a.size() / u, b.size() / u);
        lemma_whole_side(a.size(), u, m, (width * max_size) as nat, q);
        lemma_whole_side(b.size(), u, n, (height * max_size) as nat, q);
        assert(width * max_size <= q * max_size && height * max_size <= q * max_size)
            by (nonlinear_arith)
            requires
                width <= q,
                height <= q,
        ;
        assert(q * max_size <= q * 8192) by (nonlinear_arith)
            requires
                max_size <= 8192,
        ;
        lemma_side_is_small(m, q, (width * max_size) as nat);
        lemma_side_is_small(n, q, (height * max_size) as nat);
        assert(a.whole() == m && b.whole() == n) by {
            lemma_few(m, q);
            lemma_few(n, q);
        }
        if m == 0 {
            assert(m * q == 0 && 1 * q == q) by (nonlinear_arith)
                requires
                    m == 0,
            ;
        }
        if n == 0 {
            assert(n * q == 0 && 1 * q == q) by (nonlinear_arith)
                requires
                    n == 0,
            ;
        }
    }
}

proof fn lemma_side_is_small(n: nat, q: nat, x: nat)
    requires
        256 * (n * q - x) <= q,
        x <= q * 8192,
    ensures
        n * q <= 8193 * q,
{
}

pub(crate) proof fn lemma_few(n: nat, q: nat)
    requires
        q > 0,
        n * q <= 8193 * q,
    ensures
        n <= 8193,
{
    assert(n <= 8193) by (nonlinear_arith)
        requires
            q > 0,
            n * q <= 8193 * q,
    ;
}

/// A picture that is decoded tells the size of what it was made from: of the upright picture,
/// or, where it was made from a preview in the file, of the stored picture, its sides
/// exchanged where it lies on its side. It is itself no larger than was asked for.
pub proof fn decoded_picture_tells_its_size(
    head: Seq<u8>,
    bytes: Seq<u8>,
    max_size: u32,
    rotation: int,
    out: Bitmap,
    d: Decoded,
)
    requires
        is_decoded(head, bytes, max_size, rotation, out, d),
    ensures
        !d.embedded ==> d.orig_width == out.width && d.orig_height == out.height,
        d.embedded ==> {
            &&& preview_bytes(head) is Some
            &&& stored_dimensions(bytes) is Ok
            &&& ({
                let dims = stored_dimensions(bytes)->Ok_0;
                let sideways = exif_orientation(head) matches Some(o) && 5 <= o <= 8;
                if sideways {
                    d.orig_width == dims.1 && d.orig_height == dims.0
                } else {
                    d.orig_width == dims.0 && d.orig_height == dims.1
                }
            })
        },
        fitted(out.width, out.height, max_size) matches Some(size) ==> d.picture.width == size.0
            && d.picture.height == size.1,
        fitted(out.width, out.height, max_size) is None ==> d.picture.width == out.width
            && d.picture.height == out.height,
{
}

} // verus!
