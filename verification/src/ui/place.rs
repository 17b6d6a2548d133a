//! Where a picture lies on the screen: in the middle of its room, and moved from
//! there the way that it is dragged.
use vstd::arithmetic::power2::{
    lemma2_to64, lemma2_to64_rest, lemma_pow2_adds, lemma_pow2_pos, pow2,
};
use vstd::prelude::*;

use crate::double::{
    bounds_are_kept, larger_and_smaller, lemma_units_of, lemma_within_is_finite,
    magnitudes_are_ordered, nearest, nearest_is_nearest, of_whole, product_is_within,
    rounding_keeps_order, sum_is_within, units, whole_is_exact, whole_is_within, Double, ONE, TWO,
    ZERO,
};
use crate::precision::{distance, product_is_near, quotient_is_near, sum_is_near};
use crate::ui::anchor::{lemma_scale_range, point_under_pointer_stays};
use crate::ui::viewer::{viewport, MediaViewer};
use crate::ui::zoom::{
    anchor_of, anchored, at_scale, bounded, centered, is_along, is_bounded, is_far, is_placed,
    is_same_scale, is_scaled, is_step, pixels, placing, scaled, PictureView, Placement, MAX_SCALE,
    MIN_SCALE, SAME_PLACE, SAME_SCALE, SCROLL_DEADZONE, SCROLL_MAX_STEPS, SCROLL_STEP_UNIT,
};

verus! {

proof fn lemma_powers()
    ensures
        pow2(1055) > 0,
        pow2(1056) == 2 * pow2(1055),
        pow2(1057) == 4 * pow2(1055),
        pow2(1058) == 8 * pow2(1055),
        pow2(1059) == 16 * pow2(1055),
        pow2(1061) == 64 * pow2(1055),
        pow2(1074) == 0x8_0000 * pow2(1055),
        pow2(1074 + 31) == 0x4_0000_0000_0000 * pow2(1055),
        pow2(1074 + 32) == 0x8_0000_0000_0000 * pow2(1055),
        pow2(1074 + 36) == 0x80_0000_0000_0000 * pow2(1055),
        pow2(1074 + 37) == 0x100_0000_0000_0000 * pow2(1055),
        pow2(1074 + 38) == 0x200_0000_0000_0000 * pow2(1055),
        pow2(1074 + 39) == 0x400_0000_0000_0000 * pow2(1055),
{
    lemma2_to64();
    lemma2_to64_rest();
    lemma_pow2_pos(1055);
    lemma_pow2_adds(1055, 1);
    lemma_pow2_adds(1055, 2);
    lemma_pow2_adds(1055, 3);
    lemma_pow2_adds(1055, 4);
    lemma_pow2_adds(1055, 6);
    lemma_pow2_adds(1055, 19);
    lemma_pow2_adds(1055, 50);
    lemma_pow2_adds(1055, 51);
    lemma_pow2_adds(1055, 55);
    lemma_pow2_adds(1055, 56);
    lemma_pow2_adds(1055, 57);
    lemma_pow2_adds(1055, 58);
}

/// Whether `x` is where a side of the picture begins that lies in the middle of the
/// given room and is moved from there by `pan`: twice `x` is twice the start of the
/// room, and what the scaled side leaves of the room, and twice the pan. Rounding
/// takes it no further than a four thousandth of a pixel from there.
pub open spec fn lies_at(
    x: Double,
    start: int,
    room: int,
    side: u32,
    scale: Double,
    pan: Double,
) -> bool {
    distance(
        2 * x.value(),
        (2 * start + room) * pow2(1074) - side * scale.value() + 2 * pan.value(),
    ) <= pow2(1061)
}

proof fn lemma_scaled(side: u32, scale: Double)
    requires
        is_bounded(scale),
    ensures
        scaled(side, scale).within(36),
        !scaled(side, scale).negative() && !scaled(side, scale).infinite(),
        distance(scaled(side, scale).value(), side * scale.value()) <= pow2(1056),
        0 <= side * scale.value() <= pow2(1074 + 36),
{
    let u = pow2(1074);
    lemma_pow2_pos(1074);
    lemma_powers();
    lemma2_to64();
    lemma_scale_range(scale);
    whole_is_exact(side as nat);
    whole_is_within(side as nat, 32);
    product_is_within(of_whole(side as nat), scale, 32, 4);
    product_is_near(of_whole(side as nat), scale, 32, 4);
    let s = of_whole(side as nat).value();
    let p = scaled(side, scale).value();
    let v = scale.value();
    let n = side as int;
    let e = pow2(1056) as int;
    assert(s == n * u);
    assert(s * v == (n * v) * u) by (nonlinear_arith)
        requires
            s == n * u,
    ;
    assert(distance(p * u, (n * v) * u) <= e * u);
    assert(p - n * v <= e) by (nonlinear_arith)
        requires
            p * u - (n * v) * u <= e * u,
            u > 0,
    ;
    assert(n * v - p <= e) by (nonlinear_arith)
        requires
            (n * v) * u - p * u <= e * u,
            u > 0,
    ;
    lemma_pow2_adds(1074 + 4, 32);
    let top = pow2(1074 + 4);
    assert(0 <= n * v <= 0x1_0000_0000 * top) by (nonlinear_arith)
        requires
            0 <= n <= 0x1_0000_0000,
            0 <= v <= top,
    ;
}

/// How a length that is centred in a room lies there.
proof fn lemma_centered(start: int, room: int, side: u32, scale: Double)
    requires
        0 <= start <= i32::MAX,
        0 <= room <= i32::MAX,
        is_bounded(scale),
    ensures
        centered(start, room, scaled(side, scale)).within(38),
        !centered(start, room, scaled(side, scale)).infinite(),
        distance(
            2 * centered(start, room, scaled(side, scale)).value(),
            (2 * start + room) * pow2(1074) - side * scale.value(),
        ) <= 30 * pow2(1055),
{
    let t = pow2(1055) as int;
    let u = pow2(1074) as int;
    lemma_powers();
    lemma_scaled(side, scale);
    let length = scaled(side, scale);
    let back = length.opposite();
    assert(back.value() == -length.value());
    whole_is_exact(room as nat);
    whole_is_exact(start as nat);
    assert(0 <= room * u <= 0x8000_0000 * u) by (nonlinear_arith)
        requires
            0 <= room <= 0x8000_0000,
            u > 0,
    ;
    assert(0 <= start * u <= 0x8000_0000 * u) by (nonlinear_arith)
        requires
            0 <= start <= 0x8000_0000,
            u > 0,
    ;
    sum_is_near(of_whole(room as nat), back, 37);
    let gap = of_whole(room as nat).sum(back);
    lemma_within_is_finite(gap, 37);
    let two = Double { bits: TWO };
    assert(two.size() == 2 * u) by {
        crate::double::lemma_power_magnitude(1);
        lemma_pow2_adds(1074, 1);
        lemma2_to64();
    }
    quotient_is_near(gap, two, 37, 0);
    let half = gap.quotient(two);
    let h = half.value();
    let g = gap.value();
    assert(distance(h * (2 * u), g * u) <= (4 * t) * (2 * u));
    assert(2 * h - g <= 8 * t) by (nonlinear_arith)
        requires
            h * (2 * u) - g * u <= (4 * t) * (2 * u),
            u > 0,
    ;
    assert(g - 2 * h <= 8 * t) by (nonlinear_arith)
        requires
            g * u - h * (2 * u) <= (4 * t) * (2 * u),
            u > 0,
    ;
    sum_is_near(of_whole(start as nat), half, 38);
    assert((2 * start + room) * u == 2 * (start * u) + room * u) by (nonlinear_arith);
}

/// Where a side of the picture lies.
proof fn lemma_lies_at(start: int, room: int, side: u32, scale: Double, pan: Double)
    requires
        0 <= start <= i32::MAX,
        0 <= room <= i32::MAX,
        is_bounded(scale),
        pan.within(31),
    ensures
        lies_at(
            centered(start, room, scaled(side, scale)).sum(pan),
            start,
            room,
            side,
            scale,
            pan,
        ),
{
    lemma_powers();
    lemma_centered(start, room, side, scale);
    lemma_within_is_finite(pan, 31);
    sum_is_near(centered(start, room, scaled(side, scale)), pan, 39);
}

/// A picture is put in the middle of the window below the bar of sixty pixels, and
/// moved from there to the right by its pan across and down by its pan down, to a
/// four thousandth of a pixel.
pub proof fn picture_lies_in_the_middle_and_panned(viewer: MediaViewer, full_w: i32, full_h: i32)
    requires
        !viewer.is_video,
        full_w > 0,
        full_h > 0,
        is_bounded(viewer.view.scale),
        viewer.view.pan_x.within(31) && viewer.view.pan_y.within(31),
    ensures
        placing(viewer, full_w, full_h).1 matches Some((x, y)) ==> {
            &&& lies_at(
                x,
                0,
                full_w as int,
                viewer.image_width,
                viewer.view.scale,
                viewer.view.pan_x,
            )
            &&& lies_at(
                y,
                60,
                if full_h > 61 {
                    full_h - 60
                } else {
                    1
                },
                viewer.image_height,
                viewer.view.scale,
                viewer.view.pan_y,
            )
        },
        viewer.view.last_x.nan() ==> placing(viewer, full_w, full_h).1 is Some,
{
    let v = viewer.view;
    lemma_lies_at(0, full_w as int, viewer.image_width, v.scale, v.pan_x);
    lemma_lies_at(
        60,
        if full_h > 61 {
            full_h - 60
        } else {
            1
        },
        viewer.image_height,
        v.scale,
        v.pan_y,
    );
}

proof fn lemma_sum_keeps_order(a: Double, p: Double, q: Double)
    requires
        a.within(38) && p.within(31) && q.within(31),
        p.value() <= q.value(),
    ensures
        a.sum(p).value() <= a.sum(q).value(),
{
    lemma_within_is_finite(a, 38);
    lemma_within_is_finite(p, 31);
    lemma_within_is_finite(q, 31);
    let v = a.value() + p.value();
    let w = a.value() + q.value();
    lemma_powers();
    sum_is_near(a, p, 39);
    sum_is_near(a, q, 39);
    if v > 0 {
        rounding_keeps_order(v as nat, w as nat, 1);
        nearest_is_nearest(v as nat, 1);
        nearest_is_nearest(w as nat, 1);
        if nearest(v as nat, 1) < nearest(w as nat, 1) {
            magnitudes_are_ordered(nearest(v as nat, 1), nearest(w as nat, 1));
        }
    } else if w < 0 {
        rounding_keeps_order((-w) as nat, (-v) as nat, 1);
        nearest_is_nearest((-v) as nat, 1);
        nearest_is_nearest((-w) as nat, 1);
        if nearest((-w) as nat, 1) < nearest((-v) as nat, 1) {
            magnitudes_are_ordered(nearest((-w) as nat, 1), nearest((-v) as nat, 1));
        }
    } else {
        assert(units(0) == 0);
        if v < 0 {
            nearest_is_nearest((-v) as nat, 1);
        }
        if w > 0 {
            nearest_is_nearest(w as nat, 1);
        }
    }
}

/// A picture that is panned further to the right lies no further to the left, and
/// one that is panned further down lies no further up; it is moved by as much as the
/// pan differs, to a two thousandth of a pixel.
pub proof fn panning_moves_the_picture(
    viewer: MediaViewer,
    pan_x: Double,
    pan_y: Double,
    full_w: i32,
    full_h: i32,
)
    requires
        !viewer.is_video,
        full_w > 0,
        full_h > 0,
        is_bounded(viewer.view.scale),
        viewer.view.last_x.nan(),
        viewer.view.pan_x.within(31) && viewer.view.pan_y.within(31),
        pan_x.within(31) && pan_y.within(31),
    ensures
        ({
            let panned = MediaViewer { view: PictureView { pan_x, pan_y, ..viewer.view }, ..viewer };
            let from = placing(viewer, full_w, full_h).1;
            let to = placing(panned, full_w, full_h).1;
            &&& from is Some && to is Some
            &&& viewer.view.pan_x.value() <= pan_x.value() ==> (from->0).0.value() <= (to->0).0.value()
            &&& pan_x.value() <= viewer.view.pan_x.value() ==> (to->0).0.value() <= (from->0).0.value()
            &&& viewer.view.pan_y.value() <= pan_y.value() ==> (from->0).1.value() <= (to->0).1.value()
            &&& pan_y.value() <= viewer.view.pan_y.value() ==> (to->0).1.value() <= (from->0).1.value()
            &&& distance(
                (to->0).0.value() - (from->0).0.value(),
                pan_x.value() - viewer.view.pan_x.value(),
            ) <= pow2(1061)
            &&& distance(
                (to->0).1.value() - (from->0).1.value(),
                pan_y.value() - viewer.view.pan_y.value(),
            ) <= pow2(1061)
        }),
{
    let v = viewer.view;
    let panned = MediaViewer { view: PictureView { pan_x, pan_y, ..v }, ..viewer };
    let room_h = if full_h > 61 {
        full_h - 60
    } else {
        1
    };
    picture_lies_in_the_middle_and_panned(viewer, full_w, full_h);
    picture_lies_in_the_middle_and_panned(panned, full_w, full_h);
    let across = centered(0, full_w as int, scaled(viewer.image_width, v.scale));
    let down = centered(60, room_h, scaled(viewer.image_height, v.scale));
    lemma_centered(0, full_w as int, viewer.image_width, v.scale);
    lemma_centered(60, room_h, viewer.image_height, v.scale);
    if v.pan_x.value() <= pan_x.value() {
        lemma_sum_keeps_order(across, v.pan_x, pan_x);
    }
    if pan_x.value() <= v.pan_x.value() {
        lemma_sum_keeps_order(across, pan_x, v.pan_x);
    }
    if v.pan_y.value() <= pan_y.value() {
        lemma_sum_keeps_order(down, v.pan_y, pan_y);
    }
    if pan_y.value() <= v.pan_y.value() {
        lemma_sum_keeps_order(down, pan_y, v.pan_y);
    }
}

/// What lies under the pointer stays there on the screen: where the picture is put
/// before and after it is scaled around a pointer that is on it, the same point of
/// the picture lies under the pointer, to `2^(k - 36)` pixels for a picture and a
/// window of up to `2^k` pixels.
pub proof fn point_stays_on_the_screen(
    viewer: MediaViewer,
    pointer_x: Double,
    pointer_y: Double,
    scale: Double,
    full_w: i32,
    full_h: i32,
    k: nat,
)
    requires
        !viewer.is_video,
        full_w > 0,
        full_h > 0,
        1 <= k <= 32,
        full_w <= pow2(k + 4) && full_h <= pow2(k + 4),
        viewer.image_width <= pow2(k) && viewer.image_height <= pow2(k),
        is_bounded(viewer.view.scale),
        is_bounded(scale),
        viewer.view.last_x.nan(),
        viewer.view.pan_x.within(k + 6) && viewer.view.pan_y.within(k + 6),
        !pointer_x.nan() && !pointer_y.nan(),
        placing(viewer, full_w, full_h).1 matches Some((x, y)) ==> is_along(
            pointer_x,
            x,
            scaled(viewer.image_width, viewer.view.scale),
        ) && is_along(pointer_y, y, scaled(viewer.image_height, viewer.view.scale)),
    ensures
        ({
            let after = at_scale(
                anchored(viewer, pointer_x, pointer_y, scale, viewport(full_w, full_h)->0),
                scale,
                true,
            );
            let from = placing(viewer, full_w, full_h).1;
            let to = placing(after, full_w, full_h).1;
            let s = viewer.view.scale.value();
            let (px, py) = (pointer_x.value(), pointer_y.value());
            &&& from is Some && to is Some
            &&& distance(
                (to->0).0.value() * s + (px - (from->0).0.value()) * scale.value(),
                px * s,
            ) <= pow2(1038 + k) * s
            &&& distance(
                (to->0).1.value() * s + (py - (from->0).1.value()) * scale.value(),
                py * s,
            ) <= pow2(1038 + k) * s
        }),
{
    let v = viewer.view;
    let room_h = if full_h > 61 {
        full_h - 60
    } else {
        1
    };
    assert(bounded(scale) == scale);
    assert(60 <= pow2(k + 5)) by {
        lemma2_to64();
        lemma_pow2_adds(6, (k - 1) as nat);
        lemma_pow2_pos((k - 1) as nat);
        assert(64 * pow2((k - 1) as nat) >= 64) by (nonlinear_arith)
            requires
                pow2((k - 1) as nat) >= 1,
        ;
    }
    lemma_pow2_pos(k + 5);
    point_under_pointer_stays(
        0,
        full_w as int,
        viewer.image_width,
        v.scale,
        scale,
        v.pan_x,
        pointer_x,
        true,
        k,
    );
    point_under_pointer_stays(
        60,
        room_h,
        viewer.image_height,
        v.scale,
        scale,
        v.pan_y,
        pointer_y,
        true,
        k,
    );
}

/// A side of the picture is asked for at its own number of pixels times the scale,
/// to the nearest pixel.
pub proof fn picture_has_the_size_of_its_scale(side: u32, scale: Double)
    requires
        is_bounded(scale),
        side * scale.value() <= 0x7fff_ffff * pow2(1074),
    ensures
        distance(
            2 * (pixels(scaled(side, scale)) * pow2(1074)),
            2 * (side * scale.value()),
        ) <= pow2(1074) + pow2(1057),
{
    let u = pow2(1074);
    lemma_powers();
    lemma_scaled(side, scale);
    let length = scaled(side, scale).size();
    let n = (2 * length + u) / (2 * u);
    let rest = (2 * length + u) % (2 * u);
    assert(2 * length + u == n * (2 * u) + rest && rest < 2 * u) by (nonlinear_arith)
        requires
            n == (2 * length + u) / (2 * u),
            rest == (2 * length + u) % (2 * u),
            u > 0,
    ;
    assert(n * (2 * u) == 2 * (n * u)) by (nonlinear_arith);
    if n > 0x7fff_ffff {
        assert(n * u >= 0x8000_0000 * u) by (nonlinear_arith)
            requires
                n >= 0x8000_0000,
        ;
    }
}

/// The scale in percent is a hundred times the scale, without its fraction.
pub proof fn percent_is_a_hundred_times_the_scale(scale: Double)
    requires
        is_bounded(scale),
    ensures
        ({
            let percent = scale.product(Double { bits: crate::ui::zoom::HUNDRED }).whole();
            &&& percent * pow2(1074) <= 100 * scale.value() + pow2(1034)
            &&& 100 * scale.value() < (percent + 1) * pow2(1074) + pow2(1034)
        }),
{
    let u = pow2(1074);
    lemma_pow2_pos(1074);
    lemma2_to64();
    lemma2_to64_rest();
    lemma_scale_range(scale);
    let hundred = Double { bits: crate::ui::zoom::HUNDRED };
    crate::double::lemma_units_of(1028, 0x19_0000_0000_0000);
    lemma_pow2_adds(1028, 46);
    let g = pow2(1028);
    assert(0x19_0000_0000_0000 * g == 100 * (g * 0x4000_0000_0000)) by (nonlinear_arith);
    assert(hundred.value() == 100 * u);
    lemma_pow2_adds(1074, 7);
    product_is_near(scale, hundred, 4, 7);
    product_is_within(scale, hundred, 4, 7);
    let p = scale.product(hundred);
    let v = p.value();
    let w = scale.value();
    let e = pow2(1031) as int;
    assert(w * (100 * u) == (100 * w) * u) by (nonlinear_arith);
    assert(v - 100 * w <= e) by (nonlinear_arith)
        requires
            v * u - (100 * w) * u <= e * u,
            u > 0,
    ;
    assert(100 * w - v <= e) by (nonlinear_arith)
        requires
            (100 * w) * u - v * u <= e * u,
            u > 0,
    ;
    lemma_pow2_adds(1031, 3);
    let n = p.size() / u;
    let rest = p.size() % u;
    assert(p.size() == n * u + rest && rest < u) by (nonlinear_arith)
        requires
            n == p.size() / u,
            rest == p.size() % u,
            u > 0,
    ;
    lemma_pow2_adds(1074, 11);
    lemma_within_is_finite(p, 11);
    assert(n <= 2048) by (nonlinear_arith)
        requires
            n * u <= 2048 * u,
            u > 0,
    ;
    assert((n + 1) * u == n * u + u) by (nonlinear_arith);
}

/// The size that is asked for is that of the picture at its scale, width first, each
/// to the nearest pixel.
pub proof fn picture_is_asked_for_at_its_scale(viewer: MediaViewer, full_w: i32, full_h: i32)
    requires
        !viewer.is_video,
        full_w > 0,
        full_h > 0,
        is_bounded(viewer.view.scale),
        viewer.image_width * viewer.view.scale.value() <= 0x7fff_ffff * pow2(1074),
        viewer.image_height * viewer.view.scale.value() <= 0x7fff_ffff * pow2(1074),
    ensures
        viewer.view.last_width < 0 ==> placing(viewer, full_w, full_h).0 is Some,
        placing(viewer, full_w, full_h).0 matches Some((w, h)) ==> {
            let scale = viewer.view.scale.value();
            &&& distance(2 * (w * pow2(1074)), 2 * (viewer.image_width * scale)) <= pow2(1074)
                + pow2(1057)
            &&& distance(2 * (h * pow2(1074)), 2 * (viewer.image_height * scale)) <= pow2(1074)
                + pow2(1057)
        },
{
    picture_has_the_size_of_its_scale(viewer.image_width, viewer.view.scale);
    picture_has_the_size_of_its_scale(viewer.image_height, viewer.view.scale);
}

proof fn lemma_fills(room: int, side: u32)
    requires
        0 < room <= i32::MAX,
        side > 0,
    ensures
        ({
            let scale = of_whole(room as nat).quotient(of_whole(side as nat));
            distance(scale.value() * side, room * pow2(1074)) <= pow2(1051) * side
        }),
{
    let u = pow2(1074);
    lemma_pow2_pos(1074);
    lemma2_to64();
    whole_is_exact(room as nat);
    whole_is_exact(side as nat);
    whole_is_within(room as nat, 31);
    let a = of_whole(room as nat);
    let b = of_whole(side as nat);
    let n = side as int;
    assert(n * u >= u) by (nonlinear_arith)
        requires
            n >= 1,
            u > 0,
    ;
    quotient_is_near(a, b, 31, 0);
    let q = a.quotient(b).value();
    let e = pow2(1051) as int;
    assert(q * (n * u) == (q * n) * u) by (nonlinear_arith);
    assert(e * (n * u) == (e * n) * u) by (nonlinear_arith);
    assert(q * n - room * u <= e * n) by (nonlinear_arith)
        requires
            (q * n) * u - (room * u) * u <= (e * n) * u,
            u > 0,
    ;
    assert(room * u - q * n <= e * n) by (nonlinear_arith)
        requires
            (room * u) * u - (q * n) * u <= (e * n) * u,
            u > 0,
    ;
}

/// Fitting scales no further down than it must: either the picture is not scaled, or
/// one of its sides fills the room, to less than a pixel.
pub proof fn fitted_picture_fills_a_side(room_w: int, room_h: int, width: u32, height: u32)
    requires
        0 < room_w <= i32::MAX && 0 < room_h <= i32::MAX,
        width > 0 && height > 0,
    ensures
        ({
            let scale = crate::ui::zoom::fit_scale(room_w, room_h, width, height);
            ||| scale.bits == ONE
            ||| distance(scale.value() * width, room_w * pow2(1074)) <= pow2(1051) * width
            ||| distance(scale.value() * height, room_h * pow2(1074)) <= pow2(1051) * height
        }),
{
    lemma_fills(room_w, width);
    lemma_fills(room_h, height);
}

/// Half a line of scrolling, in units.
pub open spec fn half_line() -> int {
    pow2(1073) as int
}

/// The steps of some scrolling and what is left of it make up all of it, half a line
/// to a step, and what is left makes no step of its own.
pub proof fn scrolling_is_not_lost(amount: Double, most: nat)
    requires
        amount.within(20),
        most <= 16,
    ensures
        ({
            let (steps, left) = crate::ui::zoom::scroll_steps(amount, most);
            let made = if amount.value() > 0 {
                steps * half_line()
            } else {
                -(steps * half_line())
            };
            &&& steps <= most
            &&& left.within(20)
            &&& distance(made + left.value(), amount.value()) <= steps * pow2(1040)
            &&& steps < most ==> distance(left.value(), 0) < pow2(1073)
        }),
    decreases most,
{
    let half = pow2(1073) as int;
    lemma_pow2_pos(1073);
    lemma_pow2_pos(1040);
    lemma_within_is_finite(amount, 20);
    let unit = Double { bits: crate::ui::zoom::SCROLL_STEP_UNIT };
    assert(unit.value() == half) by {
        crate::double::lemma_units_of(1021, 0x10_0000_0000_0000);
        lemma_pow2_adds(1021, 52);
        lemma2_to64_rest();
        let g = pow2(1021);
        assert(0x10_0000_0000_0000 * g == g * pow2(52)) by (nonlinear_arith)
            requires
                pow2(52) == 0x10_0000_0000_0000,
        ;
    }
    assert(unit.opposite().value() == -half);
    assert(units(0) == 0);
    if most > 0 && crate::ui::zoom::is_step(amount) {
        let next = crate::ui::zoom::after_step(amount);
        if amount.value() > 0 {
            sum_is_near(amount, unit.opposite(), 20);
        } else {
            sum_is_near(amount, unit, 20);
        }
        let rest = crate::ui::zoom::scroll_steps(next, (most - 1) as nat);
        scrolling_is_not_lost(next, (most - 1) as nat);
        if rest.0 > 0 {
            crate::ui::zoom::lemma_scroll_direction(amount);
        }
        let e = pow2(1040) as int;
        assert((rest.0 + 1) * half == rest.0 * half + half) by (nonlinear_arith);
        assert((rest.0 + 1) * e == rest.0 * e + e) by (nonlinear_arith);
    }
}

proof fn lemma_limits()
    ensures
        distance(10 * (Double { bits: MIN_SCALE }).value(), pow2(1074) as int) <= pow2(1020),
        (Double { bits: MAX_SCALE }).value() == 10 * pow2(1074),
        distance(50 * (Double { bits: SCROLL_DEADZONE }).value(), pow2(1074) as int) <= pow2(1020),
        2 * (Double { bits: SCROLL_STEP_UNIT }).value() == pow2(1074),
        distance(1_000_000_000 * (Double { bits: SAME_SCALE }).value(), pow2(1074) as int) <= pow2(
            1022,
        ),
        distance(100 * (Double { bits: SAME_PLACE }).value(), pow2(1074) as int) <= pow2(1020),
{
    lemma2_to64();
    lemma2_to64_rest();
    lemma_units_of(1018, 0x19_9999_9999_999a);
    lemma_units_of(1025, 0x14_0000_0000_0000);
    lemma_units_of(1016, 0x14_7ae1_47ae_147b);
    lemma_units_of(1021, 0x10_0000_0000_0000);
    lemma_units_of(992, 0x11_2e0b_e826_d695);
    lemma_units_of(1015, 0x14_7ae1_47ae_147b);
    lemma_pow2_adds(1018, 56);
    lemma_pow2_adds(1018, 2);
    lemma_pow2_adds(1025, 49);
    lemma_pow2_adds(1016, 58);
    lemma_pow2_adds(1016, 4);
    lemma_pow2_adds(1021, 53);
    lemma_pow2_adds(992, 30);
    lemma_pow2_adds(1022, 52);
    lemma_pow2_adds(1015, 59);
    lemma_pow2_adds(1015, 5);
    let a = pow2(1018) as int;
    let b = pow2(1025) as int;
    let c = pow2(1016) as int;
    let d = pow2(1021) as int;
    let e = pow2(992) as int;
    let f = pow2(1015) as int;
    assert(10 * (0x19_9999_9999_999a * a) == a * 0x100_0000_0000_0000 + 4 * a) by (nonlinear_arith);
    assert(0x14_0000_0000_0000 * b == 10 * (b * 0x2_0000_0000_0000)) by (nonlinear_arith);
    assert(50 * (0x14_7ae1_47ae_147b * c) == c * 0x400_0000_0000_0000 + 6 * c) by (nonlinear_arith);
    assert(2 * (0x10_0000_0000_0000 * d) == d * 0x20_0000_0000_0000) by (nonlinear_arith);
    assert(1_000_000_000 * (0x11_2e0b_e826_d695 * e) == (e * 0x4000_0000) * 0x10_0000_0000_0000
        + 301_175_296 * e) by (nonlinear_arith);
    assert(100 * (0x14_7ae1_47ae_147b * f) == f * 0x800_0000_0000_0000 + 12 * f)
        by (nonlinear_arith);
}

/// A scale lies between a tenth and ten, and stays as it is where it does.
pub proof fn scale_lies_between_a_tenth_and_ten(scale: Double)
    requires
        !scale.nan(),
    ensures
        !bounded(scale).nan(),
        pow2(1074) <= 10 * bounded(scale).value() + pow2(1020),
        bounded(scale).value() <= 10 * pow2(1074),
        10 * scale.value() >= pow2(1074) + pow2(1020) && scale.value() <= 10 * pow2(1074)
            ==> bounded(scale) == scale,
{
    lemma_limits();
    lemma_pow2_adds(1020, 54);
    lemma_pow2_pos(1020);
    lemma2_to64_rest();
    let low = Double { bits: MIN_SCALE };
    let high = Double { bits: MAX_SCALE };
    bounds_are_kept(scale, low, high);
}

/// Scrolling counts from a fiftieth on, a step is a half, and at most sixteen steps are made
/// at once.
pub proof fn limits_of_scrolling(amount: Double)
    ensures
        distance(50 * (Double { bits: SCROLL_DEADZONE }).value(), pow2(1074) as int) <= pow2(1020),
        !amount.nan() ==> (is_step(amount) <==> 2 * amount.value() >= pow2(1074) || -2
            * amount.value() >= pow2(1074)),
        SCROLL_MAX_STEPS == 16,
{
    lemma_limits();
    larger_and_smaller(amount, amount);
    if !amount.nan() {
        assert(!amount.absolute().nan());
    }
}

/// Scales that differ by less than a half of a thousand millionth are taken as the same, and
/// those that differ by more than two are not; places count as the same below a two
/// hundredth of a pixel, and not from a fiftieth on.
pub proof fn small_differences_do_not_count(a: Double, b: Double)
    requires
        a.within(4) && b.within(4),
        a.value() >= 0 && b.value() >= 0,
    ensures
        2_000_000_000 * distance(a.value(), b.value()) <= pow2(1074) ==> is_same_scale(a, b),
        500_000_000 * distance(a.value(), b.value()) >= pow2(1074) ==> !is_same_scale(a, b),
        200 * distance(a.value(), b.value()) <= pow2(1074) ==> !is_far(a, b),
        50 * distance(a.value(), b.value()) >= pow2(1074) ==> is_far(a, b),
{
    lemma_limits();
    lemma_within_is_finite(a, 4);
    lemma_within_is_finite(b, 4);
    lemma2_to64();
    lemma2_to64_rest();
    let c = b.opposite();
    assert(units(0) == 0);
    assert(c.value() == -b.value());
    lemma_pow2_adds(1025, 49);
    lemma_pow2_adds(1020, 5);
    lemma_pow2_adds(1022, 52);
    lemma_pow2_adds(1020, 2);
    lemma_pow2_pos(1020);
    lemma_pow2_adds(1074 + 4, 1);
    assert(a.value() <= a.size() && b.value() <= b.size());
    sum_is_near(a, c, 5);
    let d = a.sum(c);
    larger_and_smaller(d, d);
    lemma_within_is_finite(d, 5);
    assert(!d.absolute().nan());
}

/// Placing a picture asks for the size and the place that it is to have, notes both, and
/// changes nothing else.
pub proof fn placing_notes_what_is_asked_for(
    changed: MediaViewer,
    full_w: i32,
    full_h: i32,
    after: MediaViewer,
    r: Placement,
)
    requires
        is_placed(changed, full_w, full_h, after, r),
    ensures
        (r.size, r.position) == placing(changed, full_w, full_h),
        r.size matches Some((w, h)) ==> after.view.last_width == w && after.view.last_height == h,
        r.size is None ==> after.view.last_width == changed.view.last_width
            && after.view.last_height == changed.view.last_height,
        r.position matches Some((x, y)) ==> after.view.last_x == x && after.view.last_y == y,
        r.position is None ==> after.view.last_x == changed.view.last_x && after.view.last_y
            == changed.view.last_y,
        after.view.scale == changed.view.scale,
        after.view.pan_x == changed.view.pan_x && after.view.pan_y == changed.view.pan_y,
        after.view.scroll == changed.view.scroll,
        after.view.drag_x == changed.view.drag_x && after.view.drag_y == changed.view.drag_y,
        after.view.pinch_scale == changed.view.pinch_scale,
        after.image_width == changed.image_width && after.image_height == changed.image_height,
        after.rotation == changed.rotation && after.is_video == changed.is_video,
        after.user_interacted == changed.user_interacted,
        after.current_path == changed.current_path && after.generation == changed.generation,
{
}

/// A picture that is scaled has the scale that was asked for, as far as the bounds let it,
/// and is decoded in full from beyond its own size on.
pub proof fn scaling_scales_and_places(
    before: MediaViewer,
    scale: Double,
    by_user: bool,
    full_w: i32,
    full_h: i32,
    after: MediaViewer,
    r: Placement,
)
    requires
        is_scaled(before, scale, by_user, full_w, full_h, after, r),
        !scale.nan(),
    ensures
        after.view.scale == bounded(scale),
        after.view.pan_x == before.view.pan_x && after.view.pan_y == before.view.pan_y,
        after.user_interacted == (before.user_interacted || by_user),
        r.full_decode <==> !before.is_video && bounded(scale).value() > pow2(1074),
{
    scale_lies_between_a_tenth_and_ten(scale);
    crate::double::lemma_power_magnitude(0);
}

/// A picture is put at its place again where it has none yet or has moved by more than a
/// hundredth of a pixel either way, and its size is asked for again where that is another.
pub proof fn picture_is_put_again_where_it_moved(viewer: MediaViewer, full_w: i32, full_h: i32)
    requires
        !viewer.is_video,
        full_w > 0 && full_h > 0,
    ensures
        ({
            let (size, position) = placing(viewer, full_w, full_h);
            let view = viewer.view;
            let room = viewport(full_w, full_h)->0;
            let left = view.left(viewer.image_width, room.0 as int, room.2 as int);
            let top = view.top(viewer.image_height, room.1 as int, room.3 as int);
            &&& position is Some <==> view.last_x.nan() || view.last_y.nan() || is_far(
                left,
                view.last_x,
            ) || is_far(top, view.last_y)
            &&& position matches Some((x, y)) ==> x == left && y == top
            &&& size is None ==> view.last_width == pixels(
                scaled(viewer.image_width, view.scale),
            ) && view.last_height == pixels(scaled(viewer.image_height, view.scale))
        }),
{
}

} // verus!
