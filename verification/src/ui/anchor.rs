//! That scaling a picture around the pointer keeps what lies under the pointer there.
use vstd::arithmetic::power2::{
    lemma2_to64, lemma2_to64_rest, lemma_pow2_adds, lemma_pow2_pos, pow2,
};
use vstd::prelude::*;

use crate::double::{
    half_is_within, lemma_units_of, lemma_within_is_finite, magnitude_is_within,
    magnitudes_are_ordered, of_whole, product_is_within, sum_is_at_least, sum_is_within, units,
    whole_is_within, Double, TWO,
};
use crate::precision::{distance, product_is_near, quotient_is_near, sum_is_near};
use crate::ui::zoom::{
    anchor_of, anchored_pan, centered, is_along, is_bounded, scaled, MAX_SCALE, MIN_SCALE,
};

verus! {

pub(crate) proof fn lemma_scale_range(scale: Double)
    requires
        is_bounded(scale),
    ensures
        scale.within(4) && !scale.negative() && !scale.infinite(),
        scale.size() >= pow2(1070),
        scale.value() == scale.size(),
{
    magnitudes_are_ordered(0, MIN_SCALE as int);
    assert(units(0) == 0);
    if scale.magnitude() > MAX_SCALE {
        magnitudes_are_ordered(MAX_SCALE as int, scale.magnitude());
    }
    magnitude_is_within(scale, 4);
    lemma_within_is_finite(scale, 4);
    // A sixteenth is below the smallest scale.
    let sixteenth = 1019int * 0x10_0000_0000_0000;
    lemma_units_of(1018, 0x10_0000_0000_0000);
    lemma_pow2_adds(1018, 52);
    lemma2_to64_rest();
    assert(0x10_0000_0000_0000 * pow2(1018) == pow2(1018) * pow2(52)) by (nonlinear_arith)
        requires
            pow2(52) == 0x10_0000_0000_0000,
    ;
    magnitudes_are_ordered(sixteenth, MIN_SCALE as int);
}

/// How sizes of a picture up to `2^k` bound its place.
proof fn lemma_base_range(start: int, room: int, side: u32, scale: Double, k: nat)
    requires
        k <= 32,
        side <= pow2(k),
        0 <= start <= pow2(k + 5),
        0 <= room <= pow2(k + 4),
        is_bounded(scale),
    ensures
        scaled(side, scale).within(k + 4),
        !scaled(side, scale).negative() && !scaled(side, scale).infinite(),
        centered(start, room, scaled(side, scale)).within(k + 6),
        !centered(start, room, scaled(side, scale)).infinite(),
{
    let length = scaled(side, scale);
    lemma_scale_range(scale);
    whole_is_within(side as nat, k);
    product_is_within(of_whole(side as nat), scale, k, 4);
    whole_is_within(room as nat, k + 4);
    assert(length.opposite().within(k + 4));
    let gap = of_whole(room as nat).sum(length.opposite());
    sum_is_within(of_whole(room as nat), length.opposite(), k + 4);
    half_is_within(gap, k + 5);
    whole_is_within(start as nat, k + 5);
    sum_is_within(of_whole(start as nat), gap.quotient(Double { bits: TWO }), k + 5);
}

/// Putting the errors of the steps together.
proof fn lemma_anchor_arithmetic(
    a: int,
    e: int,
    s: int,
    n: int,
    d: int,
    p: int,
    q: int,
    f: int,
    u: int,
    t: int,
)
    requires
        u > 0 && t > 0,
        u <= 16 * s,
        0 < n <= 16 * u,
        distance(d, a - e) <= 32 * t,
        distance(p * s, d * u) <= (512 * t) * s,
        distance(q * u, p * n) <= (8192 * t) * u,
        distance(f, a - q) <= 114688 * t,
    ensures
        distance(f * s + (a - e) * n, a * s) <= (262144 * t) * s,
{
    let e1 = f - (a - q);
    let e2 = q * u - p * n;
    let e3 = p * s - d * u;
    let e4 = d - (a - e);
    let x = f * s + (a - e) * n - a * s;
    let g = a - e;
    assert(f * s == e1 * s + a * s - q * s) by (nonlinear_arith)
        requires
            f == e1 + a - q,
    ;
    assert(x * u == (e1 * s) * u - (q * s) * u + (g * n) * u) by (nonlinear_arith)
        requires
            x == e1 * s - q * s + g * n,
    ;
    assert((q * s) * u == (q * u) * s) by (nonlinear_arith);
    assert((q * u) * s == e2 * s + (p * n) * s) by (nonlinear_arith)
        requires
            q * u == e2 + p * n,
    ;
    assert((p * n) * s == (p * s) * n) by (nonlinear_arith);
    assert((p * s) * n == e3 * n + (d * u) * n) by (nonlinear_arith)
        requires
            p * s == e3 + d * u,
    ;
    assert((d * u) * n == (e4 * u) * n + (g * u) * n) by (nonlinear_arith)
        requires
            d == e4 + g,
    ;
    assert((g * u) * n == (g * n) * u) by (nonlinear_arith);
    assert(x * u == (e1 * s) * u - e2 * s - e3 * n - (e4 * u) * n);
    let su = s * u;
    let tsu = t * su;
    assert(su > 0) by (nonlinear_arith)
        requires
            su == s * u,
            s > 0,
            u > 0,
    ;
    assert(-114688 * tsu <= (e1 * s) * u <= 114688 * tsu) by (nonlinear_arith)
        requires
            -114688 * t <= e1 <= 114688 * t,
            su == s * u,
            tsu == t * su,
            su > 0,
    ;
    assert(-8192 * tsu <= e2 * s <= 8192 * tsu) by (nonlinear_arith)
        requires
            -((8192 * t) * u) <= e2 <= (8192 * t) * u,
            su == s * u,
            tsu == t * su,
            s > 0,
    ;
    assert(-8192 * tsu <= e3 * n <= 8192 * tsu) by (nonlinear_arith)
        requires
            -((512 * t) * s) <= e3 <= (512 * t) * s,
            0 < n <= 16 * u,
            su == s * u,
            tsu == t * su,
            s > 0,
            t > 0,
    ;
    assert(-8192 * tsu <= (e4 * u) * n <= 8192 * tsu) by (nonlinear_arith)
        requires
            -(32 * t) <= e4 <= 32 * t,
            0 < n <= 16 * u,
            u <= 16 * s,
            su == s * u,
            tsu == t * su,
            u > 0,
            t > 0,
    ;
    assert(distance(x, 0) <= (262144 * t) * s) by (nonlinear_arith)
        requires
            -139264 * tsu <= x * u <= 139264 * tsu,
            su == s * u,
            tsu == t * su,
            u > 0,
            s > 0,
            t > 0,
    ;
}

/// Scaling around the pointer keeps what lies under it there. Along either side of a
/// picture of up to `2^k` pixels that is not moved further than `2^(k + 6)`, the point
/// that lay under the pointer lies within `2^(k - 36)` pixels of it afterwards: less
/// than a millionth of a pixel for sides up to sixteen bits.
pub proof fn point_under_pointer_stays(
    start: int,
    room: int,
    side: u32,
    scale: Double,
    new_scale: Double,
    pan: Double,
    pointer: Double,
    inside: bool,
    k: nat,
)
    requires
        k <= 32,
        side <= pow2(k),
        0 <= start <= pow2(k + 5),
        0 <= room <= pow2(k + 4),
        is_bounded(scale),
        is_bounded(new_scale),
        pan.within(k + 6),
        !pointer.nan(),
        inside ==> is_along(
            pointer,
            centered(start, room, scaled(side, scale)).sum(pan),
            scaled(side, scale),
        ),
    ensures
        ({
            let length = scaled(side, scale);
            let edge = centered(start, room, length).sum(pan);
            let anchor = anchor_of(pointer, edge, length, inside);
            let new_pan = anchored_pan(
                start,
                room,
                side,
                scale,
                new_scale,
                pan,
                pointer,
                inside,
            );
            let new_edge = centered(start, room, scaled(side, new_scale)).sum(new_pan);
            distance(
                new_edge.value() * scale.value() + (anchor.value() - edge.value())
                    * new_scale.value(),
                anchor.value() * scale.value(),
            ) <= pow2(1038 + k) * scale.value()
        }),
{
    let length = scaled(side, scale);
    let base = centered(start, room, length);
    let edge = base.sum(pan);
    let anchor = anchor_of(pointer, edge, length, inside);
    let across = anchor.sum(edge.opposite());
    let point = across.quotient(scale);
    let moved = point.product(new_scale);
    let begin = anchor.sum(moved.opposite());
    let new_base = centered(start, room, scaled(side, new_scale));
    let new_pan = begin.sum(new_base.opposite());
    let new_edge = new_base.sum(new_pan);
    let t = pow2(1020 + k) as int;
    let u = pow2(1074) as int;
    lemma_powers_from(k);
    lemma_scale_range(scale);
    lemma_scale_range(new_scale);
    lemma_base_range(start, room, side, scale, k);
    lemma_base_range(start, room, side, new_scale, k);
    lemma_within_is_finite(pan, k + 6);
    sum_is_within(base, pan, k + 6);
    assert(edge.within(k + 7));
    lemma_within_is_finite(edge, k + 7);
    sum_is_near(edge, length, k + 8);
    let far = edge.sum(length);
    sum_is_at_least(edge, length);
    // The anchor lies between the edges.
    assert(edge.value() <= anchor.value() <= far.value() && !anchor.nan());
    assert(anchor.within(k + 8));
    lemma_within_is_finite(anchor, k + 8);
    assert(edge.opposite().value() == -edge.value());
    sum_is_near(anchor, edge.opposite(), k + 5);
    quotient_is_near(across, scale, k + 5, 4);
    product_is_near(point, new_scale, k + 9, 4);
    lemma_within_is_finite(moved, k + 13);
    assert(moved.opposite().value() == -moved.value());
    sum_is_near(anchor, moved.opposite(), k + 14);
    assert(new_base.opposite().value() == -new_base.value());
    sum_is_near(begin, new_base.opposite(), k + 15);
    sum_is_near(new_base, new_pan, k + 16);
    lemma_anchor_arithmetic(
        anchor.value(),
        edge.value(),
        scale.value(),
        new_scale.value(),
        across.value(),
        point.value(),
        moved.value(),
        new_edge.value(),
        u,
        t,
    );
}

/// Powers of two as multiples of a small one.
proof fn lemma_powers_from(k: nat)
    ensures
        pow2(1020 + k) > 0 && pow2(1074) > 0,
        pow2(1020 + (k + 5)) == 32 * pow2(1020 + k),
        pow2(1020 + (k + 5) + 4) == 512 * pow2(1020 + k),
        pow2(1020 + (k + 9) + 4) == 8192 * pow2(1020 + k),
        pow2(1020 + (k + 14)) == 16384 * pow2(1020 + k),
        pow2(1020 + (k + 15)) == 32768 * pow2(1020 + k),
        pow2(1020 + (k + 16)) == 65536 * pow2(1020 + k),
        pow2(1020 + (k + 8)) == 256 * pow2(1020 + k),
        pow2(1038 + k) == 262144 * pow2(1020 + k),
        pow2(1074 + (k + 4)) == 0x400_0000_0000_0000 * pow2(1020 + k),
        pow2(1074 + (k + 5)) == 0x800_0000_0000_0000 * pow2(1020 + k),
        pow2(1074 + (k + 6)) == 0x1000_0000_0000_0000 * pow2(1020 + k),
        pow2(1074 + (k + 7)) == 0x2000_0000_0000_0000 * pow2(1020 + k),
        pow2(1074 + (k + 8)) == 0x4000_0000_0000_0000 * pow2(1020 + k),
        pow2(1074 + (k + 13)) == 0x8_0000_0000_0000_0000 * pow2(1020 + k),
        pow2(1074 + (k + 14)) == 0x10_0000_0000_0000_0000 * pow2(1020 + k),
        pow2(1074 + (k + 15)) == 0x20_0000_0000_0000_0000 * pow2(1020 + k),
        pow2(1074 + (k + 16)) == 0x40_0000_0000_0000_0000 * pow2(1020 + k),
        pow2(1074) == 16 * pow2(1070),
        pow2(1074 + 4) == 16 * pow2(1074),
{
    lemma_pow2_pos(1020 + k);
    lemma_pow2_pos(1074);
    lemma2_to64();
    lemma2_to64_rest();
    lemma_times_power(1020 + k, 5);
    lemma_times_power(1020 + k, 8);
    lemma_times_power(1020 + k, 9);
    lemma_times_power(1020 + k, 13);
    lemma_times_power(1020 + k, 14);
    lemma_times_power(1020 + k, 15);
    lemma_times_power(1020 + k, 16);
    lemma_times_power(1020 + k, 18);
    lemma_times_power(1020 + k, 58);
    lemma_times_power(1020 + k, 59);
    lemma_times_power(1020 + k, 60);
    lemma_times_power(1020 + k, 61);
    lemma_times_power(1020 + k, 62);
    lemma_times_power(1074 + k + 8, 5);
    lemma_times_power(1074 + k + 8, 6);
    lemma_times_power(1074 + k + 8, 7);
    lemma_times_power(1074 + k + 8, 8);
    lemma_times_power(1070, 4);
    lemma_times_power(1074, 4);
}

proof fn lemma_times_power(a: nat, b: nat)
    ensures
        pow2(a + b) == pow2(b) * pow2(a),
{
    lemma_pow2_adds(a, b);
    assert(pow2(a) * pow2(b) == pow2(b) * pow2(a)) by (nonlinear_arith);
}

} // verus!
