//! How far rounding takes the results of double precision arithmetic from what they
//! would be without it.
use vstd::arithmetic::power2::{
    lemma2_to64, lemma_pow2_adds, lemma_pow2_pos, lemma_pow2_strictly_increases, lemma_pow2_unfold,
    pow2,
};
use vstd::prelude::*;

use crate::double::{
    lemma_power_magnitude, lemma_rounded_within, lemma_within_is_finite, nearest,
    nearest_is_nearest, of_parts, rounding_keeps_at_most, units, Double, INFINITE,
};

verus! {

/// How far a number is from another.
pub open spec fn distance(a: int, b: int) -> int {
    if a < b {
        b - a
    } else {
        a - b
    }
}

/// The gap between a magnitude and the next.
proof fn lemma_gap(m: int)
    requires
        m >= 0,
    ensures
        units(m + 1) - units(m) == if m / 0x10_0000_0000_0000 <= 0 {
            1
        } else {
            pow2((m / 0x10_0000_0000_0000 - 1) as nat) as int
        },
{
    let field = m / 0x10_0000_0000_0000;
    let fraction = m % 0x10_0000_0000_0000;
    if fraction + 1 < 0x10_0000_0000_0000 {
        assert((m + 1) / 0x10_0000_0000_0000 == field && (m + 1) % 0x10_0000_0000_0000 == fraction
            + 1);
        if field > 0 {
            let p = pow2((field - 1) as nat) as int;
            assert((0x10_0000_0000_0000 + fraction + 1) * p - (0x10_0000_0000_0000 + fraction) * p
                == p) by (nonlinear_arith);
            assert(units(m) == (0x10_0000_0000_0000 + fraction) * p);
            assert(units(m + 1) == (0x10_0000_0000_0000 + fraction + 1) * p);
            assert(units(m + 1) - units(m) == p);
        } else {
            assert(units(m + 1) - units(m) == 1);
        }
    } else {
        assert((m + 1) / 0x10_0000_0000_0000 == field + 1 && (m + 1) % 0x10_0000_0000_0000 == 0);
        if field > 0 {
            lemma_pow2_unfold(field as nat);
            let p = pow2((field - 1) as nat) as int;
            assert(0x10_0000_0000_0000 * (2 * p) - (0x10_0000_0000_0000 + fraction) * p == p)
                by (nonlinear_arith)
                requires
                    fraction == 0xf_ffff_ffff_ffff,
            ;
            assert(units(m) == (0x10_0000_0000_0000 + fraction) * p);
            assert(units(m + 1) == 0x10_0000_0000_0000 * pow2(field as nat));
            assert(pow2(field as nat) == 2 * p);
            assert(units(m + 1) - units(m) == p);
        } else {
            assert(pow2(0) == 1) by {
                lemma2_to64();
            }
            assert(units(m + 1) == 0x10_0000_0000_0000 * pow2(0));
            assert(units(m) == fraction);
            assert(fraction == 0xf_ffff_ffff_ffff);
        }
    }
}

/// Below `2^k` the gaps are at most `2^(k - 53)`.
proof fn lemma_gap_below(m: int, k: nat)
    requires
        k <= 1000,
        0 <= m < (1023 + k) * 0x10_0000_0000_0000,
    ensures
        units(m + 1) - units(m) <= pow2(1021 + k),
{
    lemma_gap(m);
    let field = m / 0x10_0000_0000_0000;
    assert(field <= 1022 + k);
    lemma_pow2_pos(1021 + k);
    if 0 < field < 1022 + k {
        lemma_pow2_strictly_increases((field - 1) as nat, 1021 + k);
    }
}

/// A ratio of at most `2^k` is rounded by at most `2^(k - 54)`.
pub proof fn rounding_is_small(num: nat, den: nat, k: nat)
    requires
        den > 0,
        k <= 1000,
        num <= pow2(1074 + k) * den,
    ensures
        distance((units(nearest(num, den)) * den) as int, num as int) <= pow2(1020 + k) * den,
{
    let m = nearest(num, den);
    let top = (1023 + k as int) * 0x10_0000_0000_0000;
    lemma_power_magnitude(k);
    rounding_keeps_at_most(top, num, den);
    nearest_is_nearest(num, den);
    lemma_pow2_unfold(1021 + k);
    lemma_pow2_pos(1020 + k);
    let u = units(m) as int;
    let h = pow2(1020 + k) as int;
    let d = den as int;
    if u * d < num {
        assert(m < top) by {
            if m == top {
                assert(false);
            }
        }
        lemma_gap_below(m, k);
        let v = units(m + 1) as int;
        assert(num - u * d <= h * d) by (nonlinear_arith)
            requires
                2 * num <= (u + v) * d,
                v - u <= 2 * h,
                d > 0,
        ;
    } else if num < u * d {
        assert(m > 0) by {
            if m == 0 {
                assert(units(0) == 0);
                assert(u * d == 0) by (nonlinear_arith)
                    requires
                        u == 0,
                ;
            }
        }
        lemma_gap_below(m - 1, k);
        let v = units(m - 1) as int;
        assert(u * d - num <= h * d) by (nonlinear_arith)
            requires
                2 * num >= (v + u) * d,
                u - v <= 2 * h,
                d > 0,
        ;
    } else {
        assert(0 <= h * d) by (nonlinear_arith)
            requires
                h >= 0,
                d > 0,
        ;
    }
}

/// The value of a number with a sign.
proof fn lemma_signed(negative: bool, m: int)
    requires
        0 <= m <= INFINITE,
    ensures
        of_parts(negative, m).value() == if negative {
            -(units(m) as int)
        } else {
            units(m) as int
        },
{
}

/// A sum of at most `2^k` is within it, and is rounded by at most `2^(k - 54)`.
pub proof fn sum_is_near(a: Double, b: Double, k: nat)
    requires
        !a.nan() && !a.infinite(),
        !b.nan() && !b.infinite(),
        k <= 1000,
        distance(a.value() + b.value(), 0) <= pow2(1074 + k),
    ensures
        a.sum(b).within(k),
        !a.sum(b).infinite(),
        distance(a.sum(b).value(), a.value() + b.value()) <= pow2(1020 + k),
{
    let v = a.value() + b.value();
    lemma_pow2_pos(1074 + k);
    lemma_pow2_pos(1020 + k);
    if v < 0 {
        lemma_rounded_within(true, (-v) as nat, 1, k);
        rounding_is_small((-v) as nat, 1, k);
        nearest_is_nearest((-v) as nat, 1);
        lemma_signed(true, nearest((-v) as nat, 1));
    } else if v > 0 {
        lemma_rounded_within(false, v as nat, 1, k);
        rounding_is_small(v as nat, 1, k);
        nearest_is_nearest(v as nat, 1);
        lemma_signed(false, nearest(v as nat, 1));
    } else {
        assert(units(0) == 0);
    }
}

/// A product of numbers of at most `2^i` and `2^j` is rounded by at most
/// `2^(i + j - 54)`.
pub proof fn product_is_near(a: Double, b: Double, i: nat, j: nat)
    requires
        a.within(i),
        b.within(j),
        i + j <= 1000,
    ensures
        a.product(b).within(i + j),
        !a.product(b).infinite(),
        distance(a.product(b).value() * pow2(1074), a.value() * b.value()) <= pow2(1020 + i + j)
            * pow2(1074),
{
    lemma_within_is_finite(a, i);
    lemma_within_is_finite(b, j);
    let u = pow2(1074);
    lemma_pow2_pos(1074);
    lemma_pow2_adds(1074 + i, 1074 + j);
    lemma_pow2_adds(1074 + (i + j), 1074);
    let x = a.size();
    let y = b.size();
    assert(x * y <= pow2(1074 + i) * pow2(1074 + j)) by (nonlinear_arith)
        requires
            x <= pow2(1074 + i),
            y <= pow2(1074 + j),
    ;
    assert(1074 + i + (1074 + j) == 1074 + (i + j) + 1074);
    lemma_rounded_within(a.negative() != b.negative(), x * y, u, i + j);
    rounding_is_small(x * y, u, i + j);
    assert(1020 + (i + j) == 1020 + i + j);
    nearest_is_nearest(x * y, u);
    let m = nearest(x * y, u);
    lemma_signed(a.negative() != b.negative(), m);
    let c = units(m) as int;
    let av = a.value();
    let bv = b.value();
    let xs = x as int;
    let ys = y as int;
    assert(av * bv == if a.negative() != b.negative() {
        -(xs * ys)
    } else {
        xs * ys
    }) by (nonlinear_arith)
        requires
            av == (if a.negative() {
                -xs
            } else {
                xs
            }),
            bv == (if b.negative() {
                -ys
            } else {
                ys
            }),
    ;
    assert((-c) * u == -(c * u)) by (nonlinear_arith);
}

/// A number of at most `2^i`, divided by one of at least `2^-j`, is rounded by at most
/// `2^(i + j - 54)`.
pub proof fn quotient_is_near(a: Double, b: Double, i: nat, j: nat)
    requires
        a.within(i),
        !b.nan() && !b.infinite() && !b.negative(),
        j <= 1074,
        i + j <= 1000,
        b.size() >= pow2((1074 - j) as nat),
    ensures
        a.quotient(b).within(i + j),
        !a.quotient(b).infinite(),
        distance(a.quotient(b).value() * b.value(), a.value() * pow2(1074)) <= pow2(1020 + i + j)
            * b.value(),
{
    lemma_within_is_finite(a, i);
    let u = pow2(1074);
    lemma_pow2_pos(1074);
    lemma_pow2_pos((1074 - j) as nat);
    assert(b.magnitude() > 0) by {
        assert(units(0) == 0);
    }
    let x = a.size();
    let y = b.size();
    lemma_pow2_adds(1074 + (i + j), (1074 - j) as nat);
    lemma_pow2_adds(1074 + i, 1074);
    assert(1074 + (i + j) + (1074 - j) == 1074 + i + 1074);
    assert(x * u <= pow2(1074 + (i + j)) * y) by (nonlinear_arith)
        requires
            x <= pow2(1074 + i),
            pow2(1074 + i) * u == pow2(1074 + (i + j)) * pow2((1074 - j) as nat),
            y >= pow2((1074 - j) as nat),
    ;
    lemma_rounded_within(a.negative(), x * u, y, i + j);
    rounding_is_small(x * u, y, i + j);
    assert(1020 + (i + j) == 1020 + i + j);
    nearest_is_nearest(x * u, y);
    let m = nearest(x * u, y);
    lemma_signed(a.negative(), m);
    let c = units(m) as int;
    let xs = x as int;
    assert((-c) * (y as int) == -(c * (y as int))) by (nonlinear_arith);
    assert((-xs) * (u as int) == -(xs * (u as int))) by (nonlinear_arith);
}

/// A quotient of at most `2^k` is rounded by at most `2^(k - 54)`.
pub proof fn quotient_of_some_size_is_near(a: Double, b: Double, k: nat)
    requires
        !a.nan() && !a.infinite() && !a.negative(),
        !b.nan() && !b.infinite() && !b.negative(),
        b.size() > 0,
        k <= 1000,
        a.size() * pow2(1074) <= pow2(1074 + k) * b.size(),
    ensures
        a.quotient(b).within(k),
        !a.quotient(b).infinite() && !a.quotient(b).negative(),
        distance(a.quotient(b).value() * b.value(), a.value() * pow2(1074)) <= pow2(1020 + k)
            * b.value(),
{
    let u = pow2(1074);
    lemma_pow2_pos(1074);
    assert(b.magnitude() > 0) by {
        assert(units(0) == 0);
    }
    let x = a.size();
    let y = b.size();
    lemma_rounded_within(a.negative(), x * u, y, k);
    rounding_is_small(x * u, y, k);
    nearest_is_nearest(x * u, y);
    let m = nearest(x * u, y);
    lemma_signed(a.negative(), m);
}

} // verus!
