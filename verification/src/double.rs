//! Double precision numbers in integers. A number is its 64 bits: a sign and a
//! magnitude. Magnitudes count through the numbers in order, so the magnitude
//! after that of a number is that of the next larger number. The size of a number
//! is measured in units, the smallest size above zero; one is `2^1074` units.
use vstd::arithmetic::power2::{
    lemma_pow2_adds, lemma_pow2_pos, lemma_pow2_strictly_increases, lemma_pow2_unfold, pow2,
};
use vstd::prelude::*;

use crate::single::{self, Single};

verus! {

/// The magnitude of infinity; larger magnitudes are no numbers.
pub const INFINITE: u64 = 0x7ff0_0000_0000_0000;

/// The size, in units, of a magnitude. Infinity has the size that the next number
/// would have.
pub open spec fn units(m: int) -> nat {
    let field = m / 0x10_0000_0000_0000;
    let fraction = m % 0x10_0000_0000_0000;
    if field <= 0 {
        fraction as nat
    } else {
        ((0x10_0000_0000_0000 + fraction) as nat) * pow2((field - 1) as nat)
    }
}

/// Whether `m` is the magnitude nearest to `num / den` units. Halfway between two,
/// the even magnitude is the nearest.
pub open spec fn is_nearest(m: int, num: nat, den: nat) -> bool {
    &&& 0 <= m <= INFINITE
    &&& m > 0 ==> {
        let middle = units(m - 1) + units(m);
        2 * num > middle * den || (2 * num == middle * den && m % 2 == 0)
    }
    &&& m < INFINITE ==> {
        let middle = units(m) + units(m + 1);
        2 * num < middle * den || (2 * num == middle * den && m % 2 == 0)
    }
}

/// The magnitude nearest to `num / den` units.
pub open spec fn nearest(num: nat, den: nat) -> int {
    choose|m: int| is_nearest(m, num, den)
}

/// A double precision number.
#[derive(Clone, Copy, PartialEq, Eq, Structural, Debug)]
pub struct Double {
    pub bits: u64,
}

/// The bits of zero.
pub const ZERO: u64 = 0;

/// The bits of one.
pub const ONE: u64 = 0x3ff0_0000_0000_0000;

/// The bits of what an operation without a result gives.
pub const NOT_A_NUMBER: u64 = 0x7ff8_0000_0000_0000;

/// The number of a sign and a magnitude.
pub open spec fn of_parts(negative: bool, m: int) -> Double {
    Double {
        bits: if negative {
            (m + 0x8000_0000_0000_0000) as u64
        } else {
            m as u64
        },
    }
}

impl Double {
    /// Whether the sign is set.
    pub open spec fn negative(self) -> bool {
        self.bits >= 0x8000_0000_0000_0000
    }

    /// The bits without the sign.
    pub open spec fn magnitude(self) -> int {
        if self.bits >= 0x8000_0000_0000_0000 {
            self.bits - 0x8000_0000_0000_0000
        } else {
            self.bits as int
        }
    }

    /// Whether these bits stand for no number.
    pub open spec fn nan(self) -> bool {
        self.magnitude() > INFINITE
    }

    /// Whether the number is infinite.
    pub open spec fn infinite(self) -> bool {
        self.magnitude() == INFINITE
    }

    /// The size in units.
    pub open spec fn size(self) -> nat {
        units(self.magnitude())
    }

    /// The number in units.
    pub open spec fn value(self) -> int {
        if self.negative() {
            -(self.size() as int)
        } else {
            self.size() as int
        }
    }

    /// Whether the number is smaller.
    pub open spec fn less(self, other: Self) -> bool {
        !self.nan() && !other.nan() && self.value() < other.value()
    }

    /// Whether the number is smaller or the same.
    pub open spec fn at_most(self, other: Self) -> bool {
        !self.nan() && !other.nan() && self.value() <= other.value()
    }

    /// The number without its sign.
    pub open spec fn absolute(self) -> Double {
        Double { bits: self.magnitude() as u64 }
    }

    /// The sum, rounded.
    pub open spec fn sum(self, other: Self) -> Double {
        if self.nan() || other.nan() {
            Double { bits: NOT_A_NUMBER }
        } else if self.infinite() && other.infinite() && self.negative() != other.negative() {
            Double { bits: NOT_A_NUMBER }
        } else if self.infinite() {
            self
        } else if other.infinite() {
            other
        } else {
            let v = self.value() + other.value();
            if v == 0 {
                of_parts(self.negative() && other.negative(), 0)
            } else if v < 0 {
                of_parts(true, nearest((-v) as nat, 1))
            } else {
                of_parts(false, nearest(v as nat, 1))
            }
        }
    }

    /// The product, rounded.
    pub open spec fn product(self, other: Self) -> Double {
        let negative = self.negative() != other.negative();
        if self.nan() || other.nan() {
            Double { bits: NOT_A_NUMBER }
        } else if (self.infinite() && other.magnitude() == 0) || (other.infinite()
            && self.magnitude() == 0) {
            Double { bits: NOT_A_NUMBER }
        } else if self.infinite() || other.infinite() {
            of_parts(negative, INFINITE as int)
        } else {
            of_parts(negative, nearest(self.size() * other.size(), pow2(1074)))
        }
    }

    /// The quotient, rounded.
    pub open spec fn quotient(self, other: Self) -> Double {
        let negative = self.negative() != other.negative();
        if self.nan() || other.nan() {
            Double { bits: NOT_A_NUMBER }
        } else if (self.infinite() && other.infinite()) || (self.magnitude() == 0
            && other.magnitude() == 0) {
            Double { bits: NOT_A_NUMBER }
        } else if self.infinite() || other.magnitude() == 0 {
            of_parts(negative, INFINITE as int)
        } else if other.infinite() {
            of_parts(negative, 0)
        } else {
            of_parts(negative, nearest(self.size() * pow2(1074), other.size()))
        }
    }

    /// The larger number; where one is none, the other.
    pub open spec fn larger(self, other: Self) -> Double {
        if self.nan() || self.less(other) {
            other
        } else {
            self
        }
    }

    /// The smaller number; where one is none, the other.
    pub open spec fn smaller(self, other: Self) -> Double {
        if self.nan() || other.less(self) {
            other
        } else {
            self
        }
    }

    /// The number, or the bound that it lies beyond.
    pub open spec fn clamped(self, low: Self, high: Self) -> Double {
        if self.less(low) {
            low
        } else if high.less(self) {
            high
        } else {
            self
        }
    }

    /// The whole part, kept to what 32 bits hold.
    pub open spec fn whole(self) -> u32 {
        if self.nan() || self.negative() {
            0
        } else {
            let n = self.size() / pow2(1074);
            if n < u32::MAX {
                n as u32
            } else {
                u32::MAX
            }
        }
    }

    /// The nearest whole number, a half going up, kept to what 32 bits hold; zero
    /// for a number below zero.
    pub open spec fn nearest_whole(self) -> u32 {
        if self.nan() || self.negative() {
            0
        } else {
            let n = (2 * self.size() + pow2(1074)) / (2 * pow2(1074));
            if n < u32::MAX {
                n as u32
            } else {
                u32::MAX
            }
        }
    }

    /// The nearest whole number, a half going up, kept to what 64 bits hold; zero
    /// for a number below zero.
    pub open spec fn nearest_wide(self) -> u64 {
        if self.nan() || self.negative() {
            0
        } else {
            let n = (2 * self.size() + pow2(1074)) / (2 * pow2(1074));
            if n < u64::MAX {
                n as u64
            } else {
                u64::MAX
            }
        }
    }

    /// The number with the other sign.
    pub open spec fn opposite(self) -> Double {
        Double {
            bits: if self.bits >= 0x8000_0000_0000_0000 {
                (self.bits - 0x8000_0000_0000_0000) as u64
            } else {
                (self.bits + 0x8000_0000_0000_0000) as u64
            },
        }
    }
}

/// A single precision number, which is not rounded.
pub open spec fn of_single(x: Single) -> Double {
    if x.nan() {
        Double { bits: NOT_A_NUMBER }
    } else if x.infinite() {
        of_parts(x.negative(), INFINITE as int)
    } else {
        of_parts(x.negative(), nearest(x.size() * pow2(925), 1))
    }
}

/// A whole number, rounded.
pub open spec fn of_whole(n: nat) -> Double {
    of_parts(false, nearest(n * pow2(1074), 1))
}

proof fn lemma_next_is_larger(m: int)
    requires
        m >= 0,
    ensures
        units(m) < units(m + 1),
{
    let field = m / 0x10_0000_0000_0000;
    let fraction = m % 0x10_0000_0000_0000;
    if fraction + 1 < 0x10_0000_0000_0000 {
        assert((m + 1) / 0x10_0000_0000_0000 == field && (m + 1) % 0x10_0000_0000_0000 == fraction + 1);
        if field > 0 {
            let p = pow2((field - 1) as nat);
            lemma_pow2_pos((field - 1) as nat);
            assert((0x10_0000_0000_0000 + fraction) * p < (0x10_0000_0000_0000 + fraction + 1) * p) by (nonlinear_arith)
                requires
                    p > 0,
            ;
        }
    } else {
        assert((m + 1) / 0x10_0000_0000_0000 == field + 1 && (m + 1) % 0x10_0000_0000_0000 == 0);
        lemma_pow2_pos(field as nat);
        if field > 0 {
            lemma_pow2_unfold(field as nat);
            lemma_pow2_pos((field - 1) as nat);
            let p = pow2((field - 1) as nat);
            assert((0x10_0000_0000_0000 + fraction) * p < 0x10_0000_0000_0000 * (2 * p)) by (nonlinear_arith)
                requires
                    fraction < 0x10_0000_0000_0000,
                    p > 0,
            ;
            assert(units(m + 1) == 0x10_0000_0000_0000 * pow2(field as nat));
        } else {
            assert(pow2(0) == 1) by {
                vstd::arithmetic::power2::lemma2_to64();
            }
            assert(units(m + 1) == 0x10_0000_0000_0000 * pow2(0));
        }
    }
}

/// Larger magnitudes are larger numbers.
pub proof fn magnitudes_are_ordered(a: int, b: int)
    requires
        0 <= a < b,
    ensures
        units(a) < units(b),
    decreases b - a,
{
    lemma_next_is_larger(b - 1);
    if a < b - 1 {
        magnitudes_are_ordered(a, b - 1);
    }
}

/// There is one nearest magnitude, not two.
pub proof fn nearest_is_unique(a: int, b: int, num: nat, den: nat)
    requires
        den > 0,
        is_nearest(a, num, den),
        is_nearest(b, num, den),
    ensures
        a == b,
{
    if a < b {
        lemma_not_both_nearest(a, b, num, den);
    } else if b < a {
        lemma_not_both_nearest(b, a, num, den);
    }
}

proof fn lemma_not_both_nearest(a: int, b: int, num: nat, den: nat)
    requires
        den > 0,
        a < b,
    ensures
        !(is_nearest(a, num, den) && is_nearest(b, num, den)),
{
    if b > a + 1 && a >= 0 {
        magnitudes_are_ordered(a, b - 1);
        magnitudes_are_ordered(a + 1, b);
        let p = units(a) + units(a + 1);
        let q = units(b - 1) + units(b);
        assert(p * den < q * den) by (nonlinear_arith)
            requires
                p < q,
                den > 0,
        ;
    }
}

proof fn lemma_nearest_is(m: int, num: nat, den: nat)
    requires
        den > 0,
        is_nearest(m, num, den),
    ensures
        nearest(num, den) == m,
{
    nearest_is_unique(nearest(num, den), m, num, den);
}

proof fn lemma_some_is_nearest(m: int, num: nat, den: nat)
    requires
        den > 0,
        0 <= m <= INFINITE,
        m > 0 ==> {
            let middle = units(m - 1) + units(m);
            2 * num > middle * den || (2 * num == middle * den && m % 2 == 0)
        },
    ensures
        exists|k: int| is_nearest(k, num, den),
    decreases INFINITE - m,
{
    if !is_nearest(m, num, den) {
        lemma_some_is_nearest(m + 1, num, den);
    }
}

/// There is a nearest magnitude to every size.
pub proof fn nearest_is_nearest(num: nat, den: nat)
    requires
        den > 0,
    ensures
        is_nearest(nearest(num, den), num, den),
{
    lemma_some_is_nearest(0, num, den);
}

/// Rounding passes no magnitude: what is at least as large as a number stays so.
pub proof fn rounding_keeps_at_least(m: int, num: nat, den: nat)
    requires
        den > 0,
        0 <= m <= INFINITE,
        units(m) * den <= num,
    ensures
        m <= nearest(num, den),
{
    nearest_is_nearest(num, den);
    let k = nearest(num, den);
    if k < m {
        lemma_next_is_larger(k);
        if k + 1 < m {
            magnitudes_are_ordered(k + 1, m);
        }
        let low = units(k);
        let high = units(k + 1);
        let top = units(m);
        assert((low + high) * den < 2 * (top * den)) by (nonlinear_arith)
            requires
                low < high <= top,
                den > 0,
        ;
    }
}

/// Rounding passes no magnitude: what is at most as large as a number stays so.
pub proof fn rounding_keeps_at_most(m: int, num: nat, den: nat)
    requires
        den > 0,
        0 <= m <= INFINITE,
        num <= units(m) * den,
    ensures
        nearest(num, den) <= m,
{
    nearest_is_nearest(num, den);
    let k = nearest(num, den);
    if k > m {
        lemma_next_is_larger(k - 1);
        if k - 1 > m {
            magnitudes_are_ordered(m, k - 1);
        }
        let low = units(k - 1);
        let high = units(k);
        let bottom = units(m);
        assert((low + high) * den > 2 * (bottom * den)) by (nonlinear_arith)
            requires
                bottom <= low < high,
                den > 0,
        ;
    }
}

/// Rounding keeps the order of sizes.
pub proof fn rounding_keeps_order(a: nat, b: nat, den: nat)
    requires
        den > 0,
        a <= b,
    ensures
        nearest(a, den) <= nearest(b, den),
{
    nearest_is_nearest(a, den);
    nearest_is_nearest(b, den);
    let j = nearest(a, den);
    let k = nearest(b, den);
    if k < j {
        if k + 1 < j {
            magnitudes_are_ordered(k + 1, j);
            magnitudes_are_ordered(k, j - 1);
        }
        let low = units(k) + units(k + 1);
        let high = units(j - 1) + units(j);
        assert(low * den <= high * den) by (nonlinear_arith)
            requires
                low <= high,
        ;
        assert(a == b);
    }
}

/// Adding what is not below zero gives no smaller number.
pub proof fn sum_is_at_least(x: Double, s: Double)
    requires
        !x.nan(),
        !s.nan() && !s.negative() && !s.infinite(),
    ensures
        x.at_most(x.sum(s)),
{
    if !x.infinite() {
        let v = x.value() + s.value();
        if v < 0 {
            rounding_keeps_at_most(x.magnitude(), (-v) as nat, 1);
            let k = nearest((-v) as nat, 1);
            nearest_is_nearest((-v) as nat, 1);
            if k < x.magnitude() {
                magnitudes_are_ordered(k, x.magnitude());
            }
        } else if v > 0 {
            let k = nearest(v as nat, 1);
            nearest_is_nearest(v as nat, 1);
            if !x.negative() {
                rounding_keeps_at_least(x.magnitude(), v as nat, 1);
                if k > x.magnitude() {
                    magnitudes_are_ordered(x.magnitude(), k);
                }
            }
        } else {
            assert(units(0) == 0);
        }
    }
}

pub(crate) proof fn lemma_units_of(e: int, q: int)
    requires
        e >= 0,
        0 <= q <= 0x20_0000_0000_0000,
        e == 0 || q >= 0x10_0000_0000_0000,
    ensures
        units(e * 0x10_0000_0000_0000 + q) == q * pow2(e as nat),
{
    let m = e * 0x10_0000_0000_0000 + q;
    assert(pow2(0) == 1) by {
        vstd::arithmetic::power2::lemma2_to64();
    }
    if q < 0x10_0000_0000_0000 {
        assert(m / 0x10_0000_0000_0000 == 0 && m % 0x10_0000_0000_0000 == q);
        assert(q * pow2(0) == q);
    } else if q < 0x20_0000_0000_0000 {
        assert(m / 0x10_0000_0000_0000 == e + 1 && m % 0x10_0000_0000_0000 == q - 0x10_0000_0000_0000);
    } else {
        assert(m / 0x10_0000_0000_0000 == e + 2 && m % 0x10_0000_0000_0000 == 0);
        lemma_pow2_unfold((e + 1) as nat);
        let p = pow2(e as nat);
        assert(0x10_0000_0000_0000 * (2 * p) == 0x20_0000_0000_0000 * p) by (nonlinear_arith);
        assert(units(m) == 0x10_0000_0000_0000 * pow2((e + 1) as nat));
    }
}

/// The bits of two.
pub const TWO: u64 = 0x4000_0000_0000_0000;

impl Double {
    /// Whether this is a number of at most `2^k`, whatever its sign.
    pub open spec fn within(self, k: nat) -> bool {
        !self.nan() && self.size() <= pow2(1074 + k)
    }
}

pub(crate) proof fn lemma_power_magnitude(k: nat)
    requires
        k <= 1000,
    ensures
        units((1023 + k as int) * 0x10_0000_0000_0000) == pow2(1074 + k),
        (1023 + k) * 0x10_0000_0000_0000 < INFINITE,
{
    lemma_units_of(1022 + k as int, 0x10_0000_0000_0000);
    lemma_pow2_adds(1022 + k, 52);
    assert(pow2(52) == 0x10_0000_0000_0000) by {
        vstd::arithmetic::power2::lemma2_to64_rest();
    }
    assert(0x10_0000_0000_0000 * pow2(1022 + k) == pow2(1022 + k) * pow2(52)) by (nonlinear_arith)
        requires
            pow2(52) == 0x10_0000_0000_0000,
    ;
}

pub(crate) proof fn lemma_rounded_within(negative: bool, num: nat, den: nat, k: nat)
    requires
        den > 0,
        k <= 1000,
        num <= pow2(1074 + k) * den,
    ensures
        of_parts(negative, nearest(num, den)).within(k),
        !of_parts(negative, nearest(num, den)).infinite(),
        of_parts(negative, nearest(num, den)).negative() == negative,
{
    lemma_power_magnitude(k);
    let top = (1023 + k as int) * 0x10_0000_0000_0000;
    rounding_keeps_at_most(top, num, den);
    nearest_is_nearest(num, den);
    let m = nearest(num, den);
    if m < top {
        magnitudes_are_ordered(m, top);
    }
}

pub(crate) proof fn lemma_within_is_finite(x: Double, k: nat)
    requires
        x.within(k),
        k <= 1000,
    ensures
        !x.infinite(),
{
    lemma_power_magnitude(k);
    if x.infinite() {
        magnitudes_are_ordered((1023 + k as int) * 0x10_0000_0000_0000, INFINITE as int);
    }
}

/// A number whose magnitude is at most that of `2^k` is at most `2^k`.
pub proof fn magnitude_is_within(x: Double, k: nat)
    requires
        k <= 1000,
        x.magnitude() <= (1023 + k) * 0x10_0000_0000_0000,
    ensures
        x.within(k),
{
    lemma_power_magnitude(k);
    if x.magnitude() < (1023 + k) * 0x10_0000_0000_0000 {
        magnitudes_are_ordered(x.magnitude(), (1023 + k as int) * 0x10_0000_0000_0000);
    }
}

/// The sum of a finite number and another is a number.
pub proof fn sum_is_a_number(a: Double, b: Double)
    requires
        !a.nan() && !a.infinite(),
        !b.nan(),
    ensures
        !a.sum(b).nan(),
{
    let v = a.value() + b.value();
    nearest_is_nearest((-v) as nat, 1);
    nearest_is_nearest(v as nat, 1);
}

/// A finite single precision number keeps its sign and stays finite.
pub proof fn single_is_kept(x: Single)
    requires
        !x.nan() && !x.infinite(),
    ensures
        !of_single(x).nan() && !of_single(x).infinite(),
        of_single(x).negative() == x.negative(),
{
    let m = x.magnitude();
    single::magnitudes_are_ordered(m, single::INFINITE as int);
    let top = single::units(single::INFINITE as int);
    lemma_pow2_adds(254, 23);
    assert(pow2(23) == 0x80_0000) by {
        vstd::arithmetic::power2::lemma2_to64();
    }
    assert(top == pow2(277)) by {
        assert(single::INFINITE as int / 0x80_0000 == 255);
        assert(0x80_0000 * pow2(254) == pow2(254) * pow2(23)) by (nonlinear_arith)
            requires
                pow2(23) == 0x80_0000,
        ;
    }
    lemma_pow2_adds(277, 925);
    let p = pow2(925);
    let size = x.size();
    assert(size * p <= (top * p) * 1) by (nonlinear_arith)
        requires
            size <= top,
    ;
    lemma_rounded_within(x.negative(), size * p, 1, 128);
}

/// A whole number of at most `2^k` stays so.
pub proof fn whole_is_within(n: nat, k: nat)
    requires
        n <= pow2(k),
        k <= 1000,
    ensures
        of_whole(n).within(k),
        !of_whole(n).infinite() && !of_whole(n).negative(),
{
    lemma_pow2_adds(1074, k);
    let u = pow2(1074);
    let p = pow2(k);
    assert(n * u <= (u * p) * 1) by (nonlinear_arith)
        requires
            n <= p,
    ;
    lemma_rounded_within(false, n * u, 1, k);
}

/// A product of bounded numbers is bounded.
pub proof fn product_is_within(a: Double, b: Double, i: nat, j: nat)
    requires
        a.within(i),
        b.within(j),
        i + j <= 1000,
    ensures
        a.product(b).within(i + j),
        !a.product(b).infinite(),
        a.product(b).negative() == (a.negative() != b.negative()),
{
    lemma_within_is_finite(a, i);
    lemma_within_is_finite(b, j);
    let u = pow2(1074);
    lemma_pow2_pos(1074);
    lemma_pow2_adds(1074 + i, 1074 + j);
    lemma_pow2_adds(1074 + (i + j), 1074);
    let x = a.size();
    let y = b.size();
    let p = pow2(1074 + i);
    let q = pow2(1074 + j);
    assert(x * y <= p * q) by (nonlinear_arith)
        requires
            x <= p,
            y <= q,
    ;
    assert(1074 + i + (1074 + j) == 1074 + (i + j) + 1074);
    lemma_rounded_within(a.negative() != b.negative(), x * y, u, i + j);
}

/// A sum of bounded numbers is bounded.
pub proof fn sum_is_within(a: Double, b: Double, k: nat)
    requires
        a.within(k),
        b.within(k),
        k < 1000,
    ensures
        a.sum(b).within(k + 1),
        !a.sum(b).infinite(),
{
    lemma_within_is_finite(a, k);
    lemma_within_is_finite(b, k);
    lemma_pow2_unfold(1074 + k + 1);
    lemma_pow2_pos(1074 + (k + 1));
    let v = a.value() + b.value();
    if v < 0 {
        lemma_rounded_within(true, (-v) as nat, 1, k + 1);
    } else if v > 0 {
        lemma_rounded_within(false, v as nat, 1, k + 1);
    } else {
        assert(units(0) == 0);
    }
}

/// Half of a bounded number is bounded.
pub proof fn half_is_within(a: Double, k: nat)
    requires
        a.within(k),
        k <= 1000,
    ensures
        a.quotient(Double { bits: TWO }).within(k),
        !a.quotient(Double { bits: TWO }).infinite(),
{
    lemma_within_is_finite(a, k);
    lemma_power_magnitude(1);
    assert(units(TWO as int) == pow2(1075));
    lemma_pow2_pos(1075);
    lemma_pow2_unfold(1075);
    let two = pow2(1075);
    let u = pow2(1074);
    let x = a.size();
    let p = pow2(1074 + k);
    assert(x * u <= p * two) by (nonlinear_arith)
        requires
            x <= p,
            u <= two,
    ;
    lemma_rounded_within(a.negative(), x * u, two, k);
}

proof fn lemma_same_size(n: nat, e: nat) -> (m: int)
    requires
        n < 0x20_0000_0000_0000,
        e <= 2045,
    ensures
        0 <= m < INFINITE,
        units(m) == n * pow2(e),
    decreases e,
{
    if n >= 0x10_0000_0000_0000 || e == 0 {
        lemma_units_of(e as int, n as int);
        e as int * 0x10_0000_0000_0000 + n as int
    } else {
        lemma_pow2_unfold(e);
        let p = pow2((e - 1) as nat);
        assert((2 * n) * p == n * (2 * p)) by (nonlinear_arith);
        lemma_same_size(2 * n, (e - 1) as nat)
    }
}

/// A whole number of at most 53 bits is not rounded.
pub proof fn whole_is_exact(n: nat)
    requires
        n < 0x20_0000_0000_0000,
    ensures
        of_whole(n).size() == n * pow2(1074),
        !of_whole(n).negative() && !of_whole(n).nan() && !of_whole(n).infinite(),
        n > 0 ==> of_whole(n).magnitude() > 0,
{
    let m = lemma_same_size(n, 1074);
    lemma_next_is_larger(m);
    if m > 0 {
        lemma_next_is_larger(m - 1);
    }
    lemma_nearest_is(m, n * pow2(1074), 1);
    if n > 0 {
        let u = pow2(1074);
        lemma_pow2_pos(1074);
        assert(n * u > 0) by (nonlinear_arith)
            requires
                n > 0,
                u > 0,
        ;
        assert(units(0) == 0);
    }
}

/// What is rounded to a number of full precision changes by at most its `2^53`th
/// part.
pub proof fn rounding_error(m: int, num: nat, den: nat)
    requires
        den > 0,
        0x10_0000_0000_0000 <= m < INFINITE,
        is_nearest(m, num, den),
    ensures
        0x20_0000_0000_0000 * num <= 0x20_0000_0000_0001 * (units(m) * den),
        0x20_0000_0000_0000 * num >= 0x1f_ffff_ffff_ffff * (units(m) * den),
{
    let field = m / 0x10_0000_0000_0000;
    let fraction = m % 0x10_0000_0000_0000;
    let q = 0x10_0000_0000_0000 + fraction;
    let e = field - 1;
    let p = pow2(e as nat);
    let u = units(m);
    lemma_pow2_pos(e as nat);
    assert(m == e * 0x10_0000_0000_0000 + q);
    lemma_units_of(e, q + 1);
    assert((q + 1) * p == q * p + p) by (nonlinear_arith);
    assert(units(m + 1) == u + p);
    assert(0x10_0000_0000_0000 * p <= q * p) by (nonlinear_arith)
        requires
            q >= 0x10_0000_0000_0000,
    ;
    assert((u + (u + p)) * den == 2 * (u * den) + p * den) by (nonlinear_arith);
    assert(0x10_0000_0000_0000 * (p * den) <= u * den) by (nonlinear_arith)
        requires
            0x10_0000_0000_0000 * p <= u,
    ;
    if fraction > 0 || e == 0 {
        lemma_units_of(e, q - 1);
        assert((q - 1) * p == q * p - p) by (nonlinear_arith);
        assert(units(m - 1) == u - p);
        let before = (u - p) as nat;
        assert((before + u) * den == 2 * (u * den) - p * den) by (nonlinear_arith)
            requires
                before == u - p,
        ;
    } else {
        lemma_units_of(e - 1, 0x1f_ffff_ffff_ffff);
        lemma_pow2_unfold(e as nat);
        let r = pow2((e - 1) as nat);
        assert(m - 1 == (e - 1) * 0x10_0000_0000_0000 + 0x1f_ffff_ffff_ffff);
        let before = units(m - 1);
        assert(before + r == u) by (nonlinear_arith)
            requires
                before == 0x1f_ffff_ffff_ffff * r,
                p == 2 * r,
                u == q * p,
                q == 0x10_0000_0000_0000,
        ;
        assert((before + u) * den >= 2 * (u * den) - p * den) by (nonlinear_arith)
            requires
                before + r == u,
                p == 2 * r,
        ;
    }
}

/// A ratio of whole numbers lies next to what it would be without rounding.
proof fn lemma_ratio_error(n: u32, d: u32)
    requires
        n > 0 && d > 0,
    ensures
        ({
            let r = of_whole(n as nat).quotient(of_whole(d as nat));
            let a = r.size();
            &&& !r.nan() && !r.negative() && !r.infinite() && r.magnitude() > 0
            &&& 0x20_0000_0000_0000 * (n * pow2(1074)) <= 0x20_0000_0000_0001 * (a * d)
            &&& 0x20_0000_0000_0000 * (n * pow2(1074)) >= 0x1f_ffff_ffff_ffff * (a * d)
            &&& 0x10_0000_0000_0000 <= a <= pow2(1074) * 0x1_0000_0000
            &&& pow2(1074) <= a * 0x2_0000_0000
        }),
{
    let u = pow2(1074);
    lemma_pow2_pos(1074);
    whole_is_exact(n as nat);
    whole_is_exact(d as nat);
    let num = (n as nat * u) * u;
    let den = d as nat * u;
    assert(den > 0) by (nonlinear_arith)
        requires
            den == d as nat * u,
            d > 0,
            u > 0,
    ;
    lemma_pow2_adds(1074, 32);
    assert(pow2(32) == 0x1_0000_0000) by {
        vstd::arithmetic::power2::lemma2_to64();
    }
    let top = pow2(1106);
    assert(num <= top * den) by (nonlinear_arith)
        requires
            num == (n as nat * u) * u,
            den == d as nat * u,
            top == u * 0x1_0000_0000,
            n <= 0xffff_ffff,
            d >= 1,
    {
        assert(n * u <= top * d);
        assert((n * u) * u <= (top * d) * u);
    }
    lemma_rounded_within(false, num, den, 32);
    let m = nearest(num, den);
    nearest_is_nearest(num, den);
    lemma_units_of(0, 0x10_0000_0000_0000);
    assert(units(0x10_0000_0000_0000) == 0x10_0000_0000_0000) by {
        vstd::arithmetic::power2::lemma2_to64();
    }
    assert(u >= 0x1_0000_0000_0000_0000_0000_0000_0000) by {
        vstd::arithmetic::power2::lemma2_to64_rest();
        lemma_pow2_adds(64, 48);
        lemma_pow2_strictly_increases(112, 1074);
    }
    assert(0x10_0000_0000_0000 * den <= num) by (nonlinear_arith)
        requires
            num == (n as nat * u) * u,
            den == d as nat * u,
            u >= 0x1_0000_0000_0000_0000_0000_0000_0000,
            n >= 1,
            d <= 0xffff_ffff,
    {
        assert(0x10_0000_0000_0000 * d <= u);
        assert(u <= n * u);
        assert((0x10_0000_0000_0000 * d) * u <= (n * u) * u);
    }
    rounding_keeps_at_least(0x10_0000_0000_0000, num, den);
    rounding_error(m, num, den);
    let a = units(m);
    if m > 0x10_0000_0000_0000 {
        magnitudes_are_ordered(0x10_0000_0000_0000, m);
    }
    let f: int = 0x20_0000_0000_0000;
    let over: int = 0x20_0000_0000_0001;
    let under: int = 0x1f_ffff_ffff_ffff;
    assert(f * (n * u) <= over * (a * d) && f * (n * u) >= under * (a * d)) by (nonlinear_arith)
        requires
            f * num <= over * (a * den),
            f * num >= under * (a * den),
            num == (n as nat * u) * u,
            den == d as nat * u,
            u > 0,
    {
        assert(f * num == (f * (n * u)) * u);
        assert(over * (a * den) == (over * (a * d)) * u);
        assert(under * (a * den) == (under * (a * d)) * u);
    }
    assert(m > 0);
    assert(u <= a * 0x2_0000_0000) by (nonlinear_arith)
        requires
            f * (n * u) <= over * (a * d),
            f == 0x20_0000_0000_0000,
            over == 0x20_0000_0000_0001,
            n >= 1,
            u > 0,
            a >= 0,
            0 < d <= 0xffff_ffff,
    {
        assert(n * u >= u);
        assert(a * d <= a * 0xffff_ffff);
    }
}

/// A multiple of a ratio of whole numbers lies next to what it would be without
/// rounding.
pub proof fn scaled_ratio_error(k: u32, n: u32, d: u32)
    requires
        k > 0 && n > 0 && d > 0,
    ensures
        ({
            let r = of_whole(k as nat).product(of_whole(n as nat).quotient(of_whole(d as nat)));
            let exact = (k * n) * pow2(1074);
            &&& !r.nan() && !r.negative() && !r.infinite()
            &&& 0x20_0000_0000_0000 * (0x20_0000_0000_0000 * exact) <= 0x20_0000_0000_0001 * (
            0x20_0000_0000_0001 * (r.size() * d))
            &&& 0x20_0000_0000_0000 * (0x20_0000_0000_0000 * exact) >= 0x1f_ffff_ffff_ffff * (
            0x1f_ffff_ffff_ffff * (r.size() * d))
        }),
{
    let u = pow2(1074);
    lemma_pow2_pos(1074);
    whole_is_exact(k as nat);
    lemma_ratio_error(n, d);
    let a = of_whole(n as nat).quotient(of_whole(d as nat)).size();
    let top = u * 0x1_0000_0000;
    let f: int = 0x20_0000_0000_0000;
    let over: int = 0x20_0000_0000_0001;
    let under: int = 0x1f_ffff_ffff_ffff;
    lemma_units_of(0, 0x10_0000_0000_0000);
    assert(units(0x10_0000_0000_0000) == 0x10_0000_0000_0000) by {
        vstd::arithmetic::power2::lemma2_to64();
    }
    // The multiple.
    let num2 = (k as nat * u) * a;
    lemma_pow2_adds(1074, 64);
    assert(pow2(64) == 0x1_0000_0000_0000_0000) by {
        vstd::arithmetic::power2::lemma2_to64_rest();
    }
    let top2 = pow2(1138);
    assert(num2 <= top2 * u) by (nonlinear_arith)
        requires
            num2 == (k as nat * u) * a,
            a <= top,
            top == u * 0x1_0000_0000,
            top2 == u * 0x1_0000_0000_0000_0000,
            k <= 0xffff_ffff,
    {
        assert(k * a <= 0x1_0000_0000 * top);
        assert(num2 == (k * a) * u);
    }
    lemma_rounded_within(false, num2, u, 64);
    let m2 = nearest(num2, u);
    nearest_is_nearest(num2, u);
    assert(0x10_0000_0000_0000 * u <= num2) by (nonlinear_arith)
        requires
            num2 == (k as nat * u) * a,
            k >= 1,
            a >= 0x10_0000_0000_0000,
    ;
    rounding_keeps_at_least(0x10_0000_0000_0000, num2, u);
    rounding_error(m2, num2, u);
    let b = units(m2);
    let ka = k * a;
    assert(f * ka <= over * b && f * ka >= under * b) by (nonlinear_arith)
        requires
            f * num2 <= over * (b * u),
            f * num2 >= under * (b * u),
            num2 == (k as nat * u) * a,
            ka == k * a,
            u > 0,
    {
        assert(f * num2 == (f * ka) * u);
        assert(over * (b * u) == (over * b) * u);
        assert(under * (b * u) == (under * b) * u);
    }
    let exact = (k * n) * u;
    assert(f * exact <= over * (ka * d) && f * exact >= under * (ka * d)) by (nonlinear_arith)
        requires
            f * (n * u) <= over * (a * d),
            f * (n * u) >= under * (a * d),
            exact == (k * n) * u,
            ka == k * a,
            k > 0,
    {
        assert(f * exact == (f * (n * u)) * k);
        assert(over * (ka * d) == (over * (a * d)) * k);
        assert(under * (ka * d) == (under * (a * d)) * k);
    }
    assert(f * (ka * d) <= over * (b * d) && f * (ka * d) >= under * (b * d)) by (nonlinear_arith)
        requires
            f * ka <= over * b,
            f * ka >= under * b,
            d > 0,
    {
        assert(f * (ka * d) == (f * ka) * d);
        assert(over * (b * d) == (over * b) * d);
        assert(under * (b * d) == (under * b) * d);
    }
    assert(f * (over * (ka * d)) == over * (f * (ka * d))) by (nonlinear_arith);
    assert(f * (under * (ka * d)) == under * (f * (ka * d))) by (nonlinear_arith);
}

/// A whole number divided by a ratio of whole numbers lies next to what it would be
/// without rounding.
pub proof fn divided_ratio_error(k: u32, n: u32, d: u32)
    requires
        k > 0 && n > 0 && d > 0,
    ensures
        ({
            let r = of_whole(k as nat).quotient(of_whole(n as nat).quotient(of_whole(d as nat)));
            let exact = (k * d) * pow2(1074);
            &&& !r.nan() && !r.negative() && !r.infinite()
            &&& 0x1f_ffff_ffff_ffff * (r.size() * n) <= 0x20_0000_0000_0001 * exact
            &&& 0x20_0000_0000_0001 * (r.size() * n) >= 0x1f_ffff_ffff_ffff * exact
        }),
{
    let u = pow2(1074);
    lemma_pow2_pos(1074);
    whole_is_exact(k as nat);
    lemma_ratio_error(n, d);
    let a = of_whole(n as nat).quotient(of_whole(d as nat)).size();
    let f: int = 0x20_0000_0000_0000;
    let over: int = 0x20_0000_0000_0001;
    let under: int = 0x1f_ffff_ffff_ffff;
    lemma_units_of(0, 0x10_0000_0000_0000);
    assert(units(0x10_0000_0000_0000) == 0x10_0000_0000_0000) by {
        vstd::arithmetic::power2::lemma2_to64();
    }
    let num = (k as nat * u) * u;
    lemma_pow2_adds(1074, 66);
    assert(pow2(66) == 0x4_0000_0000_0000_0000) by {
        vstd::arithmetic::power2::lemma2_to64_rest();
        lemma_pow2_adds(64, 2);
        vstd::arithmetic::power2::lemma2_to64();
    }
    let top = pow2(1140);
    assert(num <= top * a) by (nonlinear_arith)
        requires
            num == (k as nat * u) * u,
            top == u * 0x4_0000_0000_0000_0000,
            u <= a * 0x2_0000_0000,
            k <= 0xffff_ffff,
            u > 0,
    {
        assert(k * u <= 0x2_0000_0000 * u);
        assert((k * u) * u <= (0x2_0000_0000 * u) * (a * 0x2_0000_0000));
        assert((0x2_0000_0000 * u) * (a * 0x2_0000_0000) == (u * 0x4_0000_0000_0000_0000) * a);
    }
    lemma_rounded_within(false, num, a, 66);
    assert(u >= 0x1_0000_0000_0000_0000_0000_0000_0000) by {
        vstd::arithmetic::power2::lemma2_to64_rest();
        lemma_pow2_adds(64, 48);
        lemma_pow2_strictly_increases(112, 1074);
    }
    assert(0x10_0000_0000_0000 * a <= num) by (nonlinear_arith)
        requires
            num == (k as nat * u) * u,
            a <= u * 0x1_0000_0000,
            u >= 0x1_0000_0000_0000_0000_0000_0000_0000,
            k >= 1,
    {
        assert(u <= k * u);
        assert(u * u <= (k * u) * u);
        assert(0x10_0000_0000_0000 * a <= 0x10_0000_0000_0000_0000_0000 * u);
        assert(0x10_0000_0000_0000_0000_0000 * u <= u * u);
    }
    let m = nearest(num, a);
    nearest_is_nearest(num, a);
    rounding_keeps_at_least(0x10_0000_0000_0000, num, a);
    rounding_error(m, num, a);
    let b = units(m);
    let exact = (k * d) * u;
    let ba = b * a;
    let bn = b * n;
    // `under * f * n * u * b` lies below `over * f * k * u * u * d`, and so on.
    assert(f * (bn * u) <= over * (ba * d) && f * (bn * u) >= under * (ba * d)) by (nonlinear_arith)
        requires
            f * (n * u) <= over * (a * d),
            f * (n * u) >= under * (a * d),
            bn == b * n,
            ba == b * a,
            b >= 0,
    {
        assert(f * (bn * u) == b * (f * (n * u)));
        assert(over * (ba * d) == b * (over * (a * d)));
        assert(under * (ba * d) == b * (under * (a * d)));
    }
    assert(f * (exact * u) <= over * (ba * d) && f * (exact * u) >= under * (ba * d))
        by (nonlinear_arith)
        requires
            f * num <= over * ba,
            f * num >= under * ba,
            num == (k as nat * u) * u,
            exact == (k * d) * u,
            d > 0,
    {
        assert(f * (exact * u) == (f * num) * d);
        assert(over * (ba * d) == (over * ba) * d);
        assert(under * (ba * d) == (under * ba) * d);
    }
    let c = ba * d;
    let (p, q) = (bn * u, exact * u);
    assert(under * p <= over * q && over * p >= under * q) by (nonlinear_arith)
        requires
            f * p <= over * c,
            f * p >= under * c,
            f * q <= over * c,
            f * q >= under * c,
            f == 0x20_0000_0000_0000,
            over == 0x20_0000_0000_0001,
            under == 0x1f_ffff_ffff_ffff,
    {
        assert(under * (f * p) <= over * (f * q)) by {
            assert(under * (f * p) <= under * (over * c));
            assert(over * (under * c) <= over * (f * q));
        }
        assert(over * (f * p) >= under * (f * q)) by {
            assert(over * (f * p) >= over * (under * c));
            assert(under * (over * c) >= under * (f * q));
        }
    }
    assert(under * bn <= over * exact && over * bn >= under * exact) by (nonlinear_arith)
        requires
            under * p <= over * q,
            over * p >= under * q,
            p == bn * u,
            q == exact * u,
            u > 0,
    {
        assert(under * p == (under * bn) * u);
        assert(over * q == (over * exact) * u);
        assert(over * p == (over * bn) * u);
        assert(under * q == (under * exact) * u);
    }
}

/// The arithmetic of rounding: between twice `num` and what the rounded mantissa
/// `q` and its neighbours stand for.
proof fn lemma_rounded_mantissa(s: int, half: bool, rest: bool, q: int, num: nat, den: nat, e: int)
    requires
        den > 0,
        e >= 0,
        s >= 0,
        q == if half && (rest || s % 2 == 1) {
            s + 1
        } else {
            s
        },
        ({
            let x = 2 * s + if half {
                1int
            } else {
                0
            };
            let h = pow2((e + 1199) as nat) * den;
            &&& x * h <= num * pow2(1200) < (x + 1) * h
            &&& rest <==> x * h != num * pow2(1200)
        }),
    ensures
        2 * num <= (2 * q + 1) * (pow2(e as nat) * den),
        2 * num == (2 * q + 1) * (pow2(e as nat) * den) ==> q % 2 == 0 && q == s,
        2 * num >= (2 * q - 1) * (pow2(e as nat) * den),
        2 * num == (2 * q - 1) * (pow2(e as nat) * den) ==> q % 2 == 0,
        q == s ==> num >= q * (pow2(e as nat) * den),
{
    let h = pow2((e + 1199) as nat) * den;
    let p = pow2(1200);
    let d = pow2(e as nat) * den;
    let n = num * p;
    lemma_pow2_pos(1200);
    lemma_pow2_pos((e + 1199) as nat);
    lemma_pow2_unfold((e + 1200) as nat);
    lemma_pow2_adds(e as nat, 1200);
    let pe = pow2(e as nat);
    let ph = pow2((e + 1199) as nat);
    assert(h > 0) by (nonlinear_arith)
        requires
            h == ph * den,
            ph > 0,
            den > 0,
    ;
    assert(2 * h == d * p) by (nonlinear_arith)
        requires
            2 * ph == pe * p,
            h == ph * den,
            d == pe * den,
    ;
    let x = 2 * s + if half {
        1int
    } else {
        0
    };
    assert((x + 1) * h == x * h + h) by (nonlinear_arith);
    assert(x * h == 2 * s * h + if half {
        h as int
    } else {
        0
    }) by (nonlinear_arith)
        requires
            x == 2 * s + if half {
                1int
            } else {
                0
            },
    ;
    assert((2 * q + 1) * h == 2 * q * h + h) by (nonlinear_arith);
    assert((2 * q - 1) * h == 2 * q * h - h) by (nonlinear_arith);
    if q == s + 1 {
        assert(2 * q * h == 2 * s * h + 2 * h) by (nonlinear_arith)
            requires
                q == s + 1,
        ;
    }
    assert(n <= (2 * q + 1) * h);
    assert(n >= (2 * q - 1) * h);
    lemma_scale(2 * q + 1, num, d, p, h);
    lemma_scale(2 * q - 1, num, d, p, h);
    lemma_scale(2 * q, num, d, p, h);
    if q == s {
        assert(n >= 2 * q * h);
        assert(2 * num >= (2 * q) * d);
        assert((2 * q) * d == 2 * (q * d)) by (nonlinear_arith);
    }
}

proof fn lemma_scale(k: int, num: nat, d: nat, p: nat, h: nat)
    requires
        p > 0,
        2 * h == d * p,
    ensures
        num * p <= k * h <==> 2 * num <= k * d,
        num * p >= k * h <==> 2 * num >= k * d,
{
    assert(2 * (num * p) == (2 * num) * p) by (nonlinear_arith);
    assert(2 * (k * h) == (k * d) * p) by (nonlinear_arith)
        requires
            2 * h == d * p,
    ;
    let a = 2 * num;
    let b = k * d;
    assert(a * p <= b * p <==> a <= b) by (nonlinear_arith)
        requires
            p > 0,
    ;
    assert(a * p >= b * p <==> a >= b) by (nonlinear_arith)
        requires
            p > 0,
    ;
}

proof fn lemma_rounded_is_nearest(e: int, s: int, q: int, num: nat, den: nat)
    requires
        den > 0,
        e >= 0,
        0 <= s < 0x20_0000_0000_0000,
        q == s || q == s + 1,
        e > 0 ==> s >= 0x10_0000_0000_0000,
        e * 0x10_0000_0000_0000 + q <= INFINITE,
        2 * num <= (2 * q + 1) * (pow2(e as nat) * den),
        2 * num == (2 * q + 1) * (pow2(e as nat) * den) ==> q % 2 == 0 && q == s,
        2 * num >= (2 * q - 1) * (pow2(e as nat) * den),
        2 * num == (2 * q - 1) * (pow2(e as nat) * den) ==> q % 2 == 0,
        q == s ==> num >= q * (pow2(e as nat) * den),
    ensures
        is_nearest(e * 0x10_0000_0000_0000 + q, num, den),
{
    let m = e * 0x10_0000_0000_0000 + q;
    let p = pow2(e as nat);
    lemma_pow2_pos(e as nat);
    lemma_units_of(e, q);
    assert(p * den > 0) by (nonlinear_arith)
        requires
            p > 0,
            den > 0,
    ;
    assert(m % 2 == q % 2);
    // The next number.
    if q < 0x20_0000_0000_0000 {
        lemma_units_of(e, q + 1);
        assert((q * p + (q + 1) * p) * den == (2 * q + 1) * (p * den)) by (nonlinear_arith);
    } else {
        lemma_units_of(e + 1, 0x10_0000_0000_0001);
        lemma_pow2_unfold((e + 1) as nat);
        assert(m + 1 == (e + 1) * 0x10_0000_0000_0000 + 0x10_0000_0000_0001);
        assert((q * p + 0x10_0000_0000_0001 * (2 * p)) * den == (2 * q + 1) * (p * den) + p * den)
            by (nonlinear_arith)
            requires
                q == 0x20_0000_0000_0000,
        ;
    }
    // The number before.
    if m > 0 {
        if q > 0x10_0000_0000_0000 || e == 0 {
            lemma_units_of(e, q - 1);
            assert(((q - 1) * p + q * p) * den == (2 * q - 1) * (p * den)) by (nonlinear_arith);
        } else {
            lemma_units_of(e - 1, 0x1f_ffff_ffff_ffff);
            lemma_pow2_unfold(e as nat);
            let r = pow2((e - 1) as nat);
            lemma_pow2_pos((e - 1) as nat);
            assert(m - 1 == (e - 1) * 0x10_0000_0000_0000 + 0x1f_ffff_ffff_ffff);
            assert((0x1f_ffff_ffff_ffff * r + q * p) * den == (4 * q - 1) * (r * den)) by (nonlinear_arith)
                requires
                    q == 0x10_0000_0000_0000,
                    p == 2 * r,
            ;
            assert(2 * (q * (p * den)) == (4 * q) * (r * den)) by (nonlinear_arith)
                requires
                    p == 2 * r,
            ;
            assert((4 * q) * (r * den) > (4 * q - 1) * (r * den)) by (nonlinear_arith)
                requires
                    r > 0,
                    den > 0,
            ;
        }
    }
}

proof fn lemma_large_is_infinite(e: int, s: int, num: nat, den: nat)
    requires
        den > 0,
        e >= 2046,
        s >= 0x10_0000_0000_0000,
        num >= s * (pow2(e as nat) * den),
    ensures
        is_nearest(INFINITE as int, num, den),
{
    lemma_units_of(2045, 0x20_0000_0000_0000);
    lemma_units_of(2045, 0x1f_ffff_ffff_ffff);
    lemma_pow2_unfold(2046);
    if e > 2046 {
        lemma_pow2_strictly_increases(2046, e as nat);
    }
    let p = pow2(e as nat);
    let r = pow2(2045);
    assert(units(INFINITE as int) == 0x20_0000_0000_0000 * r);
    assert(units(INFINITE - 1) == 0x1f_ffff_ffff_ffff * r);
    lemma_pow2_pos(2045);
    assert(2 * num > (0x1f_ffff_ffff_ffff * r + 0x20_0000_0000_0000 * r) * den) by (nonlinear_arith)
        requires
            num >= s * (p * den),
            s >= 0x10_0000_0000_0000,
            p >= 2 * r,
            r > 0,
            den > 0,
    {
        assert(p * den >= 2 * (r * den));
        assert(s * (p * den) >= 0x10_0000_0000_0000 * (2 * (r * den)));
        assert(2 * num >= 0x40_0000_0000_0000 * (r * den));
        assert(r * den > 0);
        assert((0x1f_ffff_ffff_ffff * r + 0x20_0000_0000_0000 * r) * den == 0x3f_ffff_ffff_ffff * (r * den));
    }
}

proof fn lemma_power_bound(k: nat, n: nat)
    requires
        pow2(k) <= n,
        n < 0x1_0000_0000_0000_0000_0000_0000_0000_0000,
    ensures
        k < 128,
{
    if k >= 128 {
        assert(pow2(64) == 0x1_0000_0000_0000_0000) by {
            vstd::arithmetic::power2::lemma2_to64_rest();
        }
        lemma_pow2_adds(64, 64);
        assert(pow2(128) == 0x1_0000_0000_0000_0000nat * 0x1_0000_0000_0000_0000nat);
        if k > 128 {
            lemma_pow2_strictly_increases(128, k);
        }
    }
}

/// Rounds `num / den` units, of which `s * 2^e` is known and whether anything is
/// left beyond it.
fn round_to(s: u128, rest: bool, e: i32, num: Ghost<nat>, den: Ghost<nat>) -> (m: u64)
    requires
        den@ > 0,
        -1199 <= e <= 3200,
        rest ==> s >= 0x20_0000_0000_0000,
        s * (pow2((e + 1200) as nat) * den@) <= num@ * pow2(1200) < (s + 1) * (pow2((e + 1200) as nat)
            * den@),
        rest <==> s * (pow2((e + 1200) as nat) * den@) != num@ * pow2(1200),
    ensures
        m == nearest(num@, den@),
        is_nearest(m as int, num@, den@),
{
    let ghost num = num@;
    let ghost den = den@;
    let ghost n = num * pow2(1200);
    let mut s: u128 = s;
    let mut e: i32 = e;
    let mut half: bool = false;
    let mut rest: bool = rest;
    if rest {
        assert(s == 2 * (s / 2) + s % 2);
        half = s % 2 == 1;
        s = s / 2;
        e = e + 1;
        assert(e + 1199 == e - 1 + 1200);
    } else {
        while s < 0x10_0000_0000_0000 && e > 0
            invariant
                -1199 <= e <= 3200,
                s < 0x20_0000_0000_0000 || e <= 3200,
                s * (pow2((e + 1200) as nat) * den) == num * pow2(1200),
            decreases e,
        {
            proof {
                lemma_pow2_unfold((e + 1200) as nat);
                let p = pow2((e + 1199) as nat);
                assert((2 * s) * (p * den) == s * ((2 * p) * den)) by (nonlinear_arith);
            }
            s = 2 * s;
            e = e - 1;
        }
        proof {
            lemma_pow2_unfold((e + 1200) as nat);
            lemma_pow2_pos((e + 1199) as nat);
            let p = pow2((e + 1199) as nat);
            assert((2 * s) * (p * den) == s * ((2 * p) * den)) by (nonlinear_arith);
            assert((2 * s + 1) * (p * den) > (2 * s) * (p * den)) by (nonlinear_arith)
                requires
                    p > 0,
                    den > 0,
            ;
        }
    }
    let ghost first_s = s;
    let ghost first_e = e;
    assert(pow2(0) == 1) by {
        vstd::arithmetic::power2::lemma2_to64();
    }
    assert(s * pow2((e - first_e) as nat) == s) by {
        assert((e - first_e) as nat == 0);
        assert(s * 1 == s);
    }
    while s >= 0x20_0000_0000_0000 || e < 0
        invariant
            den > 0,
            n == num * pow2(1200),
            -1199 <= first_e <= 3201,
            first_e <= e <= 3330,
            s * pow2((e - first_e) as nat) <= first_s,
            e > 0 ==> s >= 0x10_0000_0000_0000,
            ({
                let x = 2 * s + if half {
                    1int
                } else {
                    0
                };
                let h = pow2((e + 1199) as nat) * den;
                &&& x * h <= n < (x + 1) * h
                &&& rest <==> x * h != n
            }),
        decreases
                (if e < 0 {
                    -e
                } else {
                    0
                }) + s,
    {
        proof {
            let k = (e - first_e) as nat;
            let p = pow2(k);
            lemma_pow2_unfold(k + 1);
            if s >= 0x20_0000_0000_0000 {
                assert(p <= s * p) by (nonlinear_arith)
                    requires
                        s >= 1,
                ;
                lemma_power_bound(k, first_s as nat);
            }
            assert((s as int / 2) * (2 * p) <= s * p) by (nonlinear_arith);
            let h = pow2((e + 1199) as nat) * den;
            let pe = pow2((e + 1199) as nat);
            lemma_pow2_unfold((e + 1200) as nat);
            assert(pow2((e + 1200) as nat) * den == 2 * h) by (nonlinear_arith)
                requires
                    pow2((e + 1200) as nat) == 2 * pe,
                    h == pe * den,
            ;
            lemma_pow2_pos((e + 1199) as nat);
            assert(h > 0) by (nonlinear_arith)
                requires
                    h == pe * den,
                    pe > 0,
                    den > 0,
            ;
            let x = 2 * s + if half {
                1int
            } else {
                0
            };
            let y = s as int;
            assert(x * h == 2 * (y * h) + if half {
                h as int
            } else {
                0
            }) by (nonlinear_arith)
                requires
                    x == 2 * y + if half {
                        1int
                    } else {
                        0
                    },
            ;
            assert((x + 1) * h == x * h + h) by (nonlinear_arith);
            assert(y * (2 * h) == 2 * (y * h)) by (nonlinear_arith);
            assert((y + 1) * (2 * h) == 2 * (y * h) + 2 * h) by (nonlinear_arith);
        }
        rest = rest || half;
        half = s % 2 == 1;
        s = s / 2;
        e = e + 1;
    }
    let up: bool = half && (rest || s % 2 == 1);
    let q: u64 = if up {
        s as u64 + 1
    } else {
        s as u64
    };
    proof {
        lemma_rounded_mantissa(s as int, half, rest, q as int, num, den, e as int);
    }
    if e >= 2046 {
        proof {
            let h = pow2((e + 1199) as nat) * den;
            let x = 2 * s + if half {
                1int
            } else {
                0
            };
            lemma_pow2_unfold((e + 1200) as nat);
            lemma_pow2_adds(e as nat, 1200);
            lemma_pow2_pos(1200);
            lemma_pow2_pos((e + 1199) as nat);
            let pe = pow2(e as nat);
            let ph = pow2((e + 1199) as nat);
            let p = pow2(1200);
            assert(2 * h == (pe * den) * p) by (nonlinear_arith)
                requires
                    2 * ph == pe * p,
                    h == ph * den,
            ;
            assert(x * h >= (2 * s) * h) by (nonlinear_arith)
                requires
                    x >= 2 * s,
                    h >= 0,
            ;
            lemma_scale(2 * s, num, pe * den, p, h);
            assert((2 * s) * (pe * den) == 2 * (s * (pe * den))) by (nonlinear_arith);
            lemma_large_is_infinite(e as int, s as int, num, den);
            lemma_nearest_is(INFINITE as int, num, den);
        }
        return INFINITE;
    }
    let m: u64 = e as u64 * 0x10_0000_0000_0000 + q;
    proof {
        assert(e * 0x10_0000_0000_0000 + q <= INFINITE) by {
            assert(e <= 2045 && q <= 0x20_0000_0000_0000);
        }
        lemma_rounded_is_nearest(e as int, s as int, q as int, num, den);
        lemma_nearest_is(m as int, num, den);
    }
    m
}

pub(crate) fn power(k: u32) -> (r: u128)
    requires
        k < 100,
    ensures
        r == pow2(k as nat),
        r <= 0x8_0000_0000_0000_0000_0000_0000,
{
    let mut r: u128 = 1;
    let mut i: u32 = 0;
    assert(pow2(0) == 1) by {
        vstd::arithmetic::power2::lemma2_to64();
    }
    while i < k
        invariant
            i <= k < 100,
            r == pow2(i as nat),
            r <= 0x8_0000_0000_0000_0000_0000_0000,
        decreases k - i,
    {
        proof {
            lemma_pow2_unfold((i + 1) as nat);
            assert(pow2(99) == 0x8_0000_0000_0000_0000_0000_0000) by {
                vstd::arithmetic::power2::lemma2_to64_rest();
                lemma_pow2_adds(49, 50);
            }
            if i + 1 < 99 {
                lemma_pow2_strictly_increases((i + 1) as nat, 99);
            }
        }
        r = 2 * r;
        i = i + 1;
    }
    r
}

/// Splits a finite magnitude into a mantissa of at most 53 bits and an exponent.
pub(crate) fn split(m: u64) -> (r: (u64, i32))
    requires
        m < INFINITE,
    ensures
        units(m as int) == r.0 * pow2(r.1 as nat),
        r.0 < 0x20_0000_0000_0000,
        0 <= r.1 <= 2045,
        r.1 > 0 ==> r.0 >= 0x10_0000_0000_0000,
        m > 0 ==> r.0 > 0,
{
    let field: u64 = m / 0x10_0000_0000_0000;
    let fraction: u64 = m % 0x10_0000_0000_0000;
    if field == 0 {
        proof {
            vstd::arithmetic::power2::lemma2_to64();
            assert(fraction * pow2(0) == fraction);
        }
        (fraction, 0)
    } else {
        (0x10_0000_0000_0000 + fraction, field as i32 - 1)
    }
}

proof fn lemma_one_part(a: nat, k: nat, den: nat)
    requires
        den > 0,
    ensures
        a * (pow2(k) * den) < (a + 1) * (pow2(k) * den),
{
    lemma_pow2_pos(k);
    let p = pow2(k);
    assert(a * (p * den) < (a + 1) * (p * den)) by (nonlinear_arith)
        requires
            p > 0,
            den > 0,
    ;
}

/// A number so much smaller than another that it does not change it in a sum.
proof fn lemma_absorbed(m: int, mantissa: int, e: int, small: nat, num: nat)
    requires
        0 <= m < INFINITE,
        units(m) == mantissa * pow2(e as nat),
        e >= 2,
        0x10_0000_0000_0000 <= mantissa < 0x20_0000_0000_0000,
        m == e * 0x10_0000_0000_0000 + mantissa,
        small < pow2((e - 2) as nat),
        num == units(m) + small || num == units(m) - small,
    ensures
        is_nearest(m, num, 1),
{
    let p = pow2(e as nat);
    let r = pow2((e - 1) as nat);
    let t = pow2((e - 2) as nat);
    lemma_pow2_unfold(e as nat);
    lemma_pow2_unfold((e - 1) as nat);
    lemma_units_of(e, mantissa + 1);
    assert((mantissa + 1) * p == mantissa * p + p) by (nonlinear_arith);
    if mantissa > 0x10_0000_0000_0000 {
        lemma_units_of(e, mantissa - 1);
        assert((mantissa - 1) * p == mantissa * p - p) by (nonlinear_arith);
    } else {
        lemma_units_of(e - 1, 0x1f_ffff_ffff_ffff);
        assert(m - 1 == (e - 1) * 0x10_0000_0000_0000 + 0x1f_ffff_ffff_ffff);
        assert(0x1f_ffff_ffff_ffff * r == mantissa * p - r) by (nonlinear_arith)
            requires
                p == 2 * r,
                mantissa == 0x10_0000_0000_0000,
        ;
    }
}

fn magnitude_of_sum(a: u64, b: u64, opposite: bool) -> (m: u64)
    requires
        b <= a < INFINITE,
        opposite ==> b < a,
        a > 0,
    ensures
        m == nearest(
            (units(a as int) + if opposite {
                -units(b as int)
            } else {
                units(b as int) as int
            }) as nat,
            1,
        ),
        0 <= m <= INFINITE,
{
    let (ma, ea) = split(a);
    let (mb, eb) = split(b);
    let ghost ua = units(a as int);
    let ghost ub = units(b as int);
    let ghost num = (ua + if opposite {
        -ub
    } else {
        ub as int
    }) as nat;
    proof {
        if b < a {
            magnitudes_are_ordered(b as int, a as int);
        }
        lemma_exponents_are_ordered(a as int, b as int);
        lemma_split_is(a as int, ma as int, ea as int);
        lemma_split_is(b as int, mb as int, eb as int);
        lemma_pow2_pos(eb as nat);
    }
    assert(eb <= ea);
    let d: u32 = (ea - eb) as u32;
    if d >= 60 {
        proof {
            lemma_pow2_adds(eb as nat, 53);
            vstd::arithmetic::power2::lemma2_to64_rest();
            let p = pow2(eb as nat);
            assert(mb * p < 0x20_0000_0000_0000 * p) by (nonlinear_arith)
                requires
                    mb < 0x20_0000_0000_0000,
                    p > 0,
            ;
            lemma_pow2_strictly_increases((eb + 53) as nat, (ea - 2) as nat);
            lemma_absorbed(a as int, ma as int, ea as int, ub, num);
            lemma_nearest_is(a as int, num, 1);
        }
        return a;
    }
    let f: u128 = power(d);
    proof {
        assert(f <= 0x800_0000_0000_0000) by {
            vstd::arithmetic::power2::lemma2_to64_rest();
            if d < 59 {
                lemma_pow2_strictly_increases(d as nat, 59);
            }
        }
        assert(ma * f <= 0x20_0000_0000_0000 * 0x800_0000_0000_0000) by (nonlinear_arith)
            requires
                ma < 0x20_0000_0000_0000,
                f <= 0x800_0000_0000_0000,
        ;
        lemma_pow2_adds(eb as nat, d as nat);
        let p = pow2(eb as nat);
        assert(ma * (p * f) == (ma * f) * p) by (nonlinear_arith);
        assert(ua == (ma * f) * p);
        if opposite {
            let x = ma * f;
            assert(mb <= x) by (nonlinear_arith)
                requires
                    x * p > mb * p,
                    p > 0,
            ;
        }
    }
    let wide: u128 = ma as u128 * f;
    let s: u128 = if opposite {
        wide - mb as u128
    } else {
        wide + mb as u128
    };
    proof {
        let p = pow2(eb as nat);
        assert(s * p == num) by (nonlinear_arith)
            requires
                s == wide + if opposite {
                    -(mb as int)
                } else {
                    mb as int
                },
                num == wide * p + if opposite {
                    -(mb * p)
                } else {
                    mb * p
                },
        ;
        lemma_pow2_adds(eb as nat, 1200);
        let q = pow2(1200);
        assert(s * ((p * q) * 1) == num * q) by (nonlinear_arith)
            requires
                s * p == num,
        ;
        lemma_one_part(s as nat, (eb + 1200) as nat, 1);
    }
    round_to(s, false, eb, Ghost(num), Ghost(1))
}

proof fn lemma_split_is(m: int, mantissa: int, e: int)
    requires
        0 <= m < INFINITE,
        units(m) == mantissa * pow2(e as nat),
        0 <= mantissa < 0x20_0000_0000_0000,
        0 <= e <= 2045,
        e > 0 ==> mantissa >= 0x10_0000_0000_0000,
    ensures
        m == e * 0x10_0000_0000_0000 + mantissa,
{
    let k = e * 0x10_0000_0000_0000 + mantissa;
    lemma_units_of(e, mantissa);
    if m < k {
        magnitudes_are_ordered(m, k);
    } else if k < m {
        magnitudes_are_ordered(k, m);
    }
}

proof fn lemma_exponents_are_ordered(a: int, b: int)
    requires
        0 <= b <= a,
    ensures
        b / 0x10_0000_0000_0000 <= a / 0x10_0000_0000_0000,
{
}

/// Splits a finite magnitude above zero into a mantissa of 53 bits and an exponent,
/// which is counted from sixty below the usual.
fn normal(m: u64) -> (r: (u64, i32))
    requires
        0 < m < INFINITE,
    ensures
        units(m as int) * pow2(60) == r.0 * pow2(r.1 as nat),
        0x10_0000_0000_0000 <= r.0 < 0x20_0000_0000_0000,
        0 <= r.1 <= 2105,
{
    let (first, start) = split(m);
    let ghost goal = units(m as int) * pow2(60);
    let mut q: u64 = first;
    let mut e: i32 = start + 60;
    let ghost mut bits: nat = 53;
    proof {
        lemma_pow2_adds(start as nat, 60);
        let p = pow2(start as nat);
        let k = pow2(60);
        assert((first * p) * k == first * (p * k)) by (nonlinear_arith);
        vstd::arithmetic::power2::lemma2_to64_rest();
        vstd::arithmetic::power2::lemma2_to64();
    }
    while q < 0x10_0000_0000_0000
        invariant
            0 < q < 0x20_0000_0000_0000,
            bits <= 53,
            q * pow2(bits) >= 0x20_0000_0000_0000,
            goal == q * pow2(e as nat),
            e <= 2105,
            e >= 7 + bits,
        decreases 0x20_0000_0000_0000 - q,
    {
        proof {
            if bits == 0 {
                vstd::arithmetic::power2::lemma2_to64();
                let one = pow2(0);
                assert(q * one == q) by (nonlinear_arith)
                    requires
                        one == 1,
                ;
            }
            lemma_pow2_unfold(bits);
            lemma_pow2_unfold(e as nat);
            let p = pow2((e - 1) as nat);
            assert((2 * q) * p == q * (2 * p)) by (nonlinear_arith);
            let r = pow2((bits - 1) as nat);
            assert((2 * q) * r == q * (2 * r)) by (nonlinear_arith);
            bits = (bits - 1) as nat;
        }
        q = 2 * q;
        e = e - 1;
    }
    (q, e)
}

impl Double {
    /// The bits without the sign.
    fn bare(self) -> (r: u64)
        ensures
            r == self.magnitude(),
            r < 0x8000_0000_0000_0000,
    {
        if self.bits >= 0x8000_0000_0000_0000 {
            self.bits - 0x8000_0000_0000_0000
        } else {
            self.bits
        }
    }

    fn join(negative: bool, m: u64) -> (r: Double)
        requires
            m <= INFINITE,
        ensures
            r == of_parts(negative, m as int),
    {
        Double {
            bits: if negative {
                m + 0x8000_0000_0000_0000
            } else {
                m
            },
        }
    }

    /// Whether these bits stand for no number.
    pub fn is_nan(self) -> (r: bool)
        ensures
            r == self.nan(),
    {
        self.bare() > INFINITE
    }

    /// Whether the number is smaller than another.
    pub fn is_less(self, other: Self) -> (r: bool)
        ensures
            r == self.less(other),
    {
        let a: u64 = self.bare();
        let b: u64 = other.bare();
        proof {
            assert(units(0) == 0);
            if a < b {
                magnitudes_are_ordered(a as int, b as int);
            }
            if b < a {
                magnitudes_are_ordered(b as int, a as int);
            }
            if a > 0 {
                magnitudes_are_ordered(0, a as int);
            }
            if b > 0 {
                magnitudes_are_ordered(0, b as int);
            }
        }
        if a > INFINITE || b > INFINITE {
            return false;
        }
        let a_negative: bool = self.bits >= 0x8000_0000_0000_0000;
        let b_negative: bool = other.bits >= 0x8000_0000_0000_0000;
        if a_negative && b_negative {
            b < a
        } else if a_negative {
            a > 0 || b > 0
        } else if b_negative {
            false
        } else {
            a < b
        }
    }

    /// Whether the number is smaller than another or the same.
    pub fn is_at_most(self, other: Self) -> (r: bool)
        ensures
            r == self.at_most(other),
    {
        !self.is_nan() && !other.is_nan() && !other.is_less(self)
    }

    /// The number without its sign.
    pub fn abs(self) -> (r: Double)
        ensures
            r == self.absolute(),
    {
        Double { bits: self.bare() }
    }

    /// The larger of two numbers.
    pub fn max(self, other: Self) -> (r: Double)
        ensures
            r == self.larger(other),
    {
        if self.is_nan() || self.is_less(other) {
            other
        } else {
            self
        }
    }

    /// The smaller of two numbers.
    pub fn min(self, other: Self) -> (r: Double)
        ensures
            r == self.smaller(other),
    {
        if self.is_nan() || other.is_less(self) {
            other
        } else {
            self
        }
    }

    /// The number, kept between two bounds.
    pub fn clamp(self, low: Self, high: Self) -> (r: Double)
        requires
            !low.nan(),
            !high.nan(),
            !high.less(low),
        ensures
            r == self.clamped(low, high),
    {
        if self.is_less(low) {
            low
        } else if high.is_less(self) {
            high
        } else {
            self
        }
    }

    /// The sum of two numbers.
    pub fn plus(self, other: Self) -> (r: Double)
        ensures
            r == self.sum(other),
    {
        let a: u64 = self.bare();
        let b: u64 = other.bare();
        let a_negative: bool = self.bits >= 0x8000_0000_0000_0000;
        let b_negative: bool = other.bits >= 0x8000_0000_0000_0000;
        if a > INFINITE || b > INFINITE {
            return Double { bits: NOT_A_NUMBER };
        }
        if a == INFINITE && b == INFINITE && a_negative != b_negative {
            return Double { bits: NOT_A_NUMBER };
        }
        if a == INFINITE {
            return self;
        }
        if b == INFINITE {
            return other;
        }
        proof {
            assert(units(0) == 0);
            if a < b {
                magnitudes_are_ordered(a as int, b as int);
            }
            if b < a {
                magnitudes_are_ordered(b as int, a as int);
            }
            if a > 0 {
                magnitudes_are_ordered(0, a as int);
            }
            if b > 0 {
                magnitudes_are_ordered(0, b as int);
            }
        }
        let opposite: bool = a_negative != b_negative;
        if a == b && (opposite || a == 0) {
            return Double::join(a_negative && b_negative, 0);
        }
        if b < a || (b == a && !opposite) {
            let m: u64 = magnitude_of_sum(a, b, opposite);
            Double::join(a_negative, m)
        } else {
            let m: u64 = magnitude_of_sum(b, a, opposite);
            Double::join(b_negative, m)
        }
    }

    /// The difference of two numbers.
    pub fn minus(self, other: Self) -> (r: Double)
        ensures
            r == self.sum(other.opposite()),
    {
        let turned = Double {
            bits: if other.bits >= 0x8000_0000_0000_0000 {
                other.bits - 0x8000_0000_0000_0000
            } else {
                other.bits + 0x8000_0000_0000_0000
            },
        };
        self.plus(turned)
    }

    /// The product of two numbers.
    pub fn times(self, other: Self) -> (r: Double)
        ensures
            r == self.product(other),
    {
        let a: u64 = self.bare();
        let b: u64 = other.bare();
        let negative: bool = (self.bits >= 0x8000_0000_0000_0000) != (other.bits >= 0x8000_0000_0000_0000);
        if a > INFINITE || b > INFINITE {
            return Double { bits: NOT_A_NUMBER };
        }
        if (a == INFINITE && b == 0) || (b == INFINITE && a == 0) {
            return Double { bits: NOT_A_NUMBER };
        }
        if a == INFINITE || b == INFINITE {
            return Double::join(negative, INFINITE);
        }
        let (ma, ea) = split(a);
        let (mb, eb) = split(b);
        assert(ma * mb < 0x20_0000_0000_0000 * 0x20_0000_0000_0000) by (nonlinear_arith)
            requires
                0 <= ma < 0x20_0000_0000_0000,
                0 <= mb < 0x20_0000_0000_0000,
        ;
        let s: u128 = ma as u128 * mb as u128;
        let e: i32 = ea + eb - 1074;
        let ghost num = units(a as int) * units(b as int);
        let ghost den = pow2(1074);
        proof {
            lemma_pow2_pos(1074);
            lemma_pow2_adds(ea as nat, eb as nat);
            lemma_pow2_adds((e + 1200) as nat, 1074);
            lemma_pow2_adds((ea + eb) as nat, 1200);
            let p = pow2(ea as nat);
            let q = pow2(eb as nat);
            let k = pow2(1200);
            assert((ma * mb) * ((p * q) * k) == ((ma * p) * (mb * q)) * k) by (nonlinear_arith);
            lemma_one_part(s as nat, (e + 1200) as nat, den);
        }
        let m: u64 = round_to(s, false, e, Ghost(num), Ghost(den));
        Double::join(negative, m)
    }

    /// The quotient of two numbers.
    pub fn over(self, other: Self) -> (r: Double)
        ensures
            r == self.quotient(other),
    {
        let a: u64 = self.bare();
        let b: u64 = other.bare();
        let negative: bool = (self.bits >= 0x8000_0000_0000_0000) != (other.bits >= 0x8000_0000_0000_0000);
        if a > INFINITE || b > INFINITE {
            return Double { bits: NOT_A_NUMBER };
        }
        if (a == INFINITE && b == INFINITE) || (a == 0 && b == 0) {
            return Double { bits: NOT_A_NUMBER };
        }
        if a == INFINITE || b == 0 {
            return Double::join(negative, INFINITE);
        }
        if b == INFINITE {
            return Double::join(negative, 0);
        }
        proof {
            magnitudes_are_ordered(0, b as int);
        }
        if a == 0 {
            proof {
                let den = units(b as int);
                assert(units(0) == 0 && units(1) == 1);
                assert(0 * pow2(1074) == 0);
                assert(1 * den > 0);
                assert(is_nearest(0, 0, den));
                lemma_nearest_is(0, 0, den);
            }
            return Double::join(negative, 0);
        }
        let (ma, ea) = normal(a);
        let (mb, eb) = split(b);
        let wide: u128 = ma as u128 * 0x1_0000_0000_0000_0000;
        let s: u128 = wide / mb as u128;
        let rest: bool = wide % mb as u128 != 0;
        let e: i32 = ea - eb + 950;
        let ghost num = units(a as int) * pow2(1074);
        let ghost den = units(b as int);
        proof {
            lemma_quotient_parts(
                units(a as int),
                ma as nat,
                ea as nat,
                mb as nat,
                eb as nat,
                s as nat,
            );
        }
        let m: u64 = round_to(s, rest, e, Ghost(num), Ghost(den));
        Double::join(negative, m)
    }

    /// A whole number as a double precision number.
    pub fn from_whole(n: u64) -> (r: Double)
        ensures
            r == of_whole(n as nat),
    {
        let ghost num = n as nat * pow2(1074);
        proof {
            lemma_pow2_adds(1074, 1200);
            let p = pow2(1074);
            let q = pow2(1200);
            assert(n * ((p * q) * 1) == (n * p) * q) by (nonlinear_arith);
            lemma_one_part(n as nat, 2274, 1);
        }
        let m: u64 = round_to(n as u128, false, 1074, Ghost(num), Ghost(1));
        Double::join(false, m)
    }

    /// A whole number of up to 128 bits, rounded.
    pub fn from_wide(n: u128) -> (r: Double)
        ensures
            r == of_whole(n as nat),
    {
        let ghost num = n as nat * pow2(1074);
        proof {
            lemma_pow2_adds(1074, 1200);
            let p = pow2(1074);
            let q = pow2(1200);
            assert(n * ((p * q) * 1) == (n * p) * q) by (nonlinear_arith);
            lemma_one_part(n as nat, 2274, 1);
        }
        Double { bits: round_to(n, false, 1074, Ghost(num), Ghost(1)) }
    }

    /// A single precision number.
    pub fn from_single(x: Single) -> (r: Double)
        ensures
            r == of_single(x),
    {
        if x.is_nan() {
            return Double { bits: NOT_A_NUMBER };
        }
        let negative: bool = x.bits >= 0x8000_0000;
        let bare: u32 = if negative {
            x.bits - 0x8000_0000
        } else {
            x.bits
        };
        if bare == single::INFINITE {
            return Double::join(negative, INFINITE);
        }
        let (mantissa, e) = single::split(bare);
        let ghost num = x.size() * pow2(925);
        proof {
            lemma_pow2_adds(e as nat, 925);
            lemma_pow2_adds((e + 925) as nat, 1200);
            let p = pow2(e as nat);
            let q = pow2(925);
            let t = pow2(1200);
            let pq = pow2((e + 925) as nat);
            assert(mantissa * ((pq * t) * 1) == ((mantissa * p) * q) * t) by (nonlinear_arith)
                requires
                    pq == p * q,
            ;
            lemma_one_part(mantissa as nat, (e + 2125) as nat, 1);
        }
        let m: u64 = round_to(mantissa as u128, false, e + 925, Ghost(num), Ghost(1));
        Double::join(negative, m)
    }

    /// The whole part, kept to what 32 bits hold.
    pub fn to_whole(self) -> (r: u32)
        ensures
            r == self.whole(),
    {
        let a: u64 = self.bare();
        if a > INFINITE || self.bits >= 0x8000_0000_0000_0000 {
            return 0;
        }
        if a == INFINITE {
            proof {
                lemma_units_of(2045, 0x20_0000_0000_0000);
                lemma_whole_of(0x20_0000_0000_0000, 2045);
            }
            return u32::MAX;
        }
        let (m, e) = split(a);
        proof {
            lemma_whole_of(m as nat, e as nat);
        }
        if e >= 1054 {
            u32::MAX
        } else if e <= 1020 {
            0
        } else {
            let f: u128 = power((1074 - e) as u32);
            proof {
                lemma_pow2_pos((1074 - e) as nat);
            }
            let n: u128 = m as u128 / f;
            if n < u32::MAX as u128 {
                n as u32
            } else {
                u32::MAX
            }
        }
    }
}

impl Double {
    /// The nearest whole number, a half going up.
    pub fn round_to_whole(self) -> (r: u32)
        ensures
            r == self.nearest_whole(),
    {
        let a: u64 = self.bare();
        if a > INFINITE || self.bits >= 0x8000_0000_0000_0000 {
            return 0;
        }
        if a == INFINITE {
            proof {
                lemma_units_of(2045, 0x20_0000_0000_0000);
                lemma_whole_of(0x20_0000_0000_0000, 2045);
                lemma_nearest_of(0x20_0000_0000_0000, 2045);
            }
            return u32::MAX;
        }
        let (m, e) = split(a);
        proof {
            lemma_whole_of(m as nat, e as nat);
            lemma_nearest_of(m as nat, e as nat);
        }
        if e >= 1054 {
            u32::MAX
        } else if e < 1020 {
            0
        } else {
            let f: u128 = power((1074 - e) as u32);
            proof {
                lemma_pow2_pos((1074 - e) as nat);
            }
            let n: u128 = (2 * m as u128 + f) / (2 * f);
            if n < u32::MAX as u128 {
                n as u32
            } else {
                u32::MAX
            }
        }
    }

    /// The nearest whole number of 64 bits, a half going up.
    pub fn round_to_wide(self) -> (r: u64)
        ensures
            r == self.nearest_wide(),
    {
        let a: u64 = self.bare();
        if a > INFINITE || self.bits >= 0x8000_0000_0000_0000 {
            return 0;
        }
        if a == INFINITE {
            proof {
                lemma_units_of(2045, 0x20_0000_0000_0000);
                lemma_nearest_wide(0x20_0000_0000_0000, 2045);
            }
            return u64::MAX;
        }
        let (m, e) = split(a);
        proof {
            lemma_nearest_of(m as nat, e as nat);
            if e >= 1074 {
                lemma_nearest_wide(m as nat, e as nat);
            }
        }
        if e >= 1086 {
            u64::MAX
        } else if e >= 1074 {
            let f: u128 = power((e - 1074) as u32);
            proof {
                vstd::arithmetic::power2::lemma2_to64();
                if e < 1085 {
                    lemma_pow2_strictly_increases((e - 1074) as nat, 11);
                }
                assert(m * f < 0x20_0000_0000_0000 * 0x800) by (nonlinear_arith)
                    requires
                        m < 0x20_0000_0000_0000,
                        0 < f <= 0x800,
                ;
            }
            (m as u128 * f) as u64
        } else if e < 1020 {
            0
        } else {
            let f: u128 = power((1074 - e) as u32);
            proof {
                lemma_pow2_pos((1074 - e) as nat);
                assert((2 * m + f) / (2 * f) <= 2 * m + f) by (nonlinear_arith)
                    requires
                        f > 0,
                        m >= 0,
                ;
                vstd::arithmetic::power2::lemma2_to64_rest();
                if e > 1020 {
                    lemma_pow2_strictly_increases((1074 - e) as nat, 54);
                }
            }
            ((2 * m as u128 + f) / (2 * f)) as u64
        }
    }
}

proof fn lemma_nearest_wide(m: nat, e: nat)
    requires
        e >= 1074,
    ensures
        (2 * (m * pow2(e)) + pow2(1074)) / (2 * pow2(1074)) == m * pow2((e - 1074) as nat),
        e >= 1086 && m >= 0x10_0000_0000_0000 ==> m * pow2((e - 1074) as nat) > u64::MAX,
        pow2((e - 1074) as nat) > 0,
{
    let k = (e - 1074) as nat;
    lemma_pow2_adds(1074, k);
    lemma_pow2_pos(1074);
    lemma_pow2_pos(k);
    let q = pow2(1074);
    let f = pow2(k);
    let n = m * f;
    assert((2 * (m * (q * f)) + q) / (2 * q) == n) by (nonlinear_arith)
        requires
            q > 0,
            n == m * f,
    {
        assert(2 * (m * (q * f)) + q == n * (2 * q) + q);
        vstd::arithmetic::div_mod::lemma_fundamental_div_mod_converse(
            (2 * (m * (q * f)) + q) as int,
            (2 * q) as int,
            n as int,
            q as int,
        );
    }
    if e >= 1086 && m >= 0x10_0000_0000_0000 {
        vstd::arithmetic::power2::lemma2_to64();
        if k > 12 {
            lemma_pow2_strictly_increases(12, k);
        }
        assert(m * f >= 0x10_0000_0000_0000 * 0x1000) by (nonlinear_arith)
            requires
                m >= 0x10_0000_0000_0000,
                f >= 0x1000,
        ;
    }
}

proof fn lemma_nearest_of(m: nat, e: nat)
    requires
        m <= 0x20_0000_0000_0000,
        e > 0 ==> m >= 0x10_0000_0000_0000,
    ensures
        e >= 1054 ==> (2 * (m * pow2(e)) + pow2(1074)) / (2 * pow2(1074)) >= u32::MAX,
        e < 1074 ==> (2 * (m * pow2(e)) + pow2(1074)) / (2 * pow2(1074)) == (2 * m + pow2(
            (1074 - e) as nat,
        )) / (2 * pow2((1074 - e) as nat)),
        e < 1020 && m < 0x20_0000_0000_0000 ==> (2 * m + pow2((1074 - e) as nat)) / (2 * pow2(
            (1074 - e) as nat,
        )) == 0,
{
    lemma_pow2_pos(1074);
    let q = pow2(1074);
    if e >= 1054 {
        lemma_whole_of(m, e);
        let n = m * pow2(e);
        assert((2 * n + q) as int / (2 * q) as int >= n as int / q as int) by (nonlinear_arith)
            requires
                q > 0,
                n >= 0,
        {
            let x = n as int / q as int;
            assert(x * q <= n);
            assert(x * (2 * q) <= 2 * n + q);
            vstd::arithmetic::div_mod::lemma_div_is_ordered(
                x * (2 * q),
                (2 * n + q) as int,
                (2 * q) as int,
            );
            vstd::arithmetic::div_mod::lemma_div_by_multiple(x, (2 * q) as int);
        }
    }
    if e < 1074 {
        let k = (1074 - e) as nat;
        lemma_pow2_adds(e, k);
        lemma_pow2_pos(e);
        lemma_pow2_pos(k);
        let p = pow2(e);
        let r = pow2(k);
        let n = 2 * m + r;
        assert(2 * (m * p) + p * r == n * p) by (nonlinear_arith)
            requires
                n == 2 * m + r,
        ;
        assert(2 * (p * r) == p * (2 * r)) by (nonlinear_arith);
        assert((n * p) / (p * (2 * r)) == n / (2 * r)) by {
            vstd::arithmetic::div_mod::lemma_div_denominator(
                (n * p) as int,
                p as int,
                (2 * r) as int,
            );
            vstd::arithmetic::div_mod::lemma_div_by_multiple(n as int, p as int);
        }
        if e < 1020 && m < 0x20_0000_0000_0000 {
            vstd::arithmetic::power2::lemma2_to64_rest();
            lemma_pow2_strictly_increases(54, k);
            vstd::arithmetic::div_mod::lemma_basic_div(n as int, (2 * r) as int);
        }
    }
}

proof fn lemma_quotient_parts(ua: nat, ma: nat, ea: nat, mb: nat, eb: nat, s: nat)
    requires
        ua * pow2(60) == ma * pow2(ea),
        0x10_0000_0000_0000 <= ma < 0x20_0000_0000_0000,
        0 < mb < 0x20_0000_0000_0000,
        ea <= 2105,
        eb <= 2045,
        s == (ma * 0x1_0000_0000_0000_0000) / mb,
    ensures
        s >= 0x20_0000_0000_0000,
        ({
            let e = ea - eb + 950;
            let part = pow2((e + 1200) as nat) * (mb * pow2(eb));
            let whole = ua * pow2(1074) * pow2(1200);
            &&& s * part <= whole < (s + 1) * part
            &&& s * part != whole <==> (ma * 0x1_0000_0000_0000_0000) % mb != 0
        }),
        mb * pow2(eb) > 0,
{
    let e = ea - eb + 950;
    let wide = ma * 0x1_0000_0000_0000_0000;
    let r = wide % mb;
    assert(wide == s * mb + r && r < mb) by (nonlinear_arith)
        requires
            s == wide / mb,
            r == wide % mb,
            mb > 0,
    ;
    assert(s >= 0x20_0000_0000_0000) by (nonlinear_arith)
        requires
            wide >= 0x10_0000_0000_0000 * 0x1_0000_0000_0000_0000,
            wide == s * mb + r,
            r < mb,
            mb < 0x20_0000_0000_0000,
    ;
    let k = (ea + 2150) as nat;
    lemma_pow2_adds((e + 1200) as nat, eb);
    lemma_pow2_adds(1074, 1200);
    lemma_pow2_adds(ea, 2274);
    lemma_pow2_adds(124, k);
    lemma_pow2_adds(60, 64);
    assert(pow2(64) == 0x1_0000_0000_0000_0000) by {
        vstd::arithmetic::power2::lemma2_to64_rest();
    }
    let p = pow2(k);
    lemma_pow2_pos(k);
    lemma_pow2_pos(eb);
    lemma_pow2_pos(60);
    let pa = pow2((e + 1200) as nat);
    let pb = pow2(eb);
    assert(pa * (mb * pb) == mb * p) by (nonlinear_arith)
        requires
            pa * pb == p,
    ;
    let qa = pow2(ea);
    let q1074 = pow2(1074);
    let q1200 = pow2(1200);
    let q60 = pow2(60);
    let whole = ua * q1074 * q1200;
    assert(qa * (q1074 * q1200) == (q60 * 0x1_0000_0000_0000_0000) * p);
    assert(whole * q60 == (wide * p) * q60) by (nonlinear_arith)
        requires
            whole == ua * q1074 * q1200,
            ua * q60 == ma * qa,
            qa * (q1074 * q1200) == (q60 * 0x1_0000_0000_0000_0000) * p,
            wide == ma * 0x1_0000_0000_0000_0000,
    {
        assert(whole * q60 == (ua * q60) * (q1074 * q1200));
        assert((ma * qa) * (q1074 * q1200) == ma * (qa * (q1074 * q1200)));
        assert(ma * ((q60 * 0x1_0000_0000_0000_0000) * p) == ((ma * 0x1_0000_0000_0000_0000) * p)
            * q60);
    }
    assert(whole == wide * p) by (nonlinear_arith)
        requires
            whole * q60 == (wide * p) * q60,
            q60 > 0,
    ;
    assert(s * (mb * p) == (s * mb) * p) by (nonlinear_arith);
    assert((s + 1) * (mb * p) == (s * mb) * p + mb * p) by (nonlinear_arith);
    assert(wide * p == (s * mb) * p + r * p) by (nonlinear_arith)
        requires
            wide == s * mb + r,
    ;
    assert(r * p < mb * p) by (nonlinear_arith)
        requires
            r < mb,
            p > 0,
    ;
    assert(r * p == 0 <==> r == 0) by (nonlinear_arith)
        requires
            p > 0,
    ;
    assert(mb * pb > 0) by (nonlinear_arith)
        requires
            mb > 0,
            pb > 0,
    ;
}

proof fn lemma_whole_of(m: nat, e: nat)
    requires
        m <= 0x20_0000_0000_0000,
        e > 0 ==> m >= 0x10_0000_0000_0000,
    ensures
        e >= 1054 ==> (m * pow2(e)) / pow2(1074) >= u32::MAX,
        e < 1074 ==> (m * pow2(e)) / pow2(1074) == m / pow2((1074 - e) as nat),
        e <= 1020 && m < 0x20_0000_0000_0000 ==> m / pow2((1074 - e) as nat) == 0,
{
    lemma_pow2_pos(1074);
    let q = pow2(1074);
    if e >= 1054 {
        let n = m * pow2(e);
        lemma_pow2_adds(1054, 20);
        if e > 1054 {
            lemma_pow2_strictly_increases(1054, e);
        }
        vstd::arithmetic::power2::lemma2_to64();
        let t = pow2(1054);
        let p = pow2(e);
        assert(n >= 0x1_0000_0000 * q) by (nonlinear_arith)
            requires
                n == m * p,
                m >= 0x10_0000_0000_0000,
                p >= t,
                q == t * 0x10_0000,
        ;
        vstd::arithmetic::div_mod::lemma_div_is_ordered(
            0x1_0000_0000 * q as int,
            n as int,
            q as int,
        );
        vstd::arithmetic::div_mod::lemma_div_by_multiple(0x1_0000_0000, q as int);
    }
    if e < 1074 {
        let k = (1074 - e) as nat;
        lemma_pow2_adds(e, k);
        lemma_pow2_pos(e);
        lemma_pow2_pos(k);
        let p = pow2(e);
        let r = pow2(k);
        assert((m * p) / (p * r) == m / r) by {
            vstd::arithmetic::div_mod::lemma_div_denominator((m * p) as int, p as int, r as int);
            vstd::arithmetic::div_mod::lemma_div_by_multiple(m as int, p as int);
        }
        if e <= 1020 && m < 0x20_0000_0000_0000 {
            vstd::arithmetic::power2::lemma2_to64_rest();
            if k > 54 {
                lemma_pow2_strictly_increases(54, k);
            }
            vstd::arithmetic::div_mod::lemma_basic_div(m as int, r as int);
        }
    }
}

/// A single precision number keeps its value: one of its units is `2^925` of these.
pub proof fn single_keeps_its_value(x: Single)
    requires
        !x.nan() && !x.infinite(),
    ensures
        of_single(x).value() == x.value() * pow2(925),
        !of_single(x).nan() && !of_single(x).infinite(),
{
    let m = x.magnitude();
    let field = m / 0x80_0000;
    let fraction = m % 0x80_0000;
    let (q, e) = if field <= 0 {
        (fraction as nat, 0nat)
    } else {
        ((0x80_0000 + fraction) as nat, (field - 1) as nat)
    };
    assert(pow2(0) == 1) by {
        vstd::arithmetic::power2::lemma2_to64();
    }
    assert(x.size() == q * pow2(e)) by {
        let one = pow2(0);
        assert(q * one == q) by (nonlinear_arith)
            requires
                one == 1,
        ;
    }
    lemma_pow2_adds(e, 925);
    let a = pow2(e);
    let b = pow2(925);
    assert((q * a) * b == q * (a * b)) by (nonlinear_arith);
    let k = lemma_same_size(q, e + 925);
    lemma_next_is_larger(k);
    if k > 0 {
        lemma_next_is_larger(k - 1);
    }
    lemma_nearest_is(k, x.size() * pow2(925), 1);
    let n = x.size() as int;
    assert((-n) * b == -(n * b)) by (nonlinear_arith);
    assert(x.value() * pow2(925) == if x.negative() {
        -(n * b)
    } else {
        n * b
    });
}

/// The larger of two numbers is one of them and below neither, the smaller one of them and
/// above neither; a number that is none gives way to the other.
pub proof fn larger_and_smaller(a: Double, b: Double)
    ensures
        a.larger(b) == a || a.larger(b) == b,
        a.smaller(b) == a || a.smaller(b) == b,
        !a.nan() && !b.nan() ==> {
            &&& a.larger(b).value() >= a.value() && a.larger(b).value() >= b.value()
            &&& a.smaller(b).value() <= a.value() && a.smaller(b).value() <= b.value()
        },
        a.nan() ==> a.larger(b) == b && a.smaller(b) == b,
        b.nan() && !a.nan() ==> a.larger(b) == a && a.smaller(b) == a,
        !a.nan() ==> a.absolute().value() == if a.value() < 0 {
            -a.value()
        } else {
            a.value()
        },
{
    assert(units(0) == 0);
}

/// A number that is kept within bounds lies within them, and stays as it is where it does.
pub proof fn bounds_are_kept(x: Double, low: Double, high: Double)
    requires
        !x.nan() && !low.nan() && !high.nan(),
        low.value() <= high.value(),
    ensures
        low.value() <= x.clamped(low, high).value() <= high.value(),
        low.value() <= x.value() <= high.value() ==> x.clamped(low, high) == x,
        x.value() < low.value() ==> x.clamped(low, high) == low,
        x.value() > high.value() ==> x.clamped(low, high) == high,
{
}

/// The whole part is the greatest whole number that is not above the number, and the
/// nearest whole number is at most a half away from it, a half going up.
pub proof fn whole_numbers_are_near(n: Double)
    ensures
        n.negative() || n.nan() ==> n.whole() == 0 && n.nearest_whole() == 0,
        n.whole() < u32::MAX && !n.negative() && !n.nan() ==> {
            &&& n.whole() * pow2(1074) <= n.size()
            &&& n.size() < (n.whole() + 1) * pow2(1074)
        },
        n.nearest_whole() < u32::MAX && !n.negative() && !n.nan() ==> {
            &&& 2 * (n.nearest_whole() * pow2(1074)) <= 2 * n.size() + pow2(1074)
            &&& 2 * n.size() < 2 * (n.nearest_whole() * pow2(1074)) + pow2(1074)
        },
        n.nearest_wide() < u64::MAX && !n.negative() && !n.nan() ==> {
            &&& 2 * (n.nearest_wide() * pow2(1074)) <= 2 * n.size() + pow2(1074)
            &&& 2 * n.size() < 2 * (n.nearest_wide() * pow2(1074)) + pow2(1074)
        },
{
    let u = pow2(1074) as int;
    lemma_pow2_pos(1074);
    let s = n.size() as int;
    let k = s / u;
    assert(k * u <= s < (k + 1) * u) by (nonlinear_arith)
        requires
            k == s / u,
            u > 0,
    ;
    let j = (2 * s + u) / (2 * u);
    assert(2 * (j * u) <= 2 * s + u && 2 * s < 2 * (j * u) + u) by (nonlinear_arith)
        requires
            j == (2 * s + u) / (2 * u),
            u > 0,
    ;
    assert(k >= 0 && j >= 0) by (nonlinear_arith)
        requires
            k == s / u,
            j == (2 * s + u) / (2 * u),
            u > 0,
            s >= 0,
    ;
}

} // verus!
