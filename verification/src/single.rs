//! Single precision numbers in integers. A number is its 32 bits: a sign and a
//! magnitude. Magnitudes count through the numbers in order, so the magnitude
//! after that of a number is that of the next larger number. The size of a number
//! is measured in units, the smallest size above zero; one is `2^149` units.
use vstd::arithmetic::power2::{
    lemma_pow2_adds, lemma_pow2_pos, lemma_pow2_strictly_increases, lemma_pow2_unfold, pow2,
};
use vstd::prelude::*;

verus! {

/// The magnitude of infinity; larger magnitudes are no numbers.
pub const INFINITE: u32 = 0x7f80_0000;

/// The size, in units, of a magnitude. Infinity has the size that the next number
/// would have.
pub open spec fn units(m: int) -> nat {
    let field = m / 0x80_0000;
    let fraction = m % 0x80_0000;
    if field <= 0 {
        fraction as nat
    } else {
        ((0x80_0000 + fraction) as nat) * pow2((field - 1) as nat)
    }
}

/// Whether `m` is the magnitude nearest to `num / den` units. Halfway between two,
/// the even magnitude is the nearest.
pub open spec fn is_nearest(m: int, num: nat, den: nat) -> bool {
    &&& 0 <= m <= INFINITE
    &&& m > 0 ==> {
        let middle = units(m - 1) + units(m);
        2 * num > middle * den || (2 * num == middle * den && m % 2 == 0)
    }
    &&& m < INFINITE ==> {
        let middle = units(m) + units(m + 1);
        2 * num < middle * den || (2 * num == middle * den && m % 2 == 0)
    }
}

/// The magnitude nearest to `num / den` units.
pub open spec fn nearest(num: nat, den: nat) -> int {
    choose|m: int| is_nearest(m, num, den)
}

/// A single precision number.
#[derive(Clone, Copy, PartialEq, Eq, Structural, Debug)]
pub struct Single {
    pub bits: u32,
}

/// The bits of zero.
pub const ZERO: u32 = 0;

/// The bits of one.
pub const ONE: u32 = 0x3f80_0000;

/// The bits of what an operation without a result gives.
pub const NOT_A_NUMBER: u32 = 0x7fc0_0000;

/// The number of a sign and a magnitude.
pub open spec fn of_parts(negative: bool, m: int) -> Single {
    Single {
        bits: if negative {
            (m + 0x8000_0000) as u32
        } else {
            m as u32
        },
    }
}

impl Single {
    /// Whether the sign is set.
    pub open spec fn negative(self) -> bool {
        self.bits >= 0x8000_0000
    }

    /// The bits without the sign.
    pub open spec fn magnitude(self) -> int {
        if self.bits >= 0x8000_0000 {
            self.bits - 0x8000_0000
        } else {
            self.bits as int
        }
    }

    /// Whether these bits stand for no number.
    pub open spec fn nan(self) -> bool {
        self.magnitude() > INFINITE
    }

    /// Whether the number is infinite.
    pub open spec fn infinite(self) -> bool {
        self.magnitude() == INFINITE
    }

    /// The size in units.
    pub open spec fn size(self) -> nat {
        units(self.magnitude())
    }

    /// The number in units.
    pub open spec fn value(self) -> int {
        if self.negative() {
            -(self.size() as int)
        } else {
            self.size() as int
        }
    }

    /// Whether the number is smaller.
    pub open spec fn less(self, other: Self) -> bool {
        !self.nan() && !other.nan() && self.value() < other.value()
    }

    /// The sum, rounded.
    pub open spec fn sum(self, other: Self) -> Single {
        if self.nan() || other.nan() {
            Single { bits: NOT_A_NUMBER }
        } else if self.infinite() && other.infinite() && self.negative() != other.negative() {
            Single { bits: NOT_A_NUMBER }
        } else if self.infinite() {
            self
        } else if other.infinite() {
            other
        } else {
            let v = self.value() + other.value();
            if v == 0 {
                of_parts(self.negative() && other.negative(), 0)
            } else if v < 0 {
                of_parts(true, nearest((-v) as nat, 1))
            } else {
                of_parts(false, nearest(v as nat, 1))
            }
        }
    }

    /// The product, rounded.
    pub open spec fn product(self, other: Self) -> Single {
        let negative = self.negative() != other.negative();
        if self.nan() || other.nan() {
            Single { bits: NOT_A_NUMBER }
        } else if (self.infinite() && other.magnitude() == 0) || (other.infinite()
            && self.magnitude() == 0) {
            Single { bits: NOT_A_NUMBER }
        } else if self.infinite() || other.infinite() {
            of_parts(negative, INFINITE as int)
        } else {
            of_parts(negative, nearest(self.size() * other.size(), pow2(149)))
        }
    }

    /// The quotient, rounded.
    pub open spec fn quotient(self, other: Self) -> Single {
        let negative = self.negative() != other.negative();
        if self.nan() || other.nan() {
            Single { bits: NOT_A_NUMBER }
        } else if (self.infinite() && other.infinite()) || (self.magnitude() == 0
            && other.magnitude() == 0) {
            Single { bits: NOT_A_NUMBER }
        } else if self.infinite() || other.magnitude() == 0 {
            of_parts(negative, INFINITE as int)
        } else if other.infinite() {
            of_parts(negative, 0)
        } else {
            of_parts(negative, nearest(self.size() * pow2(149), other.size()))
        }
    }

    /// The larger number; where one is none, the other.
    pub open spec fn larger(self, other: Self) -> Single {
        if self.nan() || self.less(other) {
            other
        } else {
            self
        }
    }

    /// The smaller number; where one is none, the other.
    pub open spec fn smaller(self, other: Self) -> Single {
        if self.nan() || other.less(self) {
            other
        } else {
            self
        }
    }

    /// The number, or the bound that it lies beyond.
    pub open spec fn clamped(self, low: Self, high: Self) -> Single {
        if self.less(low) {
            low
        } else if high.less(self) {
            high
        } else {
            self
        }
    }

    /// The whole part, kept to what 32 bits hold.
    pub open spec fn whole(self) -> u32 {
        if self.nan() || self.negative() {
            0
        } else {
            let n = self.size() / pow2(149);
            if n < u32::MAX {
                n as u32
            } else {
                u32::MAX
            }
        }
    }

    /// The nearest whole number, a half going up, kept to what 32 bits hold; zero
    /// for a number below zero.
    pub open spec fn nearest_whole(self) -> u32 {
        if self.nan() || self.negative() {
            0
        } else {
            let n = (2 * self.size() + pow2(149)) / (2 * pow2(149));
            if n < u32::MAX {
                n as u32
            } else {
                u32::MAX
            }
        }
    }

    /// The number with the other sign.
    pub open spec fn opposite(self) -> Single {
        Single {
            bits: if self.bits >= 0x8000_0000 {
                (self.bits - 0x8000_0000) as u32
            } else {
                (self.bits + 0x8000_0000) as u32
            },
        }
    }
}

/// A whole number, rounded.
pub open spec fn of_whole(n: nat) -> Single {
    of_parts(false, nearest(n * pow2(149), 1))
}

proof fn lemma_next_is_larger(m: int)
    requires
        m >= 0,
    ensures
        units(m) < units(m + 1),
{
    let field = m / 0x80_0000;
    let fraction = m % 0x80_0000;
    if fraction + 1 < 0x80_0000 {
        assert((m + 1) / 0x80_0000 == field && (m + 1) % 0x80_0000 == fraction + 1);
        if field > 0 {
            let p = pow2((field - 1) as nat);
            lemma_pow2_pos((field - 1) as nat);
            assert((0x80_0000 + fraction) * p < (0x80_0000 + fraction + 1) * p) by (nonlinear_arith)
                requires
                    p > 0,
            ;
        }
    } else {
        assert((m + 1) / 0x80_0000 == field + 1 && (m + 1) % 0x80_0000 == 0);
        lemma_pow2_pos(field as nat);
        if field > 0 {
            lemma_pow2_unfold(field as nat);
            lemma_pow2_pos((field - 1) as nat);
            let p = pow2((field - 1) as nat);
            assert((0x80_0000 + fraction) * p < 0x80_0000 * (2 * p)) by (nonlinear_arith)
                requires
                    fraction < 0x80_0000,
                    p > 0,
            ;
            assert(units(m + 1) == 0x80_0000 * pow2(field as nat));
        } else {
            assert(pow2(0) == 1) by {
                vstd::arithmetic::power2::lemma2_to64();
            }
            assert(units(m + 1) == 0x80_0000 * pow2(0));
        }
    }
}

/// Larger magnitudes are larger numbers.
pub proof fn magnitudes_are_ordered(a: int, b: int)
    requires
        0 <= a < b,
    ensures
        units(a) < units(b),
    decreases b - a,
{
    lemma_next_is_larger(b - 1);
    if a < b - 1 {
        magnitudes_are_ordered(a, b - 1);
    }
}

/// There is one nearest magnitude, not two.
pub proof fn nearest_is_unique(a: int, b: int, num: nat, den: nat)
    requires
        den > 0,
        is_nearest(a, num, den),
        is_nearest(b, num, den),
    ensures
        a == b,
{
    if a < b {
        lemma_not_both_nearest(a, b, num, den);
    } else if b < a {
        lemma_not_both_nearest(b, a, num, den);
    }
}

proof fn lemma_not_both_nearest(a: int, b: int, num: nat, den: nat)
    requires
        den > 0,
        a < b,
    ensures
        !(is_nearest(a, num, den) && is_nearest(b, num, den)),
{
    if b > a + 1 && a >= 0 {
        magnitudes_are_ordered(a, b - 1);
        magnitudes_are_ordered(a + 1, b);
        let p = units(a) + units(a + 1);
        let q = units(b - 1) + units(b);
        assert(p * den < q * den) by (nonlinear_arith)
            requires
                p < q,
                den > 0,
        ;
    }
}

proof fn lemma_nearest_is(m: int, num: nat, den: nat)
    requires
        den > 0,
        is_nearest(m, num, den),
    ensures
        nearest(num, den) == m,
{
    nearest_is_unique(nearest(num, den), m, num, den);
}

pub(crate) proof fn lemma_units_of(e: int, q: int)
    requires
        e >= 0,
        0 <= q <= 0x100_0000,
        e == 0 || q >= 0x80_0000,
    ensures
        units(e * 0x80_0000 + q) == q * pow2(e as nat),
{
    let m = e * 0x80_0000 + q;
    assert(pow2(0) == 1) by {
        vstd::arithmetic::power2::lemma2_to64();
    }
    if q < 0x80_0000 {
        assert(m / 0x80_0000 == 0 && m % 0x80_0000 == q);
        assert(q * pow2(0) == q);
    } else if q < 0x100_0000 {
        assert(m / 0x80_0000 == e + 1 && m % 0x80_0000 == q - 0x80_0000);
    } else {
        assert(m / 0x80_0000 == e + 2 && m % 0x80_0000 == 0);
        lemma_pow2_unfold((e + 1) as nat);
        let p = pow2(e as nat);
        assert(0x80_0000 * (2 * p) == 0x100_0000 * p) by (nonlinear_arith);
        assert(units(m) == 0x80_0000 * pow2((e + 1) as nat));
    }
}

/// The arithmetic of rounding: between twice `num` and what the rounded mantissa
/// `q` and its neighbours stand for.
proof fn lemma_rounded_mantissa(s: int, half: bool, rest: bool, q: int, num: nat, den: nat, e: int)
    requires
        den > 0,
        e >= 0,
        s >= 0,
        q == if half && (rest || s % 2 == 1) {
            s + 1
        } else {
            s
        },
        ({
            let x = 2 * s + if half {
                1int
            } else {
                0
            };
            let h = pow2((e + 199) as nat) * den;
            &&& x * h <= num * pow2(200) < (x + 1) * h
            &&& rest <==> x * h != num * pow2(200)
        }),
    ensures
        2 * num <= (2 * q + 1) * (pow2(e as nat) * den),
        2 * num == (2 * q + 1) * (pow2(e as nat) * den) ==> q % 2 == 0 && q == s,
        2 * num >= (2 * q - 1) * (pow2(e as nat) * den),
        2 * num == (2 * q - 1) * (pow2(e as nat) * den) ==> q % 2 == 0,
        q == s ==> num >= q * (pow2(e as nat) * den),
{
    let h = pow2((e + 199) as nat) * den;
    let p = pow2(200);
    let d = pow2(e as nat) * den;
    let n = num * p;
    lemma_pow2_pos(200);
    lemma_pow2_pos((e + 199) as nat);
    lemma_pow2_unfold((e + 200) as nat);
    lemma_pow2_adds(e as nat, 200);
    let pe = pow2(e as nat);
    let ph = pow2((e + 199) as nat);
    assert(h > 0) by (nonlinear_arith)
        requires
            h == ph * den,
            ph > 0,
            den > 0,
    ;
    assert(2 * h == d * p) by (nonlinear_arith)
        requires
            2 * ph == pe * p,
            h == ph * den,
            d == pe * den,
    ;
    let x = 2 * s + if half {
        1int
    } else {
        0
    };
    assert((x + 1) * h == x * h + h) by (nonlinear_arith);
    assert(x * h == 2 * s * h + if half {
        h as int
    } else {
        0
    }) by (nonlinear_arith)
        requires
            x == 2 * s + if half {
                1int
            } else {
                0
            },
    ;
    assert((2 * q + 1) * h == 2 * q * h + h) by (nonlinear_arith);
    assert((2 * q - 1) * h == 2 * q * h - h) by (nonlinear_arith);
    if q == s + 1 {
        assert(2 * q * h == 2 * s * h + 2 * h) by (nonlinear_arith)
            requires
                q == s + 1,
        ;
    }
    assert(n <= (2 * q + 1) * h);
    assert(n >= (2 * q - 1) * h);
    lemma_scale(2 * q + 1, num, d, p, h);
    lemma_scale(2 * q - 1, num, d, p, h);
    lemma_scale(2 * q, num, d, p, h);
    if q == s {
        assert(n >= 2 * q * h);
        assert(2 * num >= (2 * q) * d);
        assert((2 * q) * d == 2 * (q * d)) by (nonlinear_arith);
    }
}

proof fn lemma_scale(k: int, num: nat, d: nat, p: nat, h: nat)
    requires
        p > 0,
        2 * h == d * p,
    ensures
        num * p <= k * h <==> 2 * num <= k * d,
        num * p >= k * h <==> 2 * num >= k * d,
{
    assert(2 * (num * p) == (2 * num) * p) by (nonlinear_arith);
    assert(2 * (k * h) == (k * d) * p) by (nonlinear_arith)
        requires
            2 * h == d * p,
    ;
    let a = 2 * num;
    let b = k * d;
    assert(a * p <= b * p <==> a <= b) by (nonlinear_arith)
        requires
            p > 0,
    ;
    assert(a * p >= b * p <==> a >= b) by (nonlinear_arith)
        requires
            p > 0,
    ;
}

proof fn lemma_rounded_is_nearest(e: int, s: int, q: int, num: nat, den: nat)
    requires
        den > 0,
        e >= 0,
        0 <= s < 0x100_0000,
        q == s || q == s + 1,
        e > 0 ==> s >= 0x80_0000,
        e * 0x80_0000 + q <= INFINITE,
        2 * num <= (2 * q + 1) * (pow2(e as nat) * den),
        2 * num == (2 * q + 1) * (pow2(e as nat) * den) ==> q % 2 == 0 && q == s,
        2 * num >= (2 * q - 1) * (pow2(e as nat) * den),
        2 * num == (2 * q - 1) * (pow2(e as nat) * den) ==> q % 2 == 0,
        q == s ==> num >= q * (pow2(e as nat) * den),
    ensures
        is_nearest(e * 0x80_0000 + q, num, den),
{
    let m = e * 0x80_0000 + q;
    let p = pow2(e as nat);
    lemma_pow2_pos(e as nat);
    lemma_units_of(e, q);
    assert(p * den > 0) by (nonlinear_arith)
        requires
            p > 0,
            den > 0,
    ;
    assert(m % 2 == q % 2);
    // The next number.
    if q < 0x100_0000 {
        lemma_units_of(e, q + 1);
        assert((q * p + (q + 1) * p) * den == (2 * q + 1) * (p * den)) by (nonlinear_arith);
    } else {
        lemma_units_of(e + 1, 0x80_0001);
        lemma_pow2_unfold((e + 1) as nat);
        assert(m + 1 == (e + 1) * 0x80_0000 + 0x80_0001);
        assert((q * p + 0x80_0001 * (2 * p)) * den == (2 * q + 1) * (p * den) + p * den)
            by (nonlinear_arith)
            requires
                q == 0x100_0000,
        ;
    }
    // The number before.
    if m > 0 {
        if q > 0x80_0000 || e == 0 {
            lemma_units_of(e, q - 1);
            assert(((q - 1) * p + q * p) * den == (2 * q - 1) * (p * den)) by (nonlinear_arith);
        } else {
            lemma_units_of(e - 1, 0xff_ffff);
            lemma_pow2_unfold(e as nat);
            let r = pow2((e - 1) as nat);
            lemma_pow2_pos((e - 1) as nat);
            assert(m - 1 == (e - 1) * 0x80_0000 + 0xff_ffff);
            assert((0xff_ffff * r + q * p) * den == (4 * q - 1) * (r * den)) by (nonlinear_arith)
                requires
                    q == 0x80_0000,
                    p == 2 * r,
            ;
            assert(2 * (q * (p * den)) == (4 * q) * (r * den)) by (nonlinear_arith)
                requires
                    p == 2 * r,
            ;
            assert((4 * q) * (r * den) > (4 * q - 1) * (r * den)) by (nonlinear_arith)
                requires
                    r > 0,
                    den > 0,
            ;
        }
    }
}

proof fn lemma_large_is_infinite(e: int, s: int, num: nat, den: nat)
    requires
        den > 0,
        e >= 254,
        s >= 0x80_0000,
        num >= s * (pow2(e as nat) * den),
    ensures
        is_nearest(INFINITE as int, num, den),
{
    lemma_units_of(253, 0x100_0000);
    lemma_units_of(253, 0xff_ffff);
    lemma_pow2_unfold(254);
    if e > 254 {
        lemma_pow2_strictly_increases(254, e as nat);
    }
    let p = pow2(e as nat);
    let r = pow2(253);
    assert(units(INFINITE as int) == 0x100_0000 * r);
    assert(units(INFINITE - 1) == 0xff_ffff * r);
    lemma_pow2_pos(253);
    assert(2 * num > (0xff_ffff * r + 0x100_0000 * r) * den) by (nonlinear_arith)
        requires
            num >= s * (p * den),
            s >= 0x80_0000,
            p >= 2 * r,
            r > 0,
            den > 0,
    {
        assert(p * den >= 2 * (r * den));
        assert(s * (p * den) >= 0x80_0000 * (2 * (r * den)));
        assert(2 * num >= 0x200_0000 * (r * den));
        assert(r * den > 0);
        assert((0xff_ffff * r + 0x100_0000 * r) * den == 0x1ff_ffff * (r * den));
    }
}

proof fn lemma_power_bound(k: nat, n: nat)
    requires
        pow2(k) <= n,
        n < 0x1_0000_0000_0000_0000_0000_0000_0000_0000,
    ensures
        k < 128,
{
    if k >= 128 {
        assert(pow2(64) == 0x1_0000_0000_0000_0000) by {
            vstd::arithmetic::power2::lemma2_to64_rest();
        }
        lemma_pow2_adds(64, 64);
        assert(pow2(128) == 0x1_0000_0000_0000_0000nat * 0x1_0000_0000_0000_0000nat);
        if k > 128 {
            lemma_pow2_strictly_increases(128, k);
        }
    }
}

/// Rounds `num / den` units, of which `s * 2^e` is known and whether anything is
/// left beyond it.
fn round_to(s: u128, rest: bool, e: i32, num: Ghost<nat>, den: Ghost<nat>) -> (m: u32)
    requires
        den@ > 0,
        -199 <= e <= 400,
        rest ==> s >= 0x100_0000,
        s * (pow2((e + 200) as nat) * den@) <= num@ * pow2(200) < (s + 1) * (pow2((e + 200) as nat)
            * den@),
        rest <==> s * (pow2((e + 200) as nat) * den@) != num@ * pow2(200),
    ensures
        m == nearest(num@, den@),
        is_nearest(m as int, num@, den@),
{
    let ghost num = num@;
    let ghost den = den@;
    let ghost n = num * pow2(200);
    let mut s: u128 = s;
    let mut e: i32 = e;
    let mut half: bool = false;
    let mut rest: bool = rest;
    if rest {
        assert(s == 2 * (s / 2) + s % 2);
        half = s % 2 == 1;
        s = s / 2;
        e = e + 1;
        assert(e + 199 == e - 1 + 200);
    } else {
        while s < 0x80_0000 && e > 0
            invariant
                -199 <= e <= 400,
                s < 0x100_0000 || e <= 400,
                s * (pow2((e + 200) as nat) * den) == num * pow2(200),
            decreases e,
        {
            proof {
                lemma_pow2_unfold((e + 200) as nat);
                let p = pow2((e + 199) as nat);
                assert((2 * s) * (p * den) == s * ((2 * p) * den)) by (nonlinear_arith);
            }
            s = 2 * s;
            e = e - 1;
        }
        proof {
            lemma_pow2_unfold((e + 200) as nat);
            lemma_pow2_pos((e + 199) as nat);
            let p = pow2((e + 199) as nat);
            assert((2 * s) * (p * den) == s * ((2 * p) * den)) by (nonlinear_arith);
            assert((2 * s + 1) * (p * den) > (2 * s) * (p * den)) by (nonlinear_arith)
                requires
                    p > 0,
                    den > 0,
            ;
        }
    }
    let ghost first_s = s;
    let ghost first_e = e;
    assert(pow2(0) == 1) by {
        vstd::arithmetic::power2::lemma2_to64();
    }
    assert(s * pow2((e - first_e) as nat) == s) by {
        assert((e - first_e) as nat == 0);
        assert(s * 1 == s);
    }
    while s >= 0x100_0000 || e < 0
        invariant
            den > 0,
            n == num * pow2(200),
            -199 <= first_e <= 401,
            first_e <= e <= 530,
            s * pow2((e - first_e) as nat) <= first_s,
            e > 0 ==> s >= 0x80_0000,
            ({
                let x = 2 * s + if half {
                    1int
                } else {
                    0
                };
                let h = pow2((e + 199) as nat) * den;
                &&& x * h <= n < (x + 1) * h
                &&& rest <==> x * h != n
            }),
        decreases
                (if e < 0 {
                    -e
                } else {
                    0
                }) + s,
    {
        proof {
            let k = (e - first_e) as nat;
            let p = pow2(k);
            lemma_pow2_unfold(k + 1);
            if s >= 0x100_0000 {
                assert(p <= s * p) by (nonlinear_arith)
                    requires
                        s >= 1,
                ;
                lemma_power_bound(k, first_s as nat);
            }
            assert((s as int / 2) * (2 * p) <= s * p) by (nonlinear_arith);
            let h = pow2((e + 199) as nat) * den;
            let pe = pow2((e + 199) as nat);
            lemma_pow2_unfold((e + 200) as nat);
            assert(pow2((e + 200) as nat) * den == 2 * h) by (nonlinear_arith)
                requires
                    pow2((e + 200) as nat) == 2 * pe,
                    h == pe * den,
            ;
            lemma_pow2_pos((e + 199) as nat);
            assert(h > 0) by (nonlinear_arith)
                requires
                    h == pe * den,
                    pe > 0,
                    den > 0,
            ;
            let x = 2 * s + if half {
                1int
            } else {
                0
            };
            let y = s as int;
            assert(x * h == 2 * (y * h) + if half {
                h as int
            } else {
                0
            }) by (nonlinear_arith)
                requires
                    x == 2 * y + if half {
                        1int
                    } else {
                        0
                    },
            ;
            assert((x + 1) * h == x * h + h) by (nonlinear_arith);
            assert(y * (2 * h) == 2 * (y * h)) by (nonlinear_arith);
            assert((y + 1) * (2 * h) == 2 * (y * h) + 2 * h) by (nonlinear_arith);
        }
        rest = rest || half;
        half = s % 2 == 1;
        s = s / 2;
        e = e + 1;
    }
    let up: bool = half && (rest || s % 2 == 1);
    let q: u32 = if up {
        s as u32 + 1
    } else {
        s as u32
    };
    proof {
        lemma_rounded_mantissa(s as int, half, rest, q as int, num, den, e as int);
    }
    if e >= 254 {
        proof {
            let h = pow2((e + 199) as nat) * den;
            let x = 2 * s + if half {
                1int
            } else {
                0
            };
            lemma_pow2_unfold((e + 200) as nat);
            lemma_pow2_adds(e as nat, 200);
            lemma_pow2_pos(200);
            lemma_pow2_pos((e + 199) as nat);
            let pe = pow2(e as nat);
            let ph = pow2((e + 199) as nat);
            let p = pow2(200);
            assert(2 * h == (pe * den) * p) by (nonlinear_arith)
                requires
                    2 * ph == pe * p,
                    h == ph * den,
            ;
            assert(x * h >= (2 * s) * h) by (nonlinear_arith)
                requires
                    x >= 2 * s,
                    h >= 0,
            ;
            lemma_scale(2 * s, num, pe * den, p, h);
            assert((2 * s) * (pe * den) == 2 * (s * (pe * den))) by (nonlinear_arith);
            lemma_large_is_infinite(e as int, s as int, num, den);
            lemma_nearest_is(INFINITE as int, num, den);
        }
        return INFINITE;
    }
    let m: u32 = e as u32 * 0x80_0000 + q;
    proof {
        assert(e * 0x80_0000 + q <= INFINITE) by {
            assert(e <= 253 && q <= 0x100_0000);
        }
        lemma_rounded_is_nearest(e as int, s as int, q as int, num, den);
        lemma_nearest_is(m as int, num, den);
    }
    m
}

fn power(k: u32) -> (r: u128)
    requires
        k < 100,
    ensures
        r == pow2(k as nat),
        r <= 0x8_0000_0000_0000_0000_0000_0000,
{
    let mut r: u128 = 1;
    let mut i: u32 = 0;
    assert(pow2(0) == 1) by {
        vstd::arithmetic::power2::lemma2_to64();
    }
    while i < k
        invariant
            i <= k < 100,
            r == pow2(i as nat),
            r <= 0x8_0000_0000_0000_0000_0000_0000,
        decreases k - i,
    {
        proof {
            lemma_pow2_unfold((i + 1) as nat);
            assert(pow2(99) == 0x8_0000_0000_0000_0000_0000_0000) by {
                vstd::arithmetic::power2::lemma2_to64_rest();
                lemma_pow2_adds(49, 50);
            }
            if i + 1 < 99 {
                lemma_pow2_strictly_increases((i + 1) as nat, 99);
            }
        }
        r = 2 * r;
        i = i + 1;
    }
    r
}

/// Splits a finite magnitude into a mantissa of at most 24 bits and an exponent.
pub(crate) fn split(m: u32) -> (r: (u32, i32))
    requires
        m < INFINITE,
    ensures
        units(m as int) == r.0 * pow2(r.1 as nat),
        r.0 < 0x100_0000,
        0 <= r.1 <= 253,
        r.1 > 0 ==> r.0 >= 0x80_0000,
        m > 0 ==> r.0 > 0,
{
    let field: u32 = m / 0x80_0000;
    let fraction: u32 = m % 0x80_0000;
    if field == 0 {
        proof {
            vstd::arithmetic::power2::lemma2_to64();
            assert(fraction * pow2(0) == fraction);
        }
        (fraction, 0)
    } else {
        (0x80_0000 + fraction, field as i32 - 1)
    }
}

proof fn lemma_one_part(a: nat, k: nat, den: nat)
    requires
        den > 0,
    ensures
        a * (pow2(k) * den) < (a + 1) * (pow2(k) * den),
{
    lemma_pow2_pos(k);
    let p = pow2(k);
    assert(a * (p * den) < (a + 1) * (p * den)) by (nonlinear_arith)
        requires
            p > 0,
            den > 0,
    ;
}

/// A number so much smaller than another that it does not change it in a sum.
proof fn lemma_absorbed(m: int, mantissa: int, e: int, small: nat, num: nat)
    requires
        0 <= m < INFINITE,
        units(m) == mantissa * pow2(e as nat),
        e >= 2,
        0x80_0000 <= mantissa < 0x100_0000,
        m == e * 0x80_0000 + mantissa,
        small < pow2((e - 2) as nat),
        num == units(m) + small || num == units(m) - small,
    ensures
        is_nearest(m, num, 1),
{
    let p = pow2(e as nat);
    let r = pow2((e - 1) as nat);
    let t = pow2((e - 2) as nat);
    lemma_pow2_unfold(e as nat);
    lemma_pow2_unfold((e - 1) as nat);
    lemma_units_of(e, mantissa + 1);
    assert((mantissa + 1) * p == mantissa * p + p) by (nonlinear_arith);
    if mantissa > 0x80_0000 {
        lemma_units_of(e, mantissa - 1);
        assert((mantissa - 1) * p == mantissa * p - p) by (nonlinear_arith);
    } else {
        lemma_units_of(e - 1, 0xff_ffff);
        assert(m - 1 == (e - 1) * 0x80_0000 + 0xff_ffff);
        assert(0xff_ffff * r == mantissa * p - r) by (nonlinear_arith)
            requires
                p == 2 * r,
                mantissa == 0x80_0000,
        ;
    }
}

fn magnitude_of_sum(a: u32, b: u32, opposite: bool) -> (m: u32)
    requires
        b <= a < INFINITE,
        opposite ==> b < a,
        a > 0,
    ensures
        m == nearest(
            (units(a as int) + if opposite {
                -units(b as int)
            } else {
                units(b as int) as int
            }) as nat,
            1,
        ),
        0 <= m <= INFINITE,
{
    let (ma, ea) = split(a);
    let (mb, eb) = split(b);
    let ghost ua = units(a as int);
    let ghost ub = units(b as int);
    let ghost num = (ua + if opposite {
        -ub
    } else {
        ub as int
    }) as nat;
    proof {
        if b < a {
            magnitudes_are_ordered(b as int, a as int);
        }
        lemma_exponents_are_ordered(a as int, b as int);
        lemma_split_is(a as int, ma as int, ea as int);
        lemma_split_is(b as int, mb as int, eb as int);
        lemma_pow2_pos(eb as nat);
    }
    assert(eb <= ea);
    let d: u32 = (ea - eb) as u32;
    if d >= 40 {
        proof {
            lemma_pow2_adds(eb as nat, 24);
            vstd::arithmetic::power2::lemma2_to64();
            let p = pow2(eb as nat);
            assert(mb * p < 0x100_0000 * p) by (nonlinear_arith)
                requires
                    mb < 0x100_0000,
                    p > 0,
            ;
            lemma_pow2_strictly_increases((eb + 24) as nat, (ea - 2) as nat);
            lemma_absorbed(a as int, ma as int, ea as int, ub, num);
            lemma_nearest_is(a as int, num, 1);
        }
        return a;
    }
    let f: u128 = power(d);
    proof {
        assert(f <= 0x80_0000_0000) by {
            vstd::arithmetic::power2::lemma2_to64_rest();
            if d < 39 {
                lemma_pow2_strictly_increases(d as nat, 39);
            }
        }
        assert(ma * f <= 0x100_0000 * 0x80_0000_0000) by (nonlinear_arith)
            requires
                ma < 0x100_0000,
                f <= 0x80_0000_0000,
        ;
        lemma_pow2_adds(eb as nat, d as nat);
        let p = pow2(eb as nat);
        assert(ma * (p * f) == (ma * f) * p) by (nonlinear_arith);
        assert(ua == (ma * f) * p);
        if opposite {
            let x = ma * f;
            assert(mb <= x) by (nonlinear_arith)
                requires
                    x * p > mb * p,
                    p > 0,
            ;
        }
    }
    let wide: u128 = ma as u128 * f;
    let s: u128 = if opposite {
        wide - mb as u128
    } else {
        wide + mb as u128
    };
    proof {
        let p = pow2(eb as nat);
        assert(s * p == num) by (nonlinear_arith)
            requires
                s == wide + if opposite {
                    -(mb as int)
                } else {
                    mb as int
                },
                num == wide * p + if opposite {
                    -(mb * p)
                } else {
                    mb * p
                },
        ;
        lemma_pow2_adds(eb as nat, 200);
        let q = pow2(200);
        assert(s * ((p * q) * 1) == num * q) by (nonlinear_arith)
            requires
                s * p == num,
        ;
        lemma_one_part(s as nat, (eb + 200) as nat, 1);
    }
    round_to(s, false, eb, Ghost(num), Ghost(1))
}

proof fn lemma_split_is(m: int, mantissa: int, e: int)
    requires
        0 <= m < INFINITE,
        units(m) == mantissa * pow2(e as nat),
        0 <= mantissa < 0x100_0000,
        0 <= e <= 253,
        e > 0 ==> mantissa >= 0x80_0000,
    ensures
        m == e * 0x80_0000 + mantissa,
{
    let k = e * 0x80_0000 + mantissa;
    lemma_units_of(e, mantissa);
    if m < k {
        magnitudes_are_ordered(m, k);
    } else if k < m {
        magnitudes_are_ordered(k, m);
    }
}

proof fn lemma_exponents_are_ordered(a: int, b: int)
    requires
        0 <= b <= a,
    ensures
        b / 0x80_0000 <= a / 0x80_0000,
{
}

impl Single {
    /// The bits without the sign.
    fn bare(self) -> (r: u32)
        ensures
            r == self.magnitude(),
            r < 0x8000_0000,
    {
        if self.bits >= 0x8000_0000 {
            self.bits - 0x8000_0000
        } else {
            self.bits
        }
    }

    fn join(negative: bool, m: u32) -> (r: Single)
        requires
            m <= INFINITE,
        ensures
            r == of_parts(negative, m as int),
    {
        Single {
            bits: if negative {
                m + 0x8000_0000
            } else {
                m
            },
        }
    }

    /// Whether these bits stand for no number.
    pub fn is_nan(self) -> (r: bool)
        ensures
            r == self.nan(),
    {
        self.bare() > INFINITE
    }

    /// Whether the number is smaller than another.
    pub fn is_less(self, other: Self) -> (r: bool)
        ensures
            r == self.less(other),
    {
        let a: u32 = self.bare();
        let b: u32 = other.bare();
        proof {
            assert(units(0) == 0);
            if a < b {
                magnitudes_are_ordered(a as int, b as int);
            }
            if b < a {
                magnitudes_are_ordered(b as int, a as int);
            }
            if a > 0 {
                magnitudes_are_ordered(0, a as int);
            }
            if b > 0 {
                magnitudes_are_ordered(0, b as int);
            }
        }
        if a > INFINITE || b > INFINITE {
            return false;
        }
        let a_negative: bool = self.bits >= 0x8000_0000;
        let b_negative: bool = other.bits >= 0x8000_0000;
        if a_negative && b_negative {
            b < a
        } else if a_negative {
            a > 0 || b > 0
        } else if b_negative {
            false
        } else {
            a < b
        }
    }

    /// The larger of two numbers.
    pub fn max(self, other: Self) -> (r: Single)
        ensures
            r == self.larger(other),
    {
        if self.is_nan() || self.is_less(other) {
            other
        } else {
            self
        }
    }

    /// The smaller of two numbers.
    pub fn min(self, other: Self) -> (r: Single)
        ensures
            r == self.smaller(other),
    {
        if self.is_nan() || other.is_less(self) {
            other
        } else {
            self
        }
    }

    /// The number, kept between two bounds.
    pub fn clamp(self, low: Self, high: Self) -> (r: Single)
        requires
            !low.nan(),
            !high.nan(),
            !high.less(low),
        ensures
            r == self.clamped(low, high),
    {
        if self.is_less(low) {
            low
        } else if high.is_less(self) {
            high
        } else {
            self
        }
    }

    /// The sum of two numbers.
    pub fn plus(self, other: Self) -> (r: Single)
        ensures
            r == self.sum(other),
    {
        let a: u32 = self.bare();
        let b: u32 = other.bare();
        let a_negative: bool = self.bits >= 0x8000_0000;
        let b_negative: bool = other.bits >= 0x8000_0000;
        if a > INFINITE || b > INFINITE {
            return Single { bits: NOT_A_NUMBER };
        }
        if a == INFINITE && b == INFINITE && a_negative != b_negative {
            return Single { bits: NOT_A_NUMBER };
        }
        if a == INFINITE {
            return self;
        }
        if b == INFINITE {
            return other;
        }
        proof {
            assert(units(0) == 0);
            if a < b {
                magnitudes_are_ordered(a as int, b as int);
            }
            if b < a {
                magnitudes_are_ordered(b as int, a as int);
            }
            if a > 0 {
                magnitudes_are_ordered(0, a as int);
            }
            if b > 0 {
                magnitudes_are_ordered(0, b as int);
            }
        }
        let opposite: bool = a_negative != b_negative;
        if a == b && (opposite || a == 0) {
            return Single::join(a_negative && b_negative, 0);
        }
        if b < a || (b == a && !opposite) {
            let m: u32 = magnitude_of_sum(a, b, opposite);
            Single::join(a_negative, m)
        } else {
            let m: u32 = magnitude_of_sum(b, a, opposite);
            Single::join(b_negative, m)
        }
    }

    /// The difference of two numbers.
    pub fn minus(self, other: Self) -> (r: Single)
        ensures
            r == self.sum(other.opposite()),
    {
        let turned = Single {
            bits: if other.bits >= 0x8000_0000 {
                other.bits - 0x8000_0000
            } else {
                other.bits + 0x8000_0000
            },
        };
        self.plus(turned)
    }

    /// The product of two numbers.
    pub fn times(self, other: Self) -> (r: Single)
        ensures
            r == self.product(other),
    {
        let a: u32 = self.bare();
        let b: u32 = other.bare();
        let negative: bool = (self.bits >= 0x8000_0000) != (other.bits >= 0x8000_0000);
        if a > INFINITE || b > INFINITE {
            return Single { bits: NOT_A_NUMBER };
        }
        if (a == INFINITE && b == 0) || (b == INFINITE && a == 0) {
            return Single { bits: NOT_A_NUMBER };
        }
        if a == INFINITE || b == INFINITE {
            return Single::join(negative, INFINITE);
        }
        let (ma, ea) = split(a);
        let (mb, eb) = split(b);
        assert(ma * mb < 0x100_0000 * 0x100_0000) by (nonlinear_arith)
            requires
                0 <= ma < 0x100_0000,
                0 <= mb < 0x100_0000,
        ;
        let s: u128 = ma as u128 * mb as u128;
        let e: i32 = ea + eb - 149;
        let ghost num = units(a as int) * units(b as int);
        let ghost den = pow2(149);
        proof {
            lemma_pow2_pos(149);
            lemma_pow2_adds(ea as nat, eb as nat);
            lemma_pow2_adds((e + 200) as nat, 149);
            lemma_pow2_adds((ea + eb) as nat, 200);
            let p = pow2(ea as nat);
            let q = pow2(eb as nat);
            let k = pow2(200);
            assert((ma * mb) * ((p * q) * k) == ((ma * p) * (mb * q)) * k) by (nonlinear_arith);
            lemma_one_part(s as nat, (e + 200) as nat, den);
        }
        let m: u32 = round_to(s, false, e, Ghost(num), Ghost(den));
        Single::join(negative, m)
    }

    /// The quotient of two numbers.
    pub fn over(self, other: Self) -> (r: Single)
        ensures
            r == self.quotient(other),
    {
        let a: u32 = self.bare();
        let b: u32 = other.bare();
        let negative: bool = (self.bits >= 0x8000_0000) != (other.bits >= 0x8000_0000);
        if a > INFINITE || b > INFINITE {
            return Single { bits: NOT_A_NUMBER };
        }
        if (a == INFINITE && b == INFINITE) || (a == 0 && b == 0) {
            return Single { bits: NOT_A_NUMBER };
        }
        if a == INFINITE || b == 0 {
            return Single::join(negative, INFINITE);
        }
        if b == INFINITE {
            return Single::join(negative, 0);
        }
        proof {
            magnitudes_are_ordered(0, b as int);
        }
        if a == 0 {
            proof {
                let den = units(b as int);
                assert(units(0) == 0 && units(1) == 1);
                assert(0 * pow2(149) == 0);
                assert(1 * den > 0);
                assert(is_nearest(0, 0, den));
                lemma_nearest_is(0, 0, den);
            }
            return Single::join(negative, 0);
        }
        let (ma, ea) = split(a);
        let (mb, eb) = split(b);
        let wide: u128 = ma as u128 * 0x1_0000_0000_0000_0000;
        let s: u128 = wide / mb as u128;
        let rest: bool = wide % mb as u128 != 0;
        let e: i32 = ea - eb + 85;
        let ghost num = units(a as int) * pow2(149);
        let ghost den = units(b as int);
        proof {
            lemma_quotient_parts(ma as nat, ea as nat, mb as nat, eb as nat, s as nat);
        }
        let m: u32 = round_to(s, rest, e, Ghost(num), Ghost(den));
        Single::join(negative, m)
    }

    /// A whole number as a single precision number.
    pub fn from_whole(n: u64) -> (r: Single)
        ensures
            r == of_whole(n as nat),
    {
        let ghost num = n as nat * pow2(149);
        proof {
            lemma_pow2_adds(149, 200);
            let p = pow2(149);
            let q = pow2(200);
            assert(n * ((p * q) * 1) == (n * p) * q) by (nonlinear_arith);
            lemma_one_part(n as nat, 349, 1);
        }
        let m: u32 = round_to(n as u128, false, 149, Ghost(num), Ghost(1));
        Single::join(false, m)
    }

    /// The whole part, kept to what 32 bits hold.
    pub fn to_whole(self) -> (r: u32)
        ensures
            r == self.whole(),
    {
        let a: u32 = self.bare();
        if a > INFINITE || self.bits >= 0x8000_0000 {
            return 0;
        }
        if a == INFINITE {
            proof {
                lemma_units_of(253, 0x100_0000);
                lemma_whole_of(0x100_0000, 253);
            }
            return u32::MAX;
        }
        let (m, e) = split(a);
        proof {
            lemma_whole_of(m as nat, e as nat);
        }
        if e >= 158 {
            u32::MAX
        } else if e >= 149 {
            let f: u128 = power((e - 149) as u32);
            assert(m * f <= 0x100_0000 * 0x100) by (nonlinear_arith)
                requires
                    0 <= m < 0x100_0000,
                    f <= 0x100,
            ;
            let n: u128 = m as u128 * f;
            if n < u32::MAX as u128 {
                n as u32
            } else {
                u32::MAX
            }
        } else if e <= 125 {
            0
        } else {
            let f: u128 = power((149 - e) as u32);
            proof {
                lemma_pow2_pos((149 - e) as nat);
                assert(m as int / f as int <= m) by (nonlinear_arith)
                    requires
                        f > 0,
                        m >= 0,
                ;
            }
            (m as u128 / f) as u32
        }
    }
}

impl Single {
    /// The nearest whole number, a half going up.
    pub fn round_to_whole(self) -> (r: u32)
        ensures
            r == self.nearest_whole(),
    {
        let a: u32 = self.bare();
        if a > INFINITE || self.bits >= 0x8000_0000 {
            return 0;
        }
        if a == INFINITE {
            proof {
                lemma_units_of(253, 0x100_0000);
                lemma_whole_of(0x100_0000, 253);
                lemma_nearest_of(0x100_0000, 253);
            }
            return u32::MAX;
        }
        let (m, e) = split(a);
        proof {
            lemma_whole_of(m as nat, e as nat);
            lemma_nearest_of(m as nat, e as nat);
        }
        if e >= 149 {
            self.to_whole()
        } else if e < 124 {
            0
        } else {
            let f: u128 = power((149 - e) as u32);
            proof {
                lemma_pow2_pos((149 - e) as nat);
            }
            let n: u128 = (2 * m as u128 + f) / (2 * f);
            proof {
                assert((2 * m + f) as int / (2 * f) as int <= m + 1) by (nonlinear_arith)
                    requires
                        f >= 1,
                        m >= 0,
                ;
            }
            n as u32
        }
    }
}

proof fn lemma_nearest_of(m: nat, e: nat)
    requires
        m <= 0x100_0000,
        e > 0 ==> m >= 0x80_0000,
    ensures
        e >= 149 ==> (2 * (m * pow2(e)) + pow2(149)) / (2 * pow2(149)) == (m * pow2(e)) / pow2(149),
        e < 149 ==> (2 * (m * pow2(e)) + pow2(149)) / (2 * pow2(149)) == (2 * m + pow2(
            (149 - e) as nat,
        )) / (2 * pow2((149 - e) as nat)),
        e < 124 && m < 0x100_0000 ==> (2 * m + pow2((149 - e) as nat)) / (2 * pow2(
            (149 - e) as nat,
        )) == 0,
{
    lemma_pow2_pos(149);
    let q = pow2(149);
    vstd::arithmetic::power2::lemma2_to64();
    if e >= 149 {
        let k = (e - 149) as nat;
        lemma_pow2_adds(149, k);
        let p = pow2(k);
        let x = m * p;
        assert(m * (q * p) == x * q) by (nonlinear_arith)
            requires
                x == m * p,
        ;
        vstd::arithmetic::div_mod::lemma_div_by_multiple(x as int, q as int);
        assert((2 * (x * q) + q) / (2 * q) == x) by (nonlinear_arith)
            requires
                q > 0,
                x >= 0,
        {
            let n = 2 * (x * q) + q;
            assert(n == x * (2 * q) + q);
            vstd::arithmetic::div_mod::lemma_fundamental_div_mod_converse(
                n as int,
                (2 * q) as int,
                x as int,
                q as int,
            );
        }
    } else {
        let k = (149 - e) as nat;
        lemma_pow2_adds(e, k);
        lemma_pow2_pos(e);
        lemma_pow2_pos(k);
        let p = pow2(e);
        let r = pow2(k);
        let n = 2 * m + r;
        assert(2 * (m * p) + p * r == n * p) by (nonlinear_arith)
            requires
                n == 2 * m + r,
        ;
        assert(2 * (p * r) == p * (2 * r)) by (nonlinear_arith);
        assert((n * p) / (p * (2 * r)) == n / (2 * r)) by {
            vstd::arithmetic::div_mod::lemma_div_denominator(
                (n * p) as int,
                p as int,
                (2 * r) as int,
            );
            vstd::arithmetic::div_mod::lemma_div_by_multiple(n as int, p as int);
        }
        if e < 124 && m < 0x100_0000 {
            if k > 26 {
                lemma_pow2_strictly_increases(26, k);
            }
            vstd::arithmetic::div_mod::lemma_basic_div(n as int, (2 * r) as int);
        }
    }
}

proof fn lemma_quotient_parts(ma: nat, ea: nat, mb: nat, eb: nat, s: nat)
    requires
        0 < ma < 0x100_0000,
        0 < mb < 0x100_0000,
        ea <= 253,
        eb <= 253,
        s == (ma * 0x1_0000_0000_0000_0000) / mb,
    ensures
        s >= 0x100_0000,
        ({
            let e = ea - eb + 85;
            let part = pow2((e + 200) as nat) * (mb * pow2(eb));
            let whole = (ma * pow2(ea)) * pow2(149) * pow2(200);
            &&& s * part <= whole < (s + 1) * part
            &&& s * part != whole <==> (ma * 0x1_0000_0000_0000_0000) % mb != 0
        }),
        mb * pow2(eb) > 0,
{
    let e = ea - eb + 85;
    let wide = ma * 0x1_0000_0000_0000_0000;
    let r = wide % mb;
    assert(wide == s * mb + r && r < mb) by (nonlinear_arith)
        requires
            s == wide / mb,
            r == wide % mb,
            mb > 0,
    ;
    assert(s >= 0x100_0000) by (nonlinear_arith)
        requires
            wide >= 0x1_0000_0000_0000_0000,
            wide == s * mb + r,
            r < mb,
            mb < 0x100_0000,
    ;
    let k = (ea + 285) as nat;
    lemma_pow2_adds((e + 200) as nat, eb);
    lemma_pow2_adds(149, 200);
    lemma_pow2_adds(ea, 349);
    lemma_pow2_adds(64, k);
    assert(pow2(64) == 0x1_0000_0000_0000_0000) by {
        vstd::arithmetic::power2::lemma2_to64_rest();
    }
    let p = pow2(k);
    lemma_pow2_pos(k);
    lemma_pow2_pos(eb);
    let pa = pow2((e + 200) as nat);
    let pb = pow2(eb);
    assert(pa * (mb * pb) == mb * p) by (nonlinear_arith)
        requires
            pa * pb == p,
    ;
    let qa = pow2(ea);
    let q149 = pow2(149);
    let q200 = pow2(200);
    assert((ma * qa) * q149 * q200 == wide * p) by (nonlinear_arith)
        requires
            qa * (q149 * q200) == 0x1_0000_0000_0000_0000 * p,
            wide == ma * 0x1_0000_0000_0000_0000,
    ;
    assert(s * (mb * p) == (s * mb) * p) by (nonlinear_arith);
    assert((s + 1) * (mb * p) == (s * mb) * p + mb * p) by (nonlinear_arith);
    assert(wide * p == (s * mb) * p + r * p) by (nonlinear_arith)
        requires
            wide == s * mb + r,
    ;
    assert(r * p < mb * p) by (nonlinear_arith)
        requires
            r < mb,
            p > 0,
    ;
    assert(r * p == 0 <==> r == 0) by (nonlinear_arith)
        requires
            p > 0,
    ;
    assert(mb * pb > 0) by (nonlinear_arith)
        requires
            mb > 0,
            pb > 0,
    ;
}

proof fn lemma_whole_of(m: nat, e: nat)
    requires
        m <= 0x100_0000,
        e > 0 ==> m >= 0x80_0000,
    ensures
        e >= 149 ==> (m * pow2(e)) / pow2(149) == m * pow2((e - 149) as nat),
        e >= 158 ==> m * pow2((e - 149) as nat) >= u32::MAX,
        149 <= e < 158 ==> pow2((e - 149) as nat) <= 0x100,
        e < 149 ==> (m * pow2(e)) / pow2(149) == m / pow2((149 - e) as nat),
        e <= 125 && m < 0x100_0000 ==> m / pow2((149 - e) as nat) == 0,
{
    lemma_pow2_pos(149);
    let q = pow2(149);
    vstd::arithmetic::power2::lemma2_to64();
    if e >= 149 {
        let k = (e - 149) as nat;
        lemma_pow2_adds(149, k);
        let p = pow2(k);
        assert(m * (q * p) == (m * p) * q) by (nonlinear_arith);
        vstd::arithmetic::div_mod::lemma_div_by_multiple((m * p) as int, q as int);
        if e >= 158 {
            if k > 9 {
                lemma_pow2_strictly_increases(9, k);
            }
            assert(m * p >= 0x80_0000 * 0x200) by (nonlinear_arith)
                requires
                    m >= 0x80_0000,
                    p >= 0x200,
            ;
        } else if k < 8 {
            lemma_pow2_strictly_increases(k, 8);
        }
    } else {
        let k = (149 - e) as nat;
        lemma_pow2_adds(e, k);
        lemma_pow2_pos(e);
        lemma_pow2_pos(k);
        let p = pow2(e);
        let r = pow2(k);
        assert((m * p) / (p * r) == m / r) by {
            vstd::arithmetic::div_mod::lemma_div_denominator((m * p) as int, p as int, r as int);
            vstd::arithmetic::div_mod::lemma_div_by_multiple(m as int, p as int);
        }
        if e <= 125 && m < 0x100_0000 {
            if k > 24 {
                lemma_pow2_strictly_increases(24, k);
            }
            vstd::arithmetic::div_mod::lemma_basic_div(m as int, r as int);
        }
    }
}

proof fn lemma_some_is_nearest(m: int, num: nat, den: nat)
    requires
        den > 0,
        0 <= m <= INFINITE,
        m > 0 ==> {
            let middle = units(m - 1) + units(m);
            2 * num > middle * den || (2 * num == middle * den && m % 2 == 0)
        },
    ensures
        exists|k: int| is_nearest(k, num, den),
    decreases INFINITE - m,
{
    if !is_nearest(m, num, den) {
        lemma_some_is_nearest(m + 1, num, den);
    }
}

/// There is a nearest magnitude to every size.
pub proof fn nearest_is_nearest(num: nat, den: nat)
    requires
        den > 0,
    ensures
        is_nearest(nearest(num, den), num, den),
{
    lemma_some_is_nearest(0, num, den);
}

/// Rounding passes no magnitude: what is at least as large as a number stays so.
pub proof fn rounding_keeps_at_least(m: int, num: nat, den: nat)
    requires
        den > 0,
        0 <= m <= INFINITE,
        units(m) * den <= num,
    ensures
        m <= nearest(num, den),
{
    nearest_is_nearest(num, den);
    let k = nearest(num, den);
    if k < m {
        lemma_next_is_larger(k);
        if k + 1 < m {
            magnitudes_are_ordered(k + 1, m);
        }
        let low = units(k);
        let high = units(k + 1);
        let top = units(m);
        assert((low + high) * den < 2 * (top * den)) by (nonlinear_arith)
            requires
                low < high <= top,
                den > 0,
        ;
    }
}

/// Rounding passes no magnitude: what is at most as large as a number stays so.
pub proof fn rounding_keeps_at_most(m: int, num: nat, den: nat)
    requires
        den > 0,
        0 <= m <= INFINITE,
        num <= units(m) * den,
    ensures
        nearest(num, den) <= m,
{
    nearest_is_nearest(num, den);
    let k = nearest(num, den);
    if k > m {
        lemma_next_is_larger(k - 1);
        if k - 1 > m {
            magnitudes_are_ordered(m, k - 1);
        }
        let low = units(k - 1);
        let high = units(k);
        let bottom = units(m);
        assert((low + high) * den > 2 * (bottom * den)) by (nonlinear_arith)
            requires
                bottom <= low < high,
                den > 0,
        ;
    }
}

/// Rounding keeps the order of sizes.
pub proof fn rounding_keeps_order(a: nat, b: nat, den: nat)
    requires
        den > 0,
        a <= b,
    ensures
        nearest(a, den) <= nearest(b, den),
{
    nearest_is_nearest(a, den);
    nearest_is_nearest(b, den);
    let j = nearest(a, den);
    let k = nearest(b, den);
    if k < j {
        if k + 1 < j {
            magnitudes_are_ordered(k + 1, j);
            magnitudes_are_ordered(k, j - 1);
        }
        let low = units(k) + units(k + 1);
        let high = units(j - 1) + units(j);
        assert(low * den <= high * den) by (nonlinear_arith)
            requires
                low <= high,
        ;
        assert(a == b);
    }
}

proof fn lemma_same_size(n: nat, e: nat) -> (m: int)
    requires
        n < 0x100_0000,
        e <= 253,
    ensures
        0 <= m < INFINITE,
        units(m) == n * pow2(e),
    decreases e,
{
    if n >= 0x80_0000 || e == 0 {
        lemma_units_of(e as int, n as int);
        e as int * 0x80_0000 + n as int
    } else {
        lemma_pow2_unfold(e);
        let p = pow2((e - 1) as nat);
        assert((2 * n) * p == n * (2 * p)) by (nonlinear_arith);
        lemma_same_size(2 * n, (e - 1) as nat)
    }
}

/// A whole number of at most 24 bits is not rounded.
pub proof fn whole_is_exact(n: nat)
    requires
        n < 0x100_0000,
    ensures
        of_whole(n).size() == n * pow2(149),
        !of_whole(n).negative() && !of_whole(n).nan() && !of_whole(n).infinite(),
        n > 0 ==> of_whole(n).magnitude() > 0,
{
    let m = lemma_same_size(n, 149);
    lemma_next_is_larger(m);
    if m > 0 {
        lemma_next_is_larger(m - 1);
    }
    lemma_nearest_is(m, n * pow2(149), 1);
    if n > 0 {
        let u = pow2(149);
        lemma_pow2_pos(149);
        assert(n * u > 0) by (nonlinear_arith)
            requires
                n > 0,
                u > 0,
        ;
        assert(units(0) == 0);
    }
}

/// What is rounded to a number of full precision changes by at most its `2^24`th
/// part.
pub proof fn rounding_error(m: int, num: nat, den: nat)
    requires
        den > 0,
        0x80_0000 <= m < INFINITE,
        is_nearest(m, num, den),
    ensures
        0x100_0000 * num <= 0x100_0001 * (units(m) * den),
        0x100_0000 * num >= 0xff_ffff * (units(m) * den),
{
    let field = m / 0x80_0000;
    let fraction = m % 0x80_0000;
    let q = 0x80_0000 + fraction;
    let e = field - 1;
    let p = pow2(e as nat);
    let u = units(m);
    lemma_pow2_pos(e as nat);
    assert(m == e * 0x80_0000 + q);
    lemma_units_of(e, q + 1);
    assert((q + 1) * p == q * p + p) by (nonlinear_arith);
    assert(units(m + 1) == u + p);
    assert(0x80_0000 * p <= q * p) by (nonlinear_arith)
        requires
            q >= 0x80_0000,
    ;
    assert((u + (u + p)) * den == 2 * (u * den) + p * den) by (nonlinear_arith);
    assert(0x80_0000 * (p * den) <= u * den) by (nonlinear_arith)
        requires
            0x80_0000 * p <= u,
    ;
    if fraction > 0 || e == 0 {
        lemma_units_of(e, q - 1);
        assert((q - 1) * p == q * p - p) by (nonlinear_arith);
        assert(units(m - 1) == u - p);
        let before = (u - p) as nat;
        assert((before + u) * den == 2 * (u * den) - p * den) by (nonlinear_arith)
            requires
                before == u - p,
        ;
    } else {
        lemma_units_of(e - 1, 0xff_ffff);
        lemma_pow2_unfold(e as nat);
        let r = pow2((e - 1) as nat);
        assert(m - 1 == (e - 1) * 0x80_0000 + 0xff_ffff);
        let before = units(m - 1);
        assert(before + r == u) by (nonlinear_arith)
            requires
                before == 0xff_ffff * r,
                p == 2 * r,
                u == q * p,
                q == 0x80_0000,
        ;
        assert((before + u) * den >= 2 * (u * den) - p * den) by (nonlinear_arith)
            requires
                before + r == u,
                p == 2 * r,
        ;
    }
}

/// Rounding keeps the order of fractions.
pub proof fn rounding_keeps_fractions(a: nat, b: nat, c: nat, d: nat)
    requires
        b > 0 && d > 0,
        a * d <= c * b,
    ensures
        nearest(a, b) <= nearest(c, d),
{
    nearest_is_nearest(a, b);
    nearest_is_nearest(c, d);
    let j = nearest(a, b);
    let k = nearest(c, d);
    if k < j {
        if k + 1 < j {
            magnitudes_are_ordered(k + 1, j);
            magnitudes_are_ordered(k, j - 1);
        }
        let low = units(k) + units(k + 1);
        let high = units(j - 1) + units(j);
        assert(low <= high);
        assert(2 * (a * d) >= high * (b * d)) by (nonlinear_arith)
            requires
                2 * a >= high * b,
        ;
        assert(2 * (c * b) <= low * (b * d)) by (nonlinear_arith)
            requires
                2 * c <= low * d,
        ;
        assert(low * (b * d) <= high * (b * d)) by (nonlinear_arith)
            requires
                low <= high,
        ;
        if low < high {
            assert(low * (b * d) < high * (b * d)) by (nonlinear_arith)
                requires
                    low < high,
                    b > 0,
                    d > 0,
            ;
        }
        assert(2 * (a * d) == high * (b * d) && 2 * (c * b) == low * (b * d));
        assert(2 * a == high * b) by (nonlinear_arith)
            requires
                2 * (a * d) == high * (b * d),
                d > 0,
        ;
        assert(2 * c == low * d) by (nonlinear_arith)
            requires
                2 * (c * b) == low * (b * d),
                b > 0,
        ;
        assert(j % 2 == 0 && k % 2 == 0);
        assert(k + 2 <= j);
        magnitudes_are_ordered(k, j - 1);
    }
}

pub(crate) proof fn lemma_fraction_is(m: int, e: nat, s: int, p: nat, q: nat, power: nat)
    requires
        power == pow2((149 - e) as nat),
        0 < q,
        e <= 149,
        0x80_0000 < s < 0xff_ffff,
        m == e * 0x80_0000 + s,
        (2 * s - 1) * q < 2 * p * power < (2 * s + 1) * q,
    ensures
        nearest(p * pow2(149), q) == m,
{
    lemma_units_of(e as int, s);
    lemma_units_of(e as int, s - 1);
    lemma_units_of(e as int, s + 1);
    lemma_pow2_adds((149 - e) as nat, e);
    lemma_pow2_pos(e);
    let g = pow2(e);
    let f = pow2((149 - e) as nat);
    let u = pow2(149);
    let below = units(m - 1) + units(m);
    let above = units(m) + units(m + 1);
    assert(below == (2 * s - 1) * g) by (nonlinear_arith)
        requires
            below == (s - 1) * g + s * g,
    ;
    assert(above == (2 * s + 1) * g) by (nonlinear_arith)
        requires
            above == s * g + (s + 1) * g,
    ;
    assert(2 * (p * u) == 2 * p * f * g) by (nonlinear_arith)
        requires
            u == f * g,
    ;
    assert(below * q == ((2 * s - 1) * q) * g) by (nonlinear_arith)
        requires
            below == (2 * s - 1) * g,
    ;
    assert(above * q == ((2 * s + 1) * q) * g) by (nonlinear_arith)
        requires
            above == (2 * s + 1) * g,
    ;
    let mid = 2 * p * f;
    let lo = (2 * s - 1) * q;
    let hi = (2 * s + 1) * q;
    assert(lo * g < mid * g && mid * g < hi * g) by (nonlinear_arith)
        requires
            lo < mid < hi,
            g > 0,
    ;
    assert(m < INFINITE) by (nonlinear_arith)
        requires
            m == e * 0x80_0000 + s,
            e <= 149,
            s < 0xff_ffff,
            INFINITE == 0x7f80_0000,
    ;
    lemma_nearest_is(m, p * u, q);
}

/// Adding two numbers that are not below zero gives their sum, up to its `2^24`th part,
/// once it is at least one.
pub proof fn sum_of_positives_is_near(a: Single, b: Single)
    requires
        !a.nan() && !a.negative() && !a.infinite(),
        !b.nan() && !b.negative() && !b.infinite(),
        pow2(149) <= a.size() + b.size() <= pow2(249),
    ensures
        !a.sum(b).nan() && !a.sum(b).negative() && !a.sum(b).infinite(),
        a.sum(b).size() >= pow2(149),
        0x100_0000 * (a.size() + b.size()) <= 0x100_0001 * a.sum(b).size(),
        0x100_0000 * (a.size() + b.size()) >= 0xff_ffff * a.sum(b).size(),
{
    let v = a.size() + b.size();
    lemma_pow2_pos(149);
    assert(pow2(23) == 0x80_0000) by {
        vstd::arithmetic::power2::lemma2_to64();
    }
    lemma_units_of(126, 0x80_0000);
    lemma_units_of(226, 0x80_0000);
    lemma_pow2_adds(126, 23);
    lemma_pow2_adds(226, 23);
    let low = 127 * 0x80_0000int;
    let high = 227 * 0x80_0000int;
    assert(units(low) == pow2(149)) by (nonlinear_arith)
        requires
            units(low) == 0x80_0000 * pow2(126),
            pow2(149) == pow2(126) * 0x80_0000,
    ;
    assert(units(high) == pow2(249)) by (nonlinear_arith)
        requires
            units(high) == 0x80_0000 * pow2(226),
            pow2(249) == pow2(226) * 0x80_0000,
    ;
    rounding_keeps_at_least(low, v, 1);
    rounding_keeps_at_most(high, v, 1);
    nearest_is_nearest(v, 1);
    let m = nearest(v, 1);
    rounding_error(m, v, 1);
    if low < m {
        magnitudes_are_ordered(low, m);
    }
}

/// A difference of whole numbers of at most 24 bits is not rounded.
pub proof fn whole_difference_is_exact(a: nat, b: nat)
    requires
        b <= a < 0x100_0000,
    ensures
        of_whole(a).sum(of_whole(b).opposite()).value() == (a - b) * pow2(149),
        !of_whole(a).sum(of_whole(b).opposite()).nan(),
{
    let u = pow2(149);
    whole_is_exact(a);
    whole_is_exact(b);
    whole_is_exact((a - b) as nat);
    assert(a * u - b * u == (a - b) * u) by (nonlinear_arith);
    lemma_pow2_pos(149);
    assert((a - b) * u >= 0) by (nonlinear_arith)
        requires
            b <= a,
    ;
    assert(units(0) == 0);
}

/// The larger of two numbers is one of them and below neither, the smaller one of them and
/// above neither; a number that is none gives way to the other.
pub proof fn larger_and_smaller(a: Single, b: Single)
    ensures
        a.larger(b) == a || a.larger(b) == b,
        a.smaller(b) == a || a.smaller(b) == b,
        !a.nan() && !b.nan() ==> {
            &&& a.larger(b).value() >= a.value() && a.larger(b).value() >= b.value()
            &&& a.smaller(b).value() <= a.value() && a.smaller(b).value() <= b.value()
        },
        a.nan() ==> a.larger(b) == b && a.smaller(b) == b,
        b.nan() && !a.nan() ==> a.larger(b) == a && a.smaller(b) == a,
{
    assert(units(0) == 0);
}

/// A number that is kept within bounds lies within them, and stays as it is where it does.
pub proof fn bounds_are_kept(x: Single, low: Single, high: Single)
    requires
        !x.nan() && !low.nan() && !high.nan(),
        low.value() <= high.value(),
    ensures
        low.value() <= x.clamped(low, high).value() <= high.value(),
        low.value() <= x.value() <= high.value() ==> x.clamped(low, high) == x,
        x.value() < low.value() ==> x.clamped(low, high) == low,
        x.value() > high.value() ==> x.clamped(low, high) == high,
{
}

/// The whole part is the greatest whole number that is not above the number, and the
/// nearest whole number is at most a half away from it, a half going up.
pub proof fn whole_numbers_are_near(n: Single)
    ensures
        n.negative() || n.nan() ==> n.whole() == 0 && n.nearest_whole() == 0,
        n.whole() < u32::MAX && !n.negative() && !n.nan() ==> {
            &&& n.whole() * pow2(149) <= n.size()
            &&& n.size() < (n.whole() + 1) * pow2(149)
        },
        n.nearest_whole() < u32::MAX && !n.negative() && !n.nan() ==> {
            &&& 2 * (n.nearest_whole() * pow2(149)) <= 2 * n.size() + pow2(149)
            &&& 2 * n.size() < 2 * (n.nearest_whole() * pow2(149)) + pow2(149)
        },
{
    let u = pow2(149) as int;
    lemma_pow2_pos(149);
    let s = n.size() as int;
    let k = s / u;
    assert(k * u <= s < (k + 1) * u) by (nonlinear_arith)
        requires
            k == s / u,
            u > 0,
    ;
    let j = (2 * s + u) / (2 * u);
    assert(2 * (j * u) <= 2 * s + u && 2 * s < 2 * (j * u) + u) by (nonlinear_arith)
        requires
            j == (2 * s + u) / (2 * u),
            u > 0,
    ;
    assert(k >= 0 && j >= 0) by (nonlinear_arith)
        requires
            k == s / u,
            j == (2 * s + u) / (2 * u),
            u > 0,
            s >= 0,
    ;
}

} // verus!
