//! Double precision numbers written with three decimals.
use vstd::arithmetic::div_mod::{
    lemma_basic_div, lemma_fundamental_div_mod_converse, lemma_small_mod,
};
use vstd::arithmetic::power2::{
    lemma2_to64, lemma2_to64_rest, lemma_pow2_adds, lemma_pow2_pos, lemma_pow2_strictly_increases,
    lemma_pow2_unfold, pow2,
};
use vstd::prelude::*;

use crate::double::{power, split, Double, INFINITE};
use crate::text::{
    decimal, digit, digit_char, digits_value, push_number, without_plus,
    written_number_is_read_back,
};

verus! {

/// The nearest whole number of thousandths to a size; halfway between two, the even
/// one.
pub open spec fn thousandths(size: nat) -> nat {
    let one = pow2(1074);
    let whole = (size * 1000) / one;
    let rest = (size * 1000) % one;
    if 2 * rest > one || (2 * rest == one && whole % 2 == 1) {
        whole + 1
    } else {
        whole
    }
}

/// A number below a thousand as three digits.
pub open spec fn three_digits(n: nat) -> Seq<char> {
    seq![digit_char(n / 100), digit_char(n / 10 % 10), digit_char(n % 10)]
}

/// A number written with three decimals.
#[verifier::opaque]
pub open spec fn three_decimals(d: Double) -> Seq<char> {
    let sign = if d.negative() {
        seq!['-']
    } else {
        seq![]
    };
    if d.nan() {
        "NaN"@
    } else if d.infinite() {
        sign + "inf"@
    } else {
        let n = thousandths(d.size());
        sign + decimal(n / 1000) + seq!['.'] + three_digits(n % 1000)
    }
}

/// The number that some digits stand for, the first being the largest.
spec fn digits_number(d: Seq<u8>) -> nat
    decreases d.len(),
{
    if d.len() == 0 {
        0
    } else {
        digits_number(d.drop_last()) * 10 + d.last() as nat
    }
}

spec fn are_digits(d: Seq<u8>) -> bool {
    forall|i: int| 0 <= i < d.len() ==> #[trigger] d[i] < 10
}

fn digits_of(n: u64) -> (r: Vec<u8>)
    ensures
        are_digits(r@),
        r@.len() > 0,
        r@.len() > 1 ==> r@[0] > 0,
        n > 0 ==> r@[0] > 0,
        digits_number(r@) == n,
    decreases n,
{
    if n < 10 {
        let mut r: Vec<u8> = Vec::new();
        r.push(n as u8);
        assert(r@.drop_last() =~= seq![]);
        assert(digits_number(seq![]) == 0);
        r
    } else {
        let mut r = digits_of(n / 10);
        let ghost before = r@;
        r.push((n % 10) as u8);
        assert(r@.drop_last() =~= before);
        r
    }
}

/// The digits of twice a number and a carry.
fn double_digits(d: &Vec<u8>, k: usize, carry: u8) -> (r: Vec<u8>)
    requires
        k <= d@.len(),
        carry <= 1,
        are_digits(d@),
        k > 0 ==> d@[0] > 0,
    ensures
        are_digits(r@),
        digits_number(r@) == 2 * digits_number(d@.take(k as int)) + carry,
        k > 0 ==> r@.len() > 0,
        r@.len() > 0 ==> r@[0] > 0,
        k == 0 ==> r@.len() == carry,
    decreases k,
{
    if k == 0 {
        let mut r: Vec<u8> = Vec::new();
        assert(digits_number(r@) == 0);
        assert(digits_number(d@.take(0)) == 0);
        if carry > 0 {
            r.push(carry);
            assert(r@.drop_last() =~= seq![]);
        }
        r
    } else {
        let x: u8 = 2 * d[k - 1] + carry;
        let mut r = double_digits(d, k - 1, x / 10);
        let ghost before = r@;
        r.push(x % 10);
        proof {
            assert(r@.drop_last() =~= before);
            assert(d@.take(k as int).drop_last() =~= d@.take(k - 1));
            assert(d@.take(k as int).last() == d@[k - 1]);
        }
        r
    }
}

fn push_digits(out: &mut String, d: &Vec<u8>, k: usize)
    requires
        0 < k <= d@.len(),
        are_digits(d@),
        k > 1 ==> d@[0] > 0,
    ensures
        final(out)@ == old(out)@ + decimal(digits_number(d@.take(k as int))),
        k > 0 && d@[0] > 0 ==> digits_number(d@.take(k as int)) > 0,
    decreases k,
{
    proof {
        assert(d@.take(k as int).drop_last() =~= d@.take(k - 1));
        assert(d@.take(k as int).last() == d@[k - 1]);
    }
    if k == 1 {
        out.push(digit(d[0]));
        proof {
            assert(digits_number(d@.take(0)) == 0);
            assert(out@ =~= old(out)@ + decimal(digits_number(d@.take(1))));
        }
    } else {
        push_digits(out, d, k - 1);
        out.push(digit(d[k - 1]));
        proof {
            let n = digits_number(d@.take(k as int));
            let m = digits_number(d@.take(k - 1));
            assert(n / 10 == m && n % 10 == d@[k - 1] as nat);
            assert(out@ =~= old(out)@ + decimal(n));
        }
    }
}

fn push_three_digits(out: &mut String, n: u16)
    requires
        n < 1000,
    ensures
        final(out)@ == old(out)@ + three_digits(n as nat),
{
    out.push(digit((n / 100) as u8));
    out.push(digit((n / 10 % 10) as u8));
    out.push(digit((n % 10) as u8));
    assert(out@ =~= old(out)@ + three_digits(n as nat));
}

proof fn lemma_whole_thousandths(mantissa: nat, e: nat)
    requires
        e >= 1074,
    ensures
        ({
            let n = thousandths(mantissa * pow2(e));
            n / 1000 == mantissa * pow2((e - 1074) as nat) && n % 1000 == 0
        }),
{
    let k = (e - 1074) as nat;
    let one = pow2(1074);
    lemma_pow2_pos(1074);
    lemma_pow2_adds(k, 1074);
    let whole = mantissa * pow2(k);
    let n = (mantissa * pow2(e)) * 1000;
    let q = whole * 1000;
    let p = pow2(k);
    assert(n == q * one) by (nonlinear_arith)
        requires
            n == (mantissa * pow2(e)) * 1000,
            pow2(e) == p * one,
            whole == mantissa * p,
            q == whole * 1000,
    ;
    lemma_fundamental_div_mod_converse(n as int, one as int, q as int, 0);
}

proof fn lemma_part_thousandths(mantissa: nat, e: nat)
    requires
        e < 1074,
    ensures
        ({
            let n = mantissa * 1000;
            let p = pow2((1074 - e) as nat);
            let whole = n / p;
            let rest = n % p;
            thousandths(mantissa * pow2(e)) == if 2 * rest > p || (2 * rest == p && whole % 2
                == 1) {
                whole + 1
            } else {
                whole
            }
        }),
{
    let j = (1074 - e) as nat;
    let one = pow2(1074);
    let c = pow2(e);
    let p = pow2(j);
    lemma_pow2_pos(e);
    lemma_pow2_pos(j);
    lemma_pow2_adds(j, e);
    let n = mantissa * 1000;
    let whole = n / p;
    let rest = n % p;
    let big = (mantissa * c) * 1000;
    assert(n == whole * p + rest) by (nonlinear_arith)
        requires
            whole == n / p,
            rest == n % p,
            p > 0,
    ;
    assert(big == whole * one + rest * c) by (nonlinear_arith)
        requires
            big == (mantissa * c) * 1000,
            n == mantissa * 1000,
            n == whole * p + rest,
            one == p * c,
    ;
    assert(rest < p);
    assert(rest * c < one) by (nonlinear_arith)
        requires
            rest < p,
            one == p * c,
            c > 0,
    ;
    lemma_fundamental_div_mod_converse(big as int, one as int, whole as int, (rest * c) as int);
    assert(2 * (rest * c) > one <==> 2 * rest > p) by (nonlinear_arith)
        requires
            one == p * c,
            c > 0,
    ;
    assert(2 * (rest * c) == one <==> 2 * rest == p) by (nonlinear_arith)
        requires
            one == p * c,
            c > 0,
    ;
}

/// Appends a number with three decimals.
pub fn push_three_decimals(out: &mut String, d: Double)
    ensures
        final(out)@ == old(out)@ + three_decimals(d),
{
    proof {
        reveal(three_decimals);
    }
    if d.is_nan() {
        out.push_str("NaN");
        return;
    }
    let ghost start = out@;
    let ghost sign = if d.negative() {
        seq!['-']
    } else {
        seq![]
    };
    let m: u64 = if d.bits >= 0x8000_0000_0000_0000 {
        out.push('-');
        d.bits - 0x8000_0000_0000_0000
    } else {
        d.bits
    };
    assert(out@ =~= start + sign);
    if m == INFINITE {
        out.push_str("inf");
        assert(out@ =~= start + three_decimals(d));
        return;
    }
    let (mantissa, e) = split(m);
    if e >= 1074 {
        let mut digits = digits_of(mantissa);
        let mut i: i32 = 1074;
        assert(pow2(0) == 1) by {
            lemma2_to64();
        }
        assert(mantissa * pow2(0) == mantissa);
        while i < e
            invariant
                1074 <= i <= e,
                mantissa > 0,
                are_digits(digits@),
                digits@.len() > 0,
                digits@[0] > 0,
                digits_number(digits@) == mantissa * pow2((i - 1074) as nat),
            decreases e - i,
        {
            let twice = double_digits(&digits, digits.len(), 0);
            proof {
                assert(digits@.take(digits@.len() as int) =~= digits@);
                lemma_pow2_unfold((i - 1074 + 1) as nat);
                let p = pow2((i - 1074) as nat);
                assert(mantissa * (2 * p) == 2 * (mantissa * p)) by (nonlinear_arith);
            }
            digits = twice;
            i = i + 1;
        }
        proof {
            lemma_whole_thousandths(mantissa as nat, e as nat);
            assert(digits@.take(digits@.len() as int) =~= digits@);
        }
        push_digits(out, &digits, digits.len());
        out.push('.');
        push_three_digits(out, 0);
        assert(out@ =~= start + three_decimals(d));
        return;
    }
    proof {
        lemma_part_thousandths(mantissa as nat, e as nat);
    }
    let v: u128 = mantissa as u128 * 1000;
    let j: u32 = (1074 - e) as u32;
    let n: u128 = if j >= 64 {
        proof {
            lemma2_to64_rest();
            if j > 64 {
                lemma_pow2_strictly_increases(64, j as nat);
            }
            lemma_basic_div(v as int, pow2(j as nat) as int);
            lemma_small_mod(v as nat, pow2(j as nat));
        }
        0
    } else {
        let p: u128 = power(j);
        proof {
            lemma_pow2_pos(j as nat);
        }
        let whole: u128 = v / p;
        let rest: u128 = v % p;
        assert(whole <= v) by (nonlinear_arith)
            requires
                whole == v / p,
                p >= 1,
        ;
        if 2 * rest > p || (2 * rest == p && whole % 2 == 1) {
            whole + 1
        } else {
            whole
        }
    };
    push_number(out, n / 1000);
    out.push('.');
    push_three_digits(out, (n % 1000) as u16);
    assert(out@ =~= start + three_decimals(d));
}

/// A size in thousandths is the nearest whole number of them.
proof fn lemma_thousandths_are_near(size: nat)
    ensures
        -(pow2(1074) as int) <= 2 * (thousandths(size) * pow2(1074)) - 2000 * size <= pow2(1074),
{
    let one = pow2(1074);
    lemma_pow2_pos(1074);
    let n = size * 1000;
    let whole = n / one;
    let rest = n % one;
    assert(n == whole * one + rest && rest < one) by (nonlinear_arith)
        requires
            whole == n / one,
            rest == n % one,
            one > 0,
    ;
    assert((whole + 1) * one == whole * one + one) by (nonlinear_arith);
}

/// A number that is not below zero is written as a number with three decimals behind a
/// point, and read again, as thousandths, it is no further from what it was than half of
/// one. A number below zero is written like the one above zero, with a sign before it.
pub proof fn decimals_are_read_back(d: Double)
    requires
        !d.nan() && !d.infinite(),
    ensures
        d.negative() ==> three_decimals(d) == seq!['-'] + three_decimals(d.opposite()),
        !d.negative() ==> {
            let text = three_decimals(d);
            let n = text.len() as int;
            let read = 1000 * digits_value(text.take(n - 4)) + digits_value(text.skip(n - 3));
            &&& n >= 5
            &&& text[n - 4] == '.'
            &&& -(pow2(1074) as int) <= 2 * (read * pow2(1074)) - 2000 * d.value() <= pow2(1074)
        },
{
    reveal(three_decimals);
    lemma_thousandths_are_near(d.size());
    let t = thousandths(d.size());
    let whole = decimal(t / 1000);
    let part = three_digits(t % 1000);
    let plain = whole + seq!['.'] + part;
    written_number_is_read_back(t / 1000, t / 1000);
    assert(without_plus(whole) == whole) by {
        lemma_decimal_starts_with_digit(t / 1000);
    }
    if d.negative() {
        assert(d.opposite().size() == d.size());
        let none = Seq::<char>::empty();
        assert(none + whole + seq!['.'] + part =~= plain);
        assert(seq!['-'] + whole + seq!['.'] + part =~= seq!['-'] + plain);
    } else {
        let text = three_decimals(d);
        let none = Seq::<char>::empty();
        assert(none + whole + seq!['.'] + part =~= plain);
        assert(text == plain);
        let n = text.len() as int;
        assert(text.take(n - 4) =~= whole);
        assert(text.skip(n - 3) =~= part);
        let a = t % 1000 / 100;
        let b = t % 1000 / 10 % 10;
        let c = t % 1000 % 10;
        assert(part.drop_last() =~= seq![digit_char(a), digit_char(b)]);
        assert(part.drop_last().drop_last() =~= seq![digit_char(a)]);
        assert(part.drop_last().drop_last().drop_last() =~= none);
        assert(digits_value(none) == 0);
        let one = seq![digit_char(a)];
        let two = seq![digit_char(a), digit_char(b)];
        assert(one.drop_last() =~= none);
        assert(digits_value(one) == a);
        assert(two.drop_last() =~= one);
        assert(digits_value(two) == 10 * a + b);
        assert(part.last() == digit_char(c));
        assert(digits_value(part) == 10 * (10 * a + b) + c);
        assert(digits_value(part) == t % 1000);
        assert(1000 * (t / 1000) + t % 1000 == t);
    }
}

proof fn lemma_decimal_starts_with_digit(n: nat)
    ensures
        decimal(n).len() > 0,
        '0' <= decimal(n)[0] <= '9',
    decreases n,
{
    if n >= 10 {
        lemma_decimal_starts_with_digit(n / 10);
    }
}

} // verus!
