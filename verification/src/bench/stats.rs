//! Averages and percentiles of what was measured.
use vstd::arithmetic::power2::{lemma2_to64, lemma_pow2_adds, lemma_pow2_pos, pow2};
use vstd::prelude::*;
use vstd::seq_lib::*;

use crate::double::{
    magnitude_is_within, magnitudes_are_ordered, nearest, nearest_is_nearest, of_whole,
    product_is_within, rounding_keeps_at_most, rounding_keeps_order, units, whole_is_exact,
    whole_is_within, Double, ONE, ZERO,
};
use crate::precision::{distance, product_is_near, quotient_is_near, sum_is_near};

verus! {

/// The sum of some numbers, in their order.
pub open spec fn total(values: Seq<Double>) -> Double
    decreases values.len(),
{
    if values.len() == 0 {
        Double { bits: ZERO }
    } else {
        total(values.drop_last()).sum(values.last())
    }
}

/// The average of some numbers; zero without any.
pub open spec fn mean(values: Seq<Double>) -> Double {
    if values.len() == 0 {
        Double { bits: ZERO }
    } else {
        total(values).quotient(of_whole(values.len()))
    }
}

/// Works out an average.
pub fn average(values: &Vec<Double>) -> (r: Double)
    ensures
        r == mean(values@),
{
    if values.len() == 0 {
        return Double { bits: ZERO };
    }
    let mut sum = Double { bits: ZERO };
    let mut i: usize = 0;
    while i < values.len()
        invariant
            i <= values@.len(),
            sum == total(values@.take(i as int)),
        decreases values@.len() - i,
    {
        assert(values@.take(i + 1).drop_last() =~= values@.take(i as int));
        sum = sum.plus(values[i]);
        i = i + 1;
    }
    assert(values@.take(values@.len() as int) =~= values@);
    sum.over(Double::from_whole(values.len() as u64))
}

/// What numbers are sorted by: from the least to the greatest, and what is no number
/// at the ends.
pub open spec fn order_key(d: Double) -> u64 {
    if d.bits >= 0x8000_0000_0000_0000 {
        (0xffff_ffff_ffff_ffff - d.bits) as u64
    } else {
        (d.bits + 0x8000_0000_0000_0000) as u64
    }
}

/// Whether numbers are in order.
pub open spec fn in_order(s: Seq<Double>) -> bool {
    forall|i: int, j: int|
        0 <= i <= j < s.len() ==> order_key(#[trigger] s[i]) <= order_key(#[trigger] s[j])
}

/// Whether `sorted` holds the given numbers in order.
pub open spec fn is_sorted_copy(values: Seq<Double>, sorted: Seq<Double>) -> bool {
    sorted.to_multiset() == values.to_multiset() && in_order(sorted)
}

/// Some numbers in order.
pub open spec fn sorted_copy(values: Seq<Double>) -> Seq<Double> {
    choose|s: Seq<Double>| is_sorted_copy(values, s)
}

/// How many numbers can be told apart by their place: up to here the arithmetic of
/// double precision holds every count.
pub const MAX_COUNT: u64 = 0x20_0000_0000_0000;

/// The place, among so many numbers in order, that a percentile takes.
pub open spec fn rank(count: nat, p: Double) -> u64 {
    of_whole((count - 1) as nat).product(
        p.clamped(Double { bits: ZERO }, Double { bits: ONE }),
    ).nearest_wide()
}

/// The number that takes the place of a percentile; zero without numbers.
pub open spec fn percentile(values: Seq<Double>, p: Double) -> Double {
    if values.len() == 0 {
        Double { bits: ZERO }
    } else {
        sorted_copy(values)[rank(values.len(), p) as int]
    }
}

proof fn lemma_key_is_injective(a: Double, b: Double)
    requires
        order_key(a) == order_key(b),
    ensures
        a == b,
{
}

/// There is one order of some numbers, not two.
pub proof fn sorted_copy_is_unique(values: Seq<Double>, a: Seq<Double>, b: Seq<Double>)
    requires
        is_sorted_copy(values, a),
        is_sorted_copy(values, b),
    ensures
        a == b,
    decreases a.len(),
{
    broadcast use group_to_multiset_ensures;

    assert(a.len() == a.to_multiset().len());
    assert(b.len() == b.to_multiset().len());
    if a.len() > 0 {
        let x = a.last();
        let y = b.last();
        assert(b.contains(x)) by {
            assert(a.contains(x));
            assert(a.to_multiset().contains(x));
            assert(b.to_multiset().contains(x));
        }
        assert(a.contains(y)) by {
            assert(b.contains(y));
            assert(b.to_multiset().contains(y));
            assert(a.to_multiset().contains(y));
        }
        let i = choose|i: int| 0 <= i < b.len() && b[i] == x;
        let j = choose|j: int| 0 <= j < a.len() && a[j] == y;
        assert(order_key(b[i]) <= order_key(b[b.len() - 1]));
        assert(order_key(a[j]) <= order_key(a[a.len() - 1]));
        lemma_key_is_injective(x, y);
        let c = a.drop_last();
        let d = b.drop_last();
        assert(c.push(x) =~= a);
        assert(d.push(x) =~= b);
        assert(c.to_multiset() =~= a.to_multiset().remove(x));
        assert(d.to_multiset() =~= b.to_multiset().remove(x));
        assert(in_order(c)) by {
            assert forall|i: int, j: int| 0 <= i <= j < c.len() implies order_key(#[trigger] c[i])
                <= order_key(#[trigger] c[j]) by {
                assert(c[i] == a[i] && c[j] == a[j]);
            }
        }
        assert(in_order(d)) by {
            assert forall|i: int, j: int| 0 <= i <= j < d.len() implies order_key(#[trigger] d[i])
                <= order_key(#[trigger] d[j]) by {
                assert(d[i] == b[i] && d[j] == b[j]);
            }
        }
        sorted_copy_is_unique(c, c, d);
    } else {
        assert(a =~= b);
    }
}

/// Any numbers can be put in order.
pub proof fn sorted_copy_is_sorted(values: Seq<Double>)
    ensures
        is_sorted_copy(values, sorted_copy(values)),
{
    let before = |a: Double, b: Double| order_key(a) <= order_key(b);
    assert(vstd::relations::total_ordering(before)) by {
        assert forall|a: Double, b: Double| #[trigger] before(a, b) && #[trigger] before(b, a)
            implies a == b by {
            lemma_key_is_injective(a, b);
        }
    }
    values.lemma_sort_by_ensures(before);
    let s = values.sort_by(before);
    assert(in_order(s)) by {
        assert forall|i: int, j: int| 0 <= i <= j < s.len() implies order_key(#[trigger] s[i])
            <= order_key(#[trigger] s[j]) by {
            assert(before(s[i], s[j]));
        }
    }
    assert(is_sorted_copy(values, s));
}

fn key_of(d: Double) -> (r: u64)
    ensures
        r == order_key(d),
{
    if d.bits >= 0x8000_0000_0000_0000 {
        0xffff_ffff_ffff_ffff - d.bits
    } else {
        d.bits + 0x8000_0000_0000_0000
    }
}

fn sort(values: &Vec<Double>) -> (r: Vec<Double>)
    ensures
        is_sorted_copy(values@, r@),
        r@.len() == values@.len(),
{
    broadcast use group_to_multiset_ensures;

    let mut out: Vec<Double> = Vec::new();
    let mut i: usize = 0;
    assert(values@.take(0) =~= seq![]);
    assert(out@ =~= seq![]);
    while i < values.len()
        invariant
            i <= values@.len(),
            out@.len() == i,
            out@.to_multiset() == values@.take(i as int).to_multiset(),
            in_order(out@),
        decreases values@.len() - i,
    {
        let v = values[i];
        let key: u64 = key_of(v);
        let mut at: usize = out.len();
        while at > 0 && key < key_of(out[at - 1])
            invariant
                at <= out@.len(),
                key == order_key(v),
                in_order(out@),
                forall|k: int| at <= k < out@.len() ==> key < order_key(#[trigger] out@[k]),
            decreases at,
        {
            at = at - 1;
        }
        let ghost before = out@;
        out.insert(at, v);
        proof {
            broadcast use group_to_multiset_ensures;

            to_multiset_insert(before, at as int, v);
            assert(out@ =~= before.insert(at as int, v));
            let taken = values@.take(i as int);
            assert(values@.take(i + 1) =~= taken.push(v));
            assert(taken.push(v).to_multiset() =~= taken.to_multiset().insert(v));
        }
        assert(in_order(out@)) by {
            assert forall|a: int, b: int| 0 <= a <= b < out@.len() implies order_key(
                #[trigger] out@[a],
            ) <= order_key(#[trigger] out@[b]) by {
                if a < at && b > at {
                    assert(out@[a] == before[a] && out@[b] == before[b - 1]);
                } else if a < at && b == at {
                    assert(out@[a] == before[a]);
                    assert(order_key(before[a]) <= order_key(before[at - 1]));
                } else if a == at && b > at {
                    assert(out@[b] == before[b - 1]);
                } else if a > at {
                    assert(out@[a] == before[a - 1] && out@[b] == before[b - 1]);
                } else if b < at {
                    assert(out@[a] == before[a] && out@[b] == before[b]);
                }
            }
        }
        i = i + 1;
    }
    assert(values@.take(values@.len() as int) =~= values@);
    out
}

proof fn lemma_bounded_percentile(p: Double)
    ensures
        ({
            let c = p.clamped(Double { bits: ZERO }, Double { bits: ONE });
            &&& c.nan() || c.size() <= pow2(1074)
            &&& !c.infinite()
        }),
{
    assert(units(0) == 0);
    whole_is_exact(1);
    magnitude_is_within(Double { bits: ONE }, 0);
    magnitudes_are_ordered(0, ONE as int);
    let c = p.clamped(Double { bits: ZERO }, Double { bits: ONE });
    if c.infinite() {
        magnitudes_are_ordered(ONE as int, c.magnitude());
    }
}

/// The place of a percentile is one of the places.
pub proof fn rank_is_a_place(count: nat, p: Double)
    requires
        0 < count <= MAX_COUNT,
    ensures
        rank(count, p) < count,
{
    let n = (count - 1) as nat;
    let a = of_whole(n);
    let c = p.clamped(Double { bits: ZERO }, Double { bits: ONE });
    let u = pow2(1074);
    lemma_pow2_pos(1074);
    whole_is_exact(n);
    lemma_bounded_percentile(p);
    if !c.nan() {
        let x = a.size();
        let y = c.size();
        assert(x * y <= x * u) by (nonlinear_arith)
            requires
                y <= u,
        ;
        rounding_keeps_at_most(a.magnitude(), x * y, u);
        nearest_is_nearest(x * y, u);
        let m = nearest(x * y, u);
        if m < a.magnitude() {
            magnitudes_are_ordered(m, a.magnitude());
        }
        let s = units(m);
        let w = (2 * s + u) / (2 * u);
        assert(w <= n) by (nonlinear_arith)
            requires
                s <= n * u,
                u > 0,
                w == (2 * s + u) / (2 * u),
        {
            assert(w * (2 * u) <= 2 * s + u);
            assert(w * (2 * u) < (n + 1) * (2 * u));
        }
    }
}

/// A higher percentile takes no earlier place.
pub proof fn percentiles_are_ordered(values: Seq<Double>, p: Double, q: Double)
    requires
        0 < values.len() <= MAX_COUNT,
        p.at_most(q),
    ensures
        order_key(percentile(values, p)) <= order_key(percentile(values, q)),
{
    broadcast use group_to_multiset_ensures;

    let count = values.len();
    let sorted = sorted_copy(values);
    sorted_copy_is_sorted(values);
    assert(sorted.len() == sorted.to_multiset().len());
    assert(values.len() == values.to_multiset().len());
    rank_is_a_place(count, p);
    rank_is_a_place(count, q);
    lemma_bounded_percentile(p);
    lemma_bounded_percentile(q);
    let a = of_whole((count - 1) as nat);
    whole_is_exact((count - 1) as nat);
    let c = p.clamped(Double { bits: ZERO }, Double { bits: ONE });
    let d = q.clamped(Double { bits: ZERO }, Double { bits: ONE });
    let u = pow2(1074);
    lemma_pow2_pos(1074);
    assert(units(0) == 0);
    magnitudes_are_ordered(0, ONE as int);
    let x = a.size();
    if c.negative() {
        assert(c.magnitude() == 0) by {
            if c.magnitude() > 0 {
                magnitudes_are_ordered(0, c.magnitude());
            }
        }
        nearest_is_nearest(x * c.size(), u);
        assert(rank(count, p) == 0);
    } else {
        let y = c.size();
        let z = d.size();
        assert(x * y <= x * z) by (nonlinear_arith)
            requires
                y <= z,
        ;
        rounding_keeps_order(x * y, x * z, u);
        nearest_is_nearest(x * y, u);
        nearest_is_nearest(x * z, u);
        let m = nearest(x * y, u);
        let k = nearest(x * z, u);
        if m < k {
            magnitudes_are_ordered(m, k);
        }
        let s = units(m);
        let t = units(k);
        assert((2 * s + u) / (2 * u) <= (2 * t + u) / (2 * u)) by (nonlinear_arith)
            requires
                s <= t,
                u > 0,
        ;
        if d.negative() {
            assert(x * z == 0) by (nonlinear_arith)
                requires
                    z == 0,
            ;
            rounding_keeps_at_most(0, 0, u);
            assert((2 * 0 + u) / (2 * u) == 0) by (nonlinear_arith)
                requires
                    u > 0,
            ;
        }
    }
    assert(rank(count, p) <= rank(count, q));
}

/// Finds the number that takes the place of a percentile.
pub fn percentile_ms(values: &Vec<Double>, p: Double) -> (r: Double)
    requires
        values@.len() <= MAX_COUNT,
    ensures
        r == percentile(values@, p),
{
    if values.len() == 0 {
        return Double { bits: ZERO };
    }
    let sorted = sort(values);
    proof {
        sorted_copy_is_sorted(values@);
        sorted_copy_is_unique(values@, sorted@, sorted_copy(values@));
        rank_is_a_place(values@.len(), p);
        magnitudes_are_ordered(0, ONE as int);
    }
    let kept = p.clamp(Double { bits: ZERO }, Double { bits: ONE });
    let place: u64 = Double::from_whole((sorted.len() - 1) as u64).times(kept).round_to_wide();
    sorted[place as usize]
}

/// Numbers are sorted by their value: one that is less comes first, and two zeros are the
/// only numbers of one value that are told apart.
pub proof fn sorting_goes_by_value(a: Double, b: Double)
    requires
        !a.nan() && !b.nan(),
    ensures
        a.value() < b.value() ==> order_key(a) < order_key(b),
        order_key(a) < order_key(b) ==> a.value() <= b.value(),
{
    assert(units(0) == 0);
    let (m, n) = (a.magnitude(), b.magnitude());
    if m < n {
        magnitudes_are_ordered(m, n);
    } else if n < m {
        magnitudes_are_ordered(n, m);
    }
    if m > 0 {
        magnitudes_are_ordered(0, m);
    }
    if n > 0 {
        magnitudes_are_ordered(0, n);
    }
}

/// The place of a percentile is that part of the way from the first place to the last,
/// to the nearest place; rounding takes it no further than a millionth of one.
pub proof fn rank_is_the_nearest_place(count: nat, p: Double)
    requires
        0 < count <= 0x1_0000_0000,
        !p.nan() && 0 <= p.value() <= pow2(1074),
    ensures
        distance(
            2 * (rank(count, p) * pow2(1074)),
            2 * ((count - 1) * p.value()),
        ) <= pow2(1074) + pow2(1054),
{
    let u = pow2(1074);
    lemma_pow2_pos(1074);
    lemma2_to64();
    let zero = Double { bits: ZERO };
    let one = Double { bits: ONE };
    assert(units(0) == 0);
    assert(one.value() == u) by {
        crate::double::lemma_power_magnitude(0);
    }
    let c = p.clamped(zero, one);
    assert(c == p);
    let n = (count - 1) as nat;
    whole_is_exact(n);
    whole_is_within(n, 32);
    let a = of_whole(n);
    assert(p.within(0));
    product_is_near(a, p, 32, 0);
    product_is_within(a, p, 32, 0);
    let r = a.product(p);
    let v = p.value();
    let w = r.value();
    let e = pow2(1052) as int;
    assert((n * u) * v == (n * v) * u) by (nonlinear_arith);
    assert(w - n * v <= e) by (nonlinear_arith)
        requires
            w * u - (n * v) * u <= e * u,
            u > 0,
    ;
    assert(n * v - w <= e) by (nonlinear_arith)
        requires
            (n * v) * u - w * u <= e * u,
            u > 0,
    ;
    lemma_pow2_adds(1052, 1);
    lemma_pow2_adds(1053, 1);
    let b = r.size();
    let k = (2 * b + u) / (2 * u);
    let rest = (2 * b + u) % (2 * u);
    assert(2 * b + u == k * (2 * u) + rest && rest < 2 * u) by (nonlinear_arith)
        requires
            k == (2 * b + u) / (2 * u),
            rest == (2 * b + u) % (2 * u),
            u > 0,
    ;
    assert(k * (2 * u) == 2 * (k * u)) by (nonlinear_arith);
    lemma_pow2_adds(1074, 32);
    crate::double::lemma_within_is_finite(r, 32);
    assert(k <= 0x1_0000_0001) by (nonlinear_arith)
        requires
            2 * (k * u) <= 2 * b + u,
            b <= u * 0x1_0000_0000,
            u > 0,
    ;
    assert(n * v >= 0) by (nonlinear_arith)
        requires
            v >= 0,
            n >= 0,
    ;
    if r.negative() {
        // Only a zero with a sign is not above zero here.
        assert(rank(count, p) == 0);
        assert(n * v <= e);
        lemma_pow2_adds(1054, 20);
        assert(rank(count, p) * u == 0) by (nonlinear_arith)
            requires
                rank(count, p) == 0,
        ;
    }
}

/// Another number adds itself to the total, and the average is the total by as many as
/// there are, to rounding: totals are taken to be up to `2^60`.
pub proof fn average_is_the_total_by_the_count(values: Seq<Double>, value: Double)
    requires
        values.len() < 0x1_0000_0000,
        total(values).within(60),
        value.within(60),
    ensures
        distance(total(values.push(value)).value(), total(values).value() + value.value()) <= pow2(
            1081,
        ),
        values.len() > 0 ==> distance(
            mean(values).value() * values.len(),
            total(values).value(),
        ) <= pow2(1080) * values.len(),
        mean(Seq::<Double>::empty()).value() == 0,
        total(Seq::<Double>::empty()).value() == 0,
{
    let u = pow2(1074);
    lemma_pow2_pos(1074);
    lemma2_to64();
    assert(units(0) == 0);
    assert(values.push(value).drop_last() =~= values);
    lemma_pow2_adds(1134, 1);
    crate::double::lemma_within_is_finite(total(values), 60);
    crate::double::lemma_within_is_finite(value, 60);
    sum_is_near(total(values), value, 61);
    if values.len() > 0 {
        let n = values.len();
        whole_is_exact(n);
        let b = of_whole(n);
        assert(n * u >= u) by (nonlinear_arith)
            requires
                n >= 1,
                u > 0,
        ;
        quotient_is_near(total(values), b, 60, 0);
        let q = mean(values).value();
        let t = total(values).value();
        let e = pow2(1080) as int;
        assert(q * (n * u) == (q * n) * u) by (nonlinear_arith);
        assert(e * (n * u) == (e * n) * u) by (nonlinear_arith);
        assert(q * n - t <= e * n) by (nonlinear_arith)
            requires
                (q * n) * u - t * u <= (e * n) * u,
                u > 0,
        ;
        assert(t - q * n <= e * n) by (nonlinear_arith)
            requires
                t * u - (q * n) * u <= (e * n) * u,
                u > 0,
        ;
    }
}

/// The number at a percentile is one of the numbers, the least at zero and the greatest
/// at one.
pub proof fn percentile_is_one_of_the_numbers(values: Seq<Double>, p: Double)
    requires
        0 < values.len() <= MAX_COUNT,
    ensures
        values.contains(percentile(values, p)),
        percentile(Seq::<Double>::empty(), p).value() == 0,
{
    broadcast use group_to_multiset_ensures;

    assert(units(0) == 0);
    sorted_copy_is_sorted(values);
    rank_is_a_place(values.len(), p);
    let s = sorted_copy(values);
    assert(s.len() == s.to_multiset().len());
    assert(values.len() == values.to_multiset().len());
    let k = rank(values.len(), p) as int;
    assert(s.contains(s[k]));
    assert(s.to_multiset().contains(s[k]));
}

} // verus!
