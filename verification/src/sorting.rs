//! Stable sorting of paths, by merging.
use vstd::prelude::*;
use vstd::seq_lib::*;

use crate::paths::{path_before_or_equal, path_le, path_order_is_total, same_path};

verus! {

/// Whether one place of a list of paths comes before another in sorted order:
/// its path does, or the paths are equal in order and it stands before it in
/// the list.
pub open spec fn sorts_before(paths: Seq<String>, a: usize, b: usize) -> bool {
    path_le(paths[a as int]@, paths[b as int]@) && (path_le(paths[b as int]@, paths[a as int]@)
        ==> a < b)
}

/// Whether places are in sorted order.
pub open spec fn is_sorted(paths: Seq<String>, order: Seq<usize>) -> bool {
    forall|i: int, j: int| 0 <= i < j < order.len() ==> sorts_before(paths, #[trigger] order[i], #[trigger] order[j])
}

/// The places from `lo` up to, but not including, `hi`.
pub open spec fn range(lo: int, hi: int) -> Seq<usize> {
    Seq::new((hi - lo) as nat, |i: int| (lo + i) as usize)
}

/// Whether `order` holds each place from `lo` up to `hi` exactly once.
pub open spec fn is_permutation(order: Seq<usize>, lo: int, hi: int) -> bool {
    order.to_multiset() == range(lo, hi).to_multiset()
}

proof fn lemma_members(order: Seq<usize>, lo: int, hi: int)
    requires
        0 <= lo <= hi <= usize::MAX,
        is_permutation(order, lo, hi),
    ensures
        order.len() == hi - lo,
        forall|i: int| 0 <= i < order.len() ==> lo <= #[trigger] order[i] < hi,
        forall|k: usize| lo <= k < hi ==> order.contains(k),
{
    broadcast use group_to_multiset_ensures;

    let r = range(lo, hi);
    assert(order.len() == order.to_multiset().len());
    assert(r.len() == r.to_multiset().len());
    assert forall|i: int| 0 <= i < order.len() implies lo <= #[trigger] order[i] < hi by {
        assert(order.contains(order[i]));
        assert(order.to_multiset().contains(order[i]));
        assert(r.to_multiset().contains(order[i]));
        assert(r.contains(order[i]));
        let k = choose|k: int| 0 <= k < r.len() && r[k] == order[i];
        assert(r[k] == (lo + k) as usize);
    }
    assert forall|k: usize| lo <= k < hi implies order.contains(k) by {
        assert(r[k - lo] == k);
        assert(r.contains(k));
        assert(r.to_multiset().contains(k));
        assert(order.to_multiset().contains(k));
    }
}

/// Merges two sorted lists of places, all of the first coming before all of the
/// second in the list of paths.
fn merge(paths: &Vec<String>, left: &Vec<usize>, right: &Vec<usize>) -> (r: Vec<usize>)
    requires
        is_sorted(paths@, left@),
        is_sorted(paths@, right@),
        forall|i: int| 0 <= i < left@.len() ==> (#[trigger] left@[i]) < paths@.len(),
        forall|i: int| 0 <= i < right@.len() ==> (#[trigger] right@[i]) < paths@.len(),
        forall|i: int, j: int|
            0 <= i < left@.len() && 0 <= j < right@.len() ==> (#[trigger] left@[i])
                < (#[trigger] right@[j]),
    ensures
        is_sorted(paths@, r@),
        r@.to_multiset() == left@.to_multiset().add(right@.to_multiset()),
{
    broadcast use group_to_multiset_ensures;

    let mut out: Vec<usize> = Vec::new();
    let mut i: usize = 0;
    let mut j: usize = 0;
    assert(left@.take(0) =~= Seq::<usize>::empty());
    assert(right@.take(0) =~= Seq::<usize>::empty());
    assert(out@.to_multiset() =~= left@.take(0).to_multiset().add(right@.take(0).to_multiset()));
    while i < left.len() || j < right.len()
        invariant
            is_sorted(paths@, left@),
            is_sorted(paths@, right@),
            forall|k: int| 0 <= k < left@.len() ==> (#[trigger] left@[k]) < paths@.len(),
            forall|k: int| 0 <= k < right@.len() ==> (#[trigger] right@[k]) < paths@.len(),
            forall|a: int, b: int|
                0 <= a < left@.len() && 0 <= b < right@.len() ==> (#[trigger] left@[a])
                    < (#[trigger] right@[b]),
            i <= left@.len(),
            j <= right@.len(),
            is_sorted(paths@, out@),
            forall|k: int, m: int|
                0 <= k < out@.len() && i <= m < left@.len() ==> sorts_before(
                    paths@,
                    #[trigger] out@[k],
                    #[trigger] left@[m],
                ),
            forall|k: int, m: int|
                0 <= k < out@.len() && j <= m < right@.len() ==> sorts_before(
                    paths@,
                    #[trigger] out@[k],
                    #[trigger] right@[m],
                ),
            out@.to_multiset() == left@.take(i as int).to_multiset().add(
                right@.take(j as int).to_multiset(),
            ),
        decreases left@.len() - i + right@.len() - j,
    {
        broadcast use group_to_multiset_ensures;

        let take_left = if i >= left.len() {
            false
        } else if j >= right.len() {
            true
        } else {
            path_before_or_equal(&paths[left[i]], &paths[right[j]])
        };
        let ghost before = out@;
        if take_left {
            let x: usize = left[i];
            proof {
                assert forall|m: int| j <= m < right@.len() implies sorts_before(
                    paths@,
                    x,
                    #[trigger] right@[m],
                ) by {
                    if m > j {
                        assert(sorts_before(paths@, right@[j as int], right@[m]));
                    }
                    assert(left@[i as int] < right@[m]);
                }
                assert(left@.take(i + 1) =~= left@.take(i as int).push(x));
            }
            out.push(x);
            i = i + 1;
            assert(out@.to_multiset() =~= left@.take(i as int).to_multiset().add(
                right@.take(j as int).to_multiset(),
            ));
        } else {
            let x: usize = right[j];
            proof {
                assert forall|m: int| i <= m < left@.len() implies sorts_before(
                    paths@,
                    x,
                    #[trigger] left@[m],
                ) by {
                    if m > i {
                        assert(sorts_before(paths@, left@[i as int], left@[m]));
                    }
                }
                assert(right@.take(j + 1) =~= right@.take(j as int).push(x));
            }
            out.push(x);
            j = j + 1;
            assert(out@.to_multiset() =~= left@.take(i as int).to_multiset().add(
                right@.take(j as int).to_multiset(),
            ));
        }
    }
    assert(left@.take(left@.len() as int) =~= left@);
    assert(right@.take(right@.len() as int) =~= right@);
    out
}

fn sort_range(paths: &Vec<String>, lo: usize, hi: usize) -> (r: Vec<usize>)
    requires
        lo <= hi <= paths@.len(),
    ensures
        is_sorted(paths@, r@),
        is_permutation(r@, lo as int, hi as int),
    decreases hi - lo,
{
    broadcast use group_to_multiset_ensures;

    if hi - lo < 2 {
        let mut out: Vec<usize> = Vec::new();
        if lo < hi {
            out.push(lo);
        }
        assert(out@ =~= range(lo as int, hi as int));
        return out;
    }
    let mid: usize = lo + (hi - lo) / 2;
    let left = sort_range(paths, lo, mid);
    let right = sort_range(paths, mid, hi);
    proof {
        lemma_members(left@, lo as int, mid as int);
        lemma_members(right@, mid as int, hi as int);
    }
    let out = merge(paths, &left, &right);
    proof {
        let a = range(lo as int, mid as int);
        let b = range(mid as int, hi as int);
        assert(range(lo as int, hi as int) =~= a + b);
        lemma_multiset_commutative(a, b);
    }
    out
}

/// Sorts paths: the result lists the places of the paths in sorted order, equal
/// ones in the order in which they stand.
pub fn sort_paths(paths: &Vec<String>) -> (r: Vec<usize>)
    ensures
        is_sorted(paths@, r@),
        is_permutation(r@, 0, paths@.len() as int),
        r@.len() == paths@.len(),
        forall|i: int| 0 <= i < r@.len() ==> (#[trigger] r@[i]) < paths@.len(),
{
    let n: usize = paths.len();
    let r = sort_range(paths, 0, n);
    proof {
        lemma_members(r@, 0, n as int);
    }
    r
}

/// A sorted order of places, each occurring once, is the only one.
pub proof fn sorted_order_is_unique(paths: Seq<String>, a: Seq<usize>, b: Seq<usize>)
    requires
        is_sorted(paths, a),
        is_sorted(paths, b),
        a.to_multiset() == b.to_multiset(),
    ensures
        a == b,
    decreases a.len(),
{
    broadcast use group_to_multiset_ensures;

    assert(a.len() == a.to_multiset().len());
    assert(b.len() == b.to_multiset().len());
    if a.len() > 0 {
        let x = a[0];
        let y = b[0];
        assert(a.contains(x) && b.contains(y));
        assert(b.to_multiset().contains(x));
        assert(a.to_multiset().contains(y));
        assert(b.contains(x) && a.contains(y));
        let i = choose|i: int| 0 <= i < a.len() && a[i] == y;
        let j = choose|j: int| 0 <= j < b.len() && b[j] == x;
        if x != y {
            assert(sorts_before(paths, a[0], a[i]));
            assert(sorts_before(paths, b[0], b[j]));
            assert(false);
        }
        assert(a.remove(0).to_multiset() =~= b.remove(0).to_multiset());
        assert(a.remove(0) =~= a.skip(1));
        assert(b.remove(0) =~= b.skip(1));
        assert forall|p: int, q: int| 0 <= p < q < a.remove(0).len() implies sorts_before(
            paths,
            #[trigger] a.remove(0)[p],
            #[trigger] a.remove(0)[q],
        ) by {
            assert(a.remove(0)[p] == a[p + 1] && a.remove(0)[q] == a[q + 1]);
        }
        assert forall|p: int, q: int| 0 <= p < q < b.remove(0).len() implies sorts_before(
            paths,
            #[trigger] b.remove(0)[p],
            #[trigger] b.remove(0)[q],
        ) by {
            assert(b.remove(0)[p] == b[p + 1] && b.remove(0)[q] == b[q + 1]);
        }
        sorted_order_is_unique(paths, a.remove(0), b.remove(0));
        assert(a =~= seq![x] + a.remove(0));
        assert(b =~= seq![y] + b.remove(0));
    }
}

/// An order of places that holds each once holds every place.
pub proof fn permutation_has_all(order: Seq<usize>, n: int, k: usize)
    requires
        is_permutation(order, 0, n),
        k < n <= usize::MAX,
    ensures
        order.contains(k),
{
    lemma_members(order, 0, n);
}

/// An order of places that holds each once holds nothing but places.
pub proof fn permutation_is_within(order: Seq<usize>, n: int, i: int)
    requires
        is_permutation(order, 0, n),
        0 <= n <= usize::MAX,
        0 <= i < order.len(),
    ensures
        order[i] < n,
{
    lemma_members(order, 0, n);
}

/// Sorted paths never go down, and of two ways to write one path the one that stood first
/// comes first.
pub proof fn sorted_paths_never_go_down(paths: Seq<String>, order: Seq<usize>, i: int, j: int)
    requires
        is_sorted(paths, order),
        0 <= i < j < order.len(),
    ensures
        path_le(paths[order[i] as int]@, paths[order[j] as int]@),
        same_path(paths[order[i] as int]@, paths[order[j] as int]@) ==> order[i] < order[j],
{
    path_order_is_total(paths[order[i] as int]@, paths[order[j] as int]@);
    assert(sorts_before(paths, order[i], order[j]));
}

} // verus!
