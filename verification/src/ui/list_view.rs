//! The scrolling list of rows: how wide its content is, where its rows lie and which
//! are visible.
use vstd::arithmetic::power2::{lemma2_to64, lemma_pow2_adds, lemma_pow2_pos, pow2};
use vstd::prelude::*;

use crate::double::{self, of_single, sum_is_at_least, Double};
use crate::models::row_model::RowModel;
use crate::precision::{distance, sum_is_near};
use crate::single::{of_whole, whole_difference_is_exact, whole_is_exact, Single, ZERO};

verus! {

/// The width that is left for rows: what is allocated, less a scroll bar that is
/// shown.
pub open spec fn left_for_rows(alloc: int, bar_visible: bool, bar_width: int) -> Single {
    if alloc <= 0 {
        Single { bits: ZERO }
    } else if bar_visible && bar_width > 0 {
        of_whole(alloc as nat).sum(of_whole(bar_width as nat).opposite()).larger(
            Single { bits: ZERO },
        )
    } else {
        of_whole(alloc as nat)
    }
}

/// Where each row begins, and where the last ends.
pub open spec fn offsets_of(rows: Seq<RowModel>) -> Seq<Double>
    decreases rows.len(),
{
    if rows.len() == 0 {
        seq![Double { bits: double::ZERO }]
    } else {
        let before = offsets_of(rows.drop_last());
        before.push(before.last().sum(of_single(rows.last().height_px)))
    }
}

/// How many of the given heights, from the first on, are no larger than `y`.
pub open spec fn no_larger(offsets: Seq<Double>, y: Double) -> nat
    decreases offsets.len(),
{
    if offsets.len() > 0 && offsets[0].at_most(y) {
        1 + no_larger(offsets.skip(1), y)
    } else {
        0
    }
}

/// The row that lies at a height: the last that begins no lower.
pub open spec fn row_at(offsets: Seq<Double>, count: u32, y: Double) -> u32 {
    let n = no_larger(offsets, y);
    let at = if n > 0 {
        n - 1
    } else {
        0
    };
    if at < count - 1 {
        at as u32
    } else {
        (count - 1) as u32
    }
}

/// Heights go down the list.
pub open spec fn ascending(offsets: Seq<Double>) -> bool {
    forall|i: int, j: int|
        0 <= i <= j < offsets.len() ==> (#[trigger] offsets[i]).at_most(#[trigger] offsets[j])
}

/// Whether the height of a row is a number and not below zero.
pub open spec fn has_height(row: RowModel) -> bool {
    !row.height_px.nan() && !row.height_px.negative() && !row.height_px.infinite()
}

proof fn lemma_no_larger(offsets: Seq<Double>, y: Double, n: int)
    requires
        0 <= n <= offsets.len(),
        forall|i: int| 0 <= i < n ==> (#[trigger] offsets[i]).at_most(y),
        n < offsets.len() ==> !offsets[n].at_most(y),
    ensures
        no_larger(offsets, y) == n,
    decreases n,
{
    if n > 0 {
        assert(offsets[0].at_most(y));
        let rest = offsets.skip(1);
        assert forall|i: int| 0 <= i < n - 1 implies (#[trigger] rest[i]).at_most(y) by {
            assert(rest[i] == offsets[i + 1]);
        }
        lemma_no_larger(rest, y, n - 1);
    }
}

/// The list of rows: where each begins, and which are visible.
pub struct MediaListView {
    pub visible_range: (u32, u32),
    pub selection: (u32, u32),
    pub row_offsets: Vec<Double>,
}

impl MediaListView {
    /// A list without rows.
    pub fn new() -> (r: Self)
        ensures
            r.visible_range == (0u32, 0u32),
            r.selection == (0u32, 0u32),
            r.row_offsets@.len() == 0,
    {
        MediaListView { visible_range: (0, 0), selection: (0, 0), row_offsets: Vec::new() }
    }

    /// The width that is left for rows.
    pub fn content_width(alloc: i32, bar_visible: bool, bar_width: i32) -> (r: Single)
        ensures
            r == left_for_rows(alloc as int, bar_visible, bar_width as int),
    {
        if alloc <= 0 {
            return Single { bits: ZERO };
        }
        let width = Single::from_whole(alloc as u64);
        if bar_visible && bar_width > 0 {
            width.minus(Single::from_whole(bar_width as u64)).max(Single { bits: ZERO })
        } else {
            width
        }
    }

    /// Takes in other rows.
    pub fn set_rows(&mut self, rows: &Vec<RowModel>)
        ensures
            final(self).row_offsets@ == offsets_of(rows@),
            final(self).visible_range == old(self).visible_range,
            final(self).selection == old(self).selection,
    {
        let mut offsets: Vec<Double> = Vec::new();
        let mut y = Double { bits: double::ZERO };
        offsets.push(y);
        let mut i: usize = 0;
        assert(offsets@ =~= offsets_of(rows@.take(0)));
        while i < rows.len()
            invariant
                i <= rows@.len(),
                offsets@ == offsets_of(rows@.take(i as int)),
                offsets@.len() > 0,
                y == offsets@.last(),
            decreases rows@.len() - i,
        {
            assert(rows@.take(i + 1).drop_last() =~= rows@.take(i as int));
            y = y.plus(Double::from_single(rows[i].height_px));
            offsets.push(y);
            i = i + 1;
        }
        assert(rows@.take(rows@.len() as int) =~= rows@);
        self.row_offsets = offsets;
    }

    /// Notes which item is selected.
    pub fn set_selection(&mut self, row: u32, col: u32)
        ensures
            final(self).selection == (row, col),
            final(self).visible_range == old(self).visible_range,
            final(self).row_offsets == old(self).row_offsets,
    {
        self.selection = (row, col);
    }

    /// The row that lies at a height.
    fn find_row(&self, count: u32, y: Double) -> (r: u32)
        requires
            count > 0,
            ascending(self.row_offsets@),
        ensures
            r == row_at(self.row_offsets@, count, y),
    {
        let mut lo: usize = 0;
        let mut hi: usize = self.row_offsets.len();
        while lo < hi
            invariant
                lo <= hi <= self.row_offsets@.len(),
                ascending(self.row_offsets@),
                forall|i: int| 0 <= i < lo ==> (#[trigger] self.row_offsets@[i]).at_most(y),
                forall|i: int|
                    hi <= i < self.row_offsets@.len() ==> !(#[trigger] self.row_offsets@[i]).at_most(
                        y,
                    ),
            decreases hi - lo,
        {
            let mid: usize = lo + (hi - lo) / 2;
            if self.row_offsets[mid].is_at_most(y) {
                lo = mid + 1;
            } else {
                hi = mid;
            }
        }
        proof {
            lemma_no_larger(self.row_offsets@, y, lo as int);
        }
        let at: usize = if lo > 0 {
            lo - 1
        } else {
            0
        };
        if at < (count - 1) as usize {
            at as u32
        } else {
            count - 1
        }
    }

    /// Notes that the list was scrolled to a height and shows a page. Tells the rows
    /// that are visible then, where they are others than before.
    pub fn visible_range_changed(&mut self, count: u32, value: Double, page_size: Double) -> (r:
        Option<(u32, u32)>)
        requires
            ascending(old(self).row_offsets@),
        ensures
            final(self).row_offsets == old(self).row_offsets,
            final(self).selection == old(self).selection,
            ({
                let seen = (
                    row_at(old(self).row_offsets@, count, value),
                    row_at(old(self).row_offsets@, count, value.sum(page_size)),
                );
                if count == 0 || old(self).row_offsets@.len() < count + 1
                    || old(self).visible_range == seen {
                    r is None && final(self).visible_range == old(self).visible_range
                } else {
                    r == Some(seen) && final(self).visible_range == seen
                }
            }),
    {
        if count == 0 || self.row_offsets.len() <= count as usize {
            return None;
        }
        let first: u32 = self.find_row(count, value);
        let last: u32 = self.find_row(count, value.plus(page_size));
        if self.visible_range.0 == first && self.visible_range.1 == last {
            return None;
        }
        self.visible_range = (first, last);
        Some((first, last))
    }

    /// Where the list is scrolled to so that a row is seen: to where the row begins,
    /// or where the list is if there is no such row, but not past the end.
    pub fn scroll_to_row(&self, index: u32, value: Double, upper: Double, page_size: Double) -> (r:
        Double)
        ensures
            r == ({
                let position = if index < self.row_offsets@.len() {
                    self.row_offsets@[index as int]
                } else {
                    value
                };
                position.smaller(
                    upper.sum(page_size.opposite()).larger(Double { bits: double::ZERO }),
                )
            }),
    {
        let position = if (index as usize) < self.row_offsets.len() {
            self.row_offsets[index as usize]
        } else {
            value
        };
        position.min(upper.minus(page_size).max(Double { bits: double::ZERO }))
    }
}

/// Rows of some height each begin no higher than those before.
pub proof fn rows_go_down_the_list(rows: Seq<RowModel>)
    requires
        forall|i: int| 0 <= i < rows.len() ==> has_height(#[trigger] rows[i]),
    ensures
        ascending(offsets_of(rows)),
        offsets_of(rows).len() == rows.len() + 1,
    decreases rows.len(),
{
    if rows.len() > 0 {
        let less = rows.drop_last();
        assert forall|i: int| 0 <= i < less.len() implies has_height(#[trigger] less[i]) by {
            assert(less[i] == rows[i]);
        }
        rows_go_down_the_list(less);
        let before = offsets_of(less);
        let height = of_single(rows.last().height_px);
        assert(has_height(rows[rows.len() - 1]));
        double::single_is_kept(rows.last().height_px);
        assert(before.last().at_most(before[before.len() - 1]));
        sum_is_at_least(before.last(), height);
        let after = offsets_of(rows);
        assert forall|i: int, j: int| 0 <= i <= j < after.len() implies (
        #[trigger] after[i]).at_most(#[trigger] after[j]) by {
            if j < before.len() {
                assert(after[i] == before[i] && after[j] == before[j]);
            } else if i < before.len() {
                assert(after[i] == before[i]);
                assert(before[i].at_most(before[before.len() - 1]));
            }
        }
    }
}

/// The visible rows are within the list, and the last is no earlier than the first.
pub proof fn visible_rows_are_in_order(
    offsets: Seq<Double>,
    count: u32,
    value: Double,
    page_size: Double,
)
    requires
        count > 0,
        ascending(offsets),
        !value.nan(),
        !page_size.nan() && !page_size.negative() && !page_size.infinite(),
    ensures
        row_at(offsets, count, value) <= row_at(offsets, count, value.sum(page_size)) < count,
{
    sum_is_at_least(value, page_size);
    lemma_no_larger_grows(offsets, value, value.sum(page_size));
}

proof fn lemma_no_larger_grows(offsets: Seq<Double>, a: Double, b: Double)
    requires
        a.at_most(b),
    ensures
        no_larger(offsets, a) <= no_larger(offsets, b),
    decreases offsets.len(),
{
    if offsets.len() > 0 && offsets[0].at_most(a) {
        lemma_no_larger_grows(offsets.skip(1), a, b);
    }
}

/// The width that is left for rows is what is allocated, less the scroll bar where one
/// is shown, and nothing where the bar is wider.
pub proof fn scroll_bar_takes_its_width(alloc: int, bar_visible: bool, bar_width: int)
    requires
        alloc < 0x100_0000,
        0 <= bar_width < 0x100_0000,
    ensures
        ({
            let left = left_for_rows(alloc, bar_visible, bar_width);
            let bar = if bar_visible {
                bar_width
            } else {
                0
            };
            left.value() == if alloc > bar {
                (alloc - bar) * pow2(149)
            } else {
                0
            }
        }),
{
    lemma_pow2_pos(149);
    assert(crate::single::units(0) == 0);
    if alloc > 0 {
        whole_is_exact(alloc as nat);
        if bar_visible && bar_width > 0 {
            whole_is_exact(bar_width as nat);
            let u = pow2(149) as int;
            if bar_width <= alloc {
                whole_difference_is_exact(alloc as nat, bar_width as nat);
                assert((alloc - bar_width) * u >= 0) by (nonlinear_arith)
                    requires
                        bar_width <= alloc,
                        u > 0,
                ;
                assert(alloc == bar_width ==> (alloc - bar_width) * u == 0) by (nonlinear_arith);
            } else {
                let v = alloc * u - bar_width * u;
                assert(v < 0) by (nonlinear_arith)
                    requires
                        v == alloc * u - bar_width * u,
                        alloc < bar_width,
                        u > 0,
                ;
                crate::single::nearest_is_nearest((-v) as nat, 1);
                let m = crate::single::nearest((-v) as nat, 1);
                let sum = of_whole(alloc as nat).sum(of_whole(bar_width as nat).opposite());
                assert(sum == crate::single::of_parts(true, m));
                assert(sum.larger(Single { bits: ZERO }).value() == 0) by {
                    if m > 0 {
                        crate::single::magnitudes_are_ordered(0, m);
                    }
                    if (Single { bits: ZERO }).value() == sum.value() {
                        assert(sum.larger(Single { bits: ZERO }) == sum);
                    }
                }
            }
        } else {
            let u = pow2(149) as int;
            assert((alloc - 0) * u == alloc * u);
        }
    }
}

/// Each row begins where the one before it ends: another row is put below the others,
/// and the list ends lower by its height, to a `2^14`th of a pixel for lists of up to
/// `2^39` pixels.
pub proof fn rows_follow_each_other(rows: Seq<RowModel>, row: RowModel)
    requires
        has_height(row),
        row.height_px.size() <= pow2(149 + 32),
        offsets_of(rows).last().within(39),
        offsets_of(rows).len() > 0,
    ensures
        offsets_of(rows.push(row)).drop_last() == offsets_of(rows),
        distance(
            offsets_of(rows.push(row)).last().value(),
            offsets_of(rows).last().value() + row.height_px.value() * pow2(925),
        ) <= pow2(1060),
        offsets_of(Seq::<RowModel>::empty()).len() == 1,
        offsets_of(Seq::<RowModel>::empty())[0].value() == 0,
{
    assert(rows.push(row).drop_last() =~= rows);
    assert(offsets_of(rows.push(row)).drop_last() =~= offsets_of(rows));
    double::single_keeps_its_value(row.height_px);
    let h = row.height_px.size();
    let b = pow2(925);
    lemma_pow2_adds(149 + 32, 925);
    lemma_pow2_adds(1074 + 32, 7);
    lemma_pow2_adds(1074 + 39, 1);
    lemma_pow2_pos(1074 + 32);
    lemma2_to64();
    let top = pow2(149 + 32);
    assert(h * b <= top * b) by (nonlinear_arith)
        requires
            h <= top,
    ;
    double::lemma_within_is_finite(offsets_of(rows).last(), 39);
    sum_is_near(offsets_of(rows).last(), of_single(row.height_px), 40);
    assert(double::units(0) == 0);
}

/// The row at a height is the one in which that height lies: it begins no lower, and the
/// next begins lower. Above the list it is the first row, below it the last.
pub proof fn row_at_a_height_holds_it(offsets: Seq<Double>, count: u32, y: Double)
    requires
        count > 0,
        offsets.len() == count + 1,
        ascending(offsets),
        !y.nan(),
    ensures
        ({
            let r = row_at(offsets, count, y);
            &&& r < count
            &&& offsets[0].at_most(y) ==> offsets[r as int].at_most(y)
            &&& !offsets[0].at_most(y) ==> r == 0
            &&& !offsets[r + 1].at_most(y) || r == count - 1
        }),
{
    let n = lemma_no_larger_is(offsets, y);
    assert(offsets[0].at_most(offsets[0]));
}

proof fn lemma_no_larger_is(offsets: Seq<Double>, y: Double) -> (n: int)
    ensures
        n == no_larger(offsets, y),
        0 <= n <= offsets.len(),
        forall|i: int| 0 <= i < n ==> (#[trigger] offsets[i]).at_most(y),
        n < offsets.len() ==> !offsets[n].at_most(y),
    decreases offsets.len(),
{
    if offsets.len() > 0 && offsets[0].at_most(y) {
        let rest = offsets.skip(1);
        let n = lemma_no_larger_is(rest, y);
        assert forall|i: int| 0 <= i < n + 1 implies (#[trigger] offsets[i]).at_most(y) by {
            if i > 0 {
                assert(rest[i - 1] == offsets[i]);
            }
        }
        if n + 1 < offsets.len() {
            assert(rest[n] == offsets[n + 1]);
        }
        n + 1
    } else {
        0
    }
}

} // verus!
