//! The dense flow layout: tiles of one height, each as wide as its aspect ratio
//! asks, placed left to right and wrapped at the width of the viewport.
use vstd::arithmetic::power2::{lemma_pow2_adds, lemma_pow2_pos, pow2};
use vstd::prelude::*;

use crate::models::media_item::{MediaItem, MediaType};
use crate::models::row_model::{are_rows, row_view, RowItem, RowModel};
use crate::single::{
    is_nearest, lemma_fraction_is, lemma_units_of, magnitudes_are_ordered, nearest,
    nearest_is_nearest, nearest_is_unique, of_parts, of_whole, rounding_error,
    rounding_keeps_at_least, rounding_keeps_at_most, rounding_keeps_fractions,
    sum_of_positives_is_near, units, whole_is_exact, Single, INFINITE, ONE, ZERO,
};

verus! {

/// The bits of the smallest aspect ratio of a tile, one hundredth.
pub const MIN_ASPECT: u32 = 0x3c23_d70a;

/// The bits of the smallest aspect ratio that a video is believed, one fifth.
pub const MIN_VIDEO_ASPECT: u32 = 0x3e4c_cccd;

/// The bits of the largest aspect ratio that a video is believed, five.
pub const MAX_VIDEO_ASPECT: u32 = 0x40a0_0000;

/// The bits of the aspect ratio of a video that is not believed, sixteen ninths.
pub const VIDEO_ASPECT: u32 = 0x3fe3_8e39;

/// The settings of the layout, in pixels.
#[derive(Clone, Copy, PartialEq, Eq, Structural, Debug)]
pub struct JustifiedLayout {
    /// The height that rows should have.
    pub target_height: Single,
    /// The smallest height of a row.
    pub min_height: Single,
    /// The largest height of a row.
    pub max_height: Single,
    /// The gap between the items of a row.
    pub gap: Single,
}

impl Default for JustifiedLayout {
    fn default() -> (r: Self)
        ensures
            r.target_height.bits == 0x435c_0000,
            r.min_height.bits == ONE,
            r.max_height.bits == 0x461c_4000,
            r.gap.bits == ZERO,
            r.wf(),
    {
        proof {
            magnitudes_are_ordered(0x3f80_0000, 0x461c_4000);
        }
        JustifiedLayout {
            target_height: Single { bits: 0x435c_0000 },
            min_height: Single { bits: ONE },
            max_height: Single { bits: 0x461c_4000 },
            gap: Single { bits: ZERO },
        }
    }
}

/// Whether a viewport is a number that is not positive.
pub open spec fn no_width(viewport_width: Single) -> bool {
    !viewport_width.nan() && !(Single { bits: ZERO }).less(viewport_width)
}

/// The height that a row has once it holds another item.
pub open spec fn taller(height: Single, tile: RowItem) -> Single {
    height.larger(tile.display_h.sum(tile.offset_top))
}

/// The height of a row that holds the given items.
pub open spec fn row_height(tiles: Seq<RowItem>) -> Single
    decreases tiles.len(),
{
    if tiles.len() == 0 {
        Single { bits: ONE }
    } else {
        taller(row_height(tiles.drop_last()), tiles.last())
    }
}

impl JustifiedLayout {
    /// The smallest height is a number no larger than the largest.
    pub open spec fn wf(self) -> bool {
        !self.min_height.nan() && !self.max_height.nan() && !self.max_height.less(self.min_height)
    }

    /// The height of every tile.
    pub open spec fn height(self) -> Single {
        self.target_height.larger(Single { bits: ONE }).clamped(
            self.min_height,
            self.max_height,
        ).larger(Single { bits: ONE })
    }

    /// The aspect ratio of the tile of an item.
    pub open spec fn tile_aspect(item: MediaItem) -> Single {
        let ratio = item.aspect().larger(Single { bits: MIN_ASPECT });
        if item.media_type == MediaType::Video && (ratio.less(Single { bits: MIN_VIDEO_ASPECT })
            || (Single { bits: MAX_VIDEO_ASPECT }).less(ratio)) {
            Single { bits: VIDEO_ASPECT }
        } else {
            ratio
        }
    }

    /// The tile of an item.
    pub open spec fn tile(self, item: MediaItem) -> RowItem {
        RowItem {
            media_path: item.path,
            display_w: self.height().product(Self::tile_aspect(item)).larger(Single { bits: ONE }),
            display_h: self.height(),
            offset_top: Single { bits: ZERO },
            is_folder: item.media_type == MediaType::Folder,
        }
    }

    /// The tiles of some items.
    pub open spec fn tiles(self, items: Seq<MediaItem>) -> Seq<RowItem> {
        items.map_values(|item: MediaItem| self.tile(item))
    }

    /// The width at which rows wrap.
    pub open spec fn limit(viewport_width: Single) -> Single {
        viewport_width.larger(Single { bits: ONE })
    }

    /// The width of a row once it holds another tile.
    pub open spec fn wider(self, count: nat, width: Single, tile: RowItem) -> Single {
        if count > 0 {
            width.sum(self.gap).sum(tile.display_w)
        } else {
            width.sum(tile.display_w)
        }
    }

    /// The width of a row of tiles.
    pub open spec fn row_width(self, tiles: Seq<RowItem>) -> Single
        decreases tiles.len(),
    {
        if tiles.len() == 0 {
            Single { bits: ZERO }
        } else {
            self.wider(
                (tiles.len() - 1) as nat,
                self.row_width(tiles.drop_last()),
                tiles.last(),
            )
        }
    }

    /// Whether another tile does not fit in a row that holds some already.
    pub open spec fn wraps(self, limit: Single, row: Seq<RowItem>, tile: RowItem) -> bool {
        row.len() > 0 && limit.less(self.row_width(row.push(tile)))
    }

    /// The complete rows, and the row being filled, once all tiles are placed.
    pub open spec fn flow(self, limit: Single, tiles: Seq<RowItem>) -> (
        Seq<Seq<RowItem>>,
        Seq<RowItem>,
    )
        decreases tiles.len(),
    {
        if tiles.len() == 0 {
            (seq![], seq![])
        } else {
            let (rows, row) = self.flow(limit, tiles.drop_last());
            if self.wraps(limit, row, tiles.last()) {
                (rows.push(row), seq![tiles.last()])
            } else {
                (rows, row.push(tiles.last()))
            }
        }
    }

    /// The rows that tiles are broken into.
    pub open spec fn broken(self, limit: Single, tiles: Seq<RowItem>) -> Seq<Seq<RowItem>> {
        let (rows, row) = self.flow(limit, tiles);
        if row.len() > 0 {
            rows.push(row)
        } else {
            rows
        }
    }

    /// The rows of the layout: items and height.
    pub open spec fn rows(self, items: Seq<MediaItem>, viewport_width: Single) -> Seq<
        (Seq<RowItem>, Single),
    > {
        if items.len() == 0 || no_width(viewport_width) {
            seq![]
        } else {
            self.broken(Self::limit(viewport_width), self.tiles(items)).map_values(
                |row: Seq<RowItem>| (row, row_height(row)),
            )
        }
    }

    /// A layout with the given settings.
    pub fn new(target_height: Single, min_height: Single, max_height: Single, gap: Single) -> (r:
        Self)
        ensures
            r == (JustifiedLayout { target_height, min_height, max_height, gap }),
    {
        JustifiedLayout { target_height, min_height, max_height, gap }
    }

    fn clamp_tile_height(&self, h: Single) -> (r: Single)
        requires
            self.wf(),
        ensures
            r == h.clamped(self.min_height, self.max_height).larger(Single { bits: ONE }),
    {
        h.clamp(self.min_height, self.max_height).max(Single { bits: ONE })
    }

    /// Width and height of the tile of an item.
    pub fn tile_dimensions(&self, item: &MediaItem) -> (r: (Single, Single))
        requires
            self.wf(),
        ensures
            r.0 == self.tile(*item).display_w,
            r.1 == self.height(),
    {
        let mut ratio: Single = item.aspect_ratio().max(Single { bits: MIN_ASPECT });
        if item.is_video() && (ratio.is_less(Single { bits: MIN_VIDEO_ASPECT }) || (Single {
            bits: MAX_VIDEO_ASPECT,
        }).is_less(ratio)) {
            ratio = Single { bits: VIDEO_ASPECT };
        }
        let height: Single = self.clamp_tile_height(self.target_height.max(Single { bits: ONE }));
        let width: Single = height.times(ratio).max(Single { bits: ONE });
        (width, height)
    }

    fn make_tile(&self, item: &MediaItem) -> (r: RowItem)
        requires
            self.wf(),
        ensures
            r == self.tile(*item),
    {
        let (display_w, display_h) = self.tile_dimensions(item);
        RowItem {
            media_path: item.path.clone(),
            display_w,
            display_h,
            offset_top: Single { bits: ZERO },
            is_folder: item.is_folder(),
        }
    }

    /// Lays items out in rows.
    pub fn compute(&self, items: &Vec<MediaItem>, viewport_width: Single) -> (r: Vec<RowModel>)
        requires
            items@.len() > 0 && !no_width(viewport_width) ==> self.wf(),
            items@.len() <= u32::MAX,
        ensures
            are_rows(r@, self.rows(items@, viewport_width)),
    {
        if items.len() == 0 || (!viewport_width.is_nan() && !(Single { bits: ZERO }).is_less(
            viewport_width,
        )) {
            return Vec::new();
        }
        let limit: Single = viewport_width.max(Single { bits: ONE });
        let ghost tiles = self.tiles(items@);
        let mut rows: Vec<RowModel> = Vec::new();
        let mut pending: Vec<RowItem> = Vec::new();
        let mut width: Single = Single { bits: ZERO };
        let mut height: Single = Single { bits: ONE };
        let mut index: u32 = 0;
        let mut i: usize = 0;
        assert(tiles.take(0) =~= seq![]);
        assert(rows@.map_values(|r: RowModel| r.items@) =~= seq![]);
        while i < items.len()
            invariant
                self.wf(),
                i <= items@.len() <= u32::MAX,
                index <= i,
                index == rows@.len(),
                i > 0 ==> pending@.len() > 0 && index < i,
                tiles == self.tiles(items@),
                self.flow(limit, tiles.take(i as int)) == (
                    rows@.map_values(|r: RowModel| r.items@),
                    pending@,
                ),
                width == self.row_width(pending@),
                height == row_height(pending@),
                forall|k: int|
                    0 <= k < rows@.len() ==> (#[trigger] rows@[k]).row_index == k
                        && rows@[k].height_px == row_height(rows@[k].items@),
            decreases items@.len() - i,
        {
            let tile = self.make_tile(&items[i]);
            assert(tiles.take(i + 1).drop_last() =~= tiles.take(i as int));
            assert(tiles.take(i + 1).last() == tile);
            assert(pending@.push(tile).drop_last() =~= pending@);
            if pending.len() > 0 {
                let required: Single = width.plus(self.gap).plus(tile.display_w);
                if limit.is_less(required) {
                    let ghost before = rows@;
                    let ghost row = pending@;
                    rows.push(RowModel::new(index, height, pending));
                    assert(rows@.map_values(|r: RowModel| r.items@) =~= before.map_values(
                        |r: RowModel| r.items@,
                    ).push(row));
                    pending = Vec::new();
                    index = index + 1;
                    width = Single { bits: ZERO };
                    height = Single { bits: ONE };
                }
            }
            let ghost row = pending@;
            assert(width == self.row_width(row));
            assert(height == row_height(row));
            if pending.len() > 0 {
                width = width.plus(self.gap);
            }
            width = width.plus(tile.display_w);
            height = height.max(tile.display_h.plus(tile.offset_top));
            pending.push(tile);
            assert(pending@.drop_last() =~= row);
            assert(pending@ =~= row.push(tile));
            i = i + 1;
        }
        assert(tiles.take(tiles.len() as int) =~= tiles);
        let ghost before = rows@;
        let ghost row = pending@;
        rows.push(RowModel::new(index, height, pending));
        assert(rows@.map_values(|r: RowModel| r.items@) =~= before.map_values(
            |r: RowModel| r.items@,
        ).push(row));
        proof {
            let broken = self.broken(limit, tiles);
            assert(broken == rows@.map_values(|r: RowModel| r.items@));
            assert forall|k: int| 0 <= k < rows@.len() implies row_view(#[trigger] rows@[k])
                == self.rows(items@, viewport_width)[k] && rows@[k].row_index == k by {
                assert(broken[k] == rows@[k].items@);
            }
        }
        rows
    }

    /// Where the rows of the layout begin and end.
    pub fn compute_breaks(&self, items: &Vec<MediaItem>, viewport_width: Single) -> (r: Vec<RowBreak>)
        requires
            items@.len() > 0 && !no_width(viewport_width) ==> self.wf(),
            items@.len() <= u32::MAX,
        ensures
            are_breaks(r@, self.rows(items@, viewport_width)),
    {
        let rows = self.compute(items, viewport_width);
        let ghost views = self.rows(items@, viewport_width);
        proof {
            all_items_are_placed(*self, items@, viewport_width);
            lemma_count_is_length(views, views.len() as int);
            assert(row_views(rows@) =~= views);
        }
        breaks_of_rows(&rows)
    }

    /// The rows that breaks stand for.
    pub open spec fn rows_between(self, items: Seq<MediaItem>, breaks: Seq<RowBreak>) -> Seq<
        (Seq<RowItem>, Single),
    > {
        breaks.map_values(
            |b: RowBreak|
                {
                    let row = self.tiles(items).subrange(b.start_index as int, b.end_index as int);
                    (row, row_height(row).larger(b.row_height))
                },
        )
    }

    /// Makes the rows again out of items and the breaks between them.
    pub fn rows_from_breaks(&self, items: &Vec<MediaItem>, breaks: &Vec<RowBreak>) -> (r: Vec<
        RowModel,
    >)
        requires
            items@.len() > 0 ==> self.wf(),
            breaks@.len() <= u32::MAX,
            breaks_fit(breaks@, items@.len()),
        ensures
            are_rows(r@, self.rows_between(items@, breaks@)),
    {
        let ghost tiles = self.tiles(items@);
        let mut rows: Vec<RowModel> = Vec::new();
        let mut i: usize = 0;
        while i < breaks.len()
            invariant
                items@.len() > 0 ==> self.wf(),
                i <= breaks@.len() <= u32::MAX,
                breaks_fit(breaks@, items@.len()),
                tiles == self.tiles(items@),
                rows@.len() == i,
                forall|k: int|
                    0 <= k < i ==> row_view(#[trigger] rows@[k]) == self.rows_between(
                        items@,
                        breaks@,
                    )[k] && rows@[k].row_index == k,
            decreases breaks@.len() - i,
        {
            let b: RowBreak = breaks[i];
            let mut row: Vec<RowItem> = Vec::new();
            let mut height: Single = Single { bits: ONE };
            let mut k: usize = b.start_index;
            assert(tiles.subrange(b.start_index as int, k as int) =~= seq![]);
            while k < b.end_index
                invariant
                    items@.len() > 0 ==> self.wf(),
                    b.start_index <= k <= b.end_index <= items@.len(),
                    tiles == self.tiles(items@),
                    row@ == tiles.subrange(b.start_index as int, k as int),
                    height == row_height(row@),
                decreases b.end_index - k,
            {
                let tile = self.make_tile(&items[k]);
                let ghost before = row@;
                height = height.max(tile.display_h.plus(tile.offset_top));
                row.push(tile);
                assert(row@.drop_last() =~= before);
                k = k + 1;
                assert(row@ =~= tiles.subrange(b.start_index as int, k as int));
            }
            rows.push(RowModel::new(i as u32, height.max(b.row_height), row));
            i = i + 1;
        }
        rows
    }

    /// The height of all rows with gaps between them.
    pub fn total_height(&self, rows: &Vec<RowModel>, row_gap: Single) -> (r: Single)
        ensures
            r == total(rows@, row_gap),
    {
        if rows.len() == 0 {
            return Single { bits: ZERO };
        }
        let mut sum: Single = rows[0].height_px;
        let mut i: usize = 1;
        assert(rows@.take(1).len() == 1);
        while i < rows.len()
            invariant
                1 <= i <= rows@.len(),
                sum == heights(rows@.take(i as int)),
            decreases rows@.len() - i,
        {
            assert(rows@.take(i + 1).drop_last() =~= rows@.take(i as int));
            sum = sum.plus(rows[i].height_px);
            i = i + 1;
        }
        assert(rows@.take(rows@.len() as int) =~= rows@);
        let gaps: Single = Single::from_whole((rows.len() - 1) as u64).times(row_gap);
        sum.plus(gaps)
    }
}

/// The sum of the heights of one or more rows, from the first on.
pub open spec fn heights(rows: Seq<RowModel>) -> Single
    decreases rows.len(),
{
    if rows.len() <= 1 {
        rows.last().height_px
    } else {
        heights(rows.drop_last()).sum(rows.last().height_px)
    }
}

/// The height of rows with gaps between them.
pub open spec fn total(rows: Seq<RowModel>, row_gap: Single) -> Single {
    if rows.len() == 0 {
        Single { bits: ZERO }
    } else {
        heights(rows).sum(of_whole((rows.len() - 1) as nat).product(row_gap))
    }
}

/// Where a row begins and ends among the items, and its height.
#[derive(Clone, Copy, PartialEq, Eq, Structural, Debug)]
pub struct RowBreak {
    /// The first item.
    pub start_index: usize,
    /// The item after the last.
    pub end_index: usize,
    /// The height of the row.
    pub row_height: Single,
}

/// How many items stand in the first rows.
pub open spec fn count(rows: Seq<(Seq<RowItem>, Single)>, n: int) -> nat
    decreases n,
{
    if n <= 0 {
        0
    } else {
        count(rows, n - 1) + rows[n - 1].0.len()
    }
}

/// Whether `breaks` are those of the given rows: each row begins where the row
/// before ends.
pub open spec fn are_breaks(breaks: Seq<RowBreak>, rows: Seq<(Seq<RowItem>, Single)>) -> bool {
    &&& breaks.len() == rows.len()
    &&& forall|i: int|
        0 <= i < breaks.len() ==> {
            &&& (#[trigger] breaks[i]).start_index == count(rows, i)
            &&& breaks[i].end_index == count(rows, i + 1)
            &&& breaks[i].row_height == rows[i].1
        }
}

/// Whether breaks stay within so many items.
pub open spec fn breaks_fit(breaks: Seq<RowBreak>, n: nat) -> bool {
    forall|i: int|
        0 <= i < breaks.len() ==> (#[trigger] breaks[i]).start_index <= breaks[i].end_index <= n
}

/// Rows as plain values.
pub open spec fn row_views(rows: Seq<RowModel>) -> Seq<(Seq<RowItem>, Single)> {
    rows.map_values(|r: RowModel| row_view(r))
}

/// Takes the breaks out of rows.
pub fn breaks_of_rows(rows: &Vec<RowModel>) -> (r: Vec<RowBreak>)
    requires
        count(row_views(rows@), rows@.len() as int) <= usize::MAX,
    ensures
        are_breaks(r@, row_views(rows@)),
{
    let ghost views = row_views(rows@);
    let mut out: Vec<RowBreak> = Vec::new();
    let mut start: usize = 0;
    let mut i: usize = 0;
    while i < rows.len()
        invariant
            views == row_views(rows@),
            count(views, rows@.len() as int) <= usize::MAX,
            i <= rows@.len(),
            start == count(views, i as int),
            out@.len() == i,
            forall|k: int|
                0 <= k < i ==> {
                    &&& (#[trigger] out@[k]).start_index == count(views, k)
                    &&& out@[k].end_index == count(views, k + 1)
                    &&& out@[k].row_height == views[k].1
                },
        decreases rows@.len() - i,
    {
        proof {
            lemma_count_grows(views, i + 1, rows@.len() as int);
            assert(row_view(rows@[i as int]) == views[i as int]);
        }
        let end: usize = start + rows[i].items.len();
        out.push(RowBreak { start_index: start, end_index: end, row_height: rows[i].height_px });
        start = end;
        i = i + 1;
    }
    out
}

proof fn lemma_count_grows(rows: Seq<(Seq<RowItem>, Single)>, a: int, b: int)
    requires
        0 <= a <= b,
    ensures
        count(rows, a) <= count(rows, b),
    decreases b - a,
{
    if a < b {
        lemma_count_grows(rows, a, b - 1);
    }
}

/// The items of rows, one row after the other.
pub open spec fn joined(rows: Seq<(Seq<RowItem>, Single)>) -> Seq<RowItem>
    decreases rows.len(),
{
    if rows.len() == 0 {
        seq![]
    } else {
        joined(rows.drop_last()) + rows.last().0
    }
}

proof fn lemma_count_is_length(rows: Seq<(Seq<RowItem>, Single)>, n: int)
    requires
        0 <= n <= rows.len(),
    ensures
        count(rows, n) == joined(rows.take(n)).len(),
        n == rows.len() ==> count(rows, n) == joined(rows).len(),
    decreases n,
{
    if n > 0 {
        lemma_count_is_length(rows, n - 1);
        assert(rows.take(n).drop_last() =~= rows.take(n - 1));
    }
    assert(n == rows.len() ==> rows.take(n) =~= rows);
}

proof fn lemma_part_of_joined(rows: Seq<(Seq<RowItem>, Single)>, i: int)
    requires
        0 <= i < rows.len(),
    ensures
        count(rows, i + 1) <= joined(rows).len(),
        joined(rows).subrange(count(rows, i) as int, count(rows, i + 1) as int) == rows[i].0,
    decreases rows.len(),
{
    let n = rows.len() as int;
    lemma_count_is_length(rows, n);
    lemma_count_is_length(rows, n - 1);
    assert(rows.take(n - 1) =~= rows.drop_last());
    lemma_count_grows(rows, i + 1, n);
    if i < n - 1 {
        lemma_part_of_joined(rows.drop_last(), i);
        lemma_count_same(rows, rows.drop_last(), i);
        lemma_count_same(rows, rows.drop_last(), i + 1);
        lemma_count_grows(rows, i + 1, n - 1);
        lemma_count_grows(rows, i, i + 1);
        assert(joined(rows).subrange(count(rows, i) as int, count(rows, i + 1) as int)
            =~= joined(rows.drop_last()).subrange(
            count(rows, i) as int,
            count(rows, i + 1) as int,
        ));
    } else {
        assert(joined(rows).subrange(count(rows, i) as int, count(rows, i + 1) as int)
            =~= rows[i].0);
    }
}

proof fn lemma_count_same(a: Seq<(Seq<RowItem>, Single)>, b: Seq<(Seq<RowItem>, Single)>, n: int)
    requires
        n <= b.len() <= a.len(),
        b == a.take(b.len() as int),
    ensures
        count(a, n) == count(b, n),
    decreases n,
{
    if n > 0 {
        lemma_count_same(a, b, n - 1);
    }
}

/// Whether a row of more than one item stays within the limit, at every item from
/// the second on.
pub open spec fn row_fits(layout: JustifiedLayout, limit: Single, row: Seq<RowItem>) -> bool {
    forall|k: int|
        2 <= k <= row.len() ==> !limit.less(layout.row_width(#[trigger] row.take(k)))
}

proof fn lemma_flow(layout: JustifiedLayout, limit: Single, tiles: Seq<RowItem>)
    ensures
        ({
            let (rows, row) = layout.flow(limit, tiles);
            &&& joined(rows.map_values(|r: Seq<RowItem>| (r, row_height(r)))) + row == tiles
            &&& tiles.len() > 0 ==> row.len() > 0
            &&& forall|i: int|
                0 <= i < rows.len() ==> (#[trigger] rows[i]).len() > 0 && row_fits(
                    layout,
                    limit,
                    rows[i],
                )
            &&& row_fits(layout, limit, row)
            &&& forall|i: int|
                0 <= i < rows.len() - 1 ==> layout.wraps(
                    limit,
                    #[trigger] rows[i],
                    rows[i + 1][0],
                )
            &&& rows.len() > 0 ==> layout.wraps(limit, rows.last(), row[0])
        }),
    decreases tiles.len(),
{
    let (rows, row) = layout.flow(limit, tiles);
    let f = |r: Seq<RowItem>| (r, row_height(r));
    if tiles.len() == 0 {
        assert(rows.map_values(f) =~= seq![]);
        assert(joined(rows.map_values(f)) + row =~= tiles);
    } else {
        let (rows0, row0) = layout.flow(limit, tiles.drop_last());
        lemma_flow(layout, limit, tiles.drop_last());
        let last = tiles.last();
        if layout.wraps(limit, row0, last) {
            assert(rows.map_values(f).drop_last() =~= rows0.map_values(f));
            assert(rows.map_values(f).last() == f(row0));
            assert(joined(rows.map_values(f)) =~= joined(rows0.map_values(f)) + row0);
            assert(joined(rows.map_values(f)) + row =~= tiles);
            assert forall|i: int| 0 <= i < rows.len() - 1 implies layout.wraps(
                limit,
                #[trigger] rows[i],
                rows[i + 1][0],
            ) by {
                if i < rows0.len() - 1 {
                    assert(rows[i] == rows0[i] && rows[i + 1] == rows0[i + 1]);
                }
            }
        } else {
            let before = joined(rows0.map_values(f));
            assert(before + row0 == tiles.drop_last());
            assert(before + row0.push(last) =~= (before + row0).push(last));
            assert(tiles.drop_last().push(last) =~= tiles);
            assert forall|k: int| 2 <= k <= row.len() implies !limit.less(
                layout.row_width(#[trigger] row.take(k)),
            ) by {
                if k <= row0.len() {
                    assert(row.take(k) =~= row0.take(k));
                } else {
                    assert(row.take(k) =~= row0.push(last));
                }
            }
        }
    }
}

/// Every item stands in one row, in order, and no row is empty.
pub proof fn all_items_are_placed(
    layout: JustifiedLayout,
    items: Seq<MediaItem>,
    viewport_width: Single,
)
    ensures
        ({
            let rows = layout.rows(items, viewport_width);
            &&& no_width(viewport_width) ==> rows.len() == 0
            &&& !no_width(viewport_width) ==> joined(rows) == layout.tiles(items)
            &&& joined(rows).len() <= items.len()
            &&& rows.len() <= items.len()
            &&& forall|i: int| 0 <= i < rows.len() ==> (#[trigger] rows[i]).0.len() > 0
        }),
{
    let rows = layout.rows(items, viewport_width);
    let tiles = layout.tiles(items);
    if items.len() == 0 || no_width(viewport_width) {
        assert(joined(rows) =~= seq![]);
        if items.len() == 0 {
            assert(tiles =~= seq![]);
        }
    } else {
        let limit = JustifiedLayout::limit(viewport_width);
        let f = |r: Seq<RowItem>| (r, row_height(r));
        lemma_flow(layout, limit, tiles);
        let (complete, row) = layout.flow(limit, tiles);
        assert(rows == complete.push(row).map_values(f));
        assert(rows.drop_last() =~= complete.map_values(f));
        assert(joined(rows) =~= joined(complete.map_values(f)) + row);
        lemma_rows_not_more(rows);
    }
}

proof fn lemma_rows_not_more(rows: Seq<(Seq<RowItem>, Single)>)
    requires
        forall|i: int| 0 <= i < rows.len() ==> (#[trigger] rows[i]).0.len() > 0,
    ensures
        rows.len() <= joined(rows).len(),
    decreases rows.len(),
{
    if rows.len() > 0 {
        assert(rows.last().0.len() > 0);
        lemma_rows_not_more(rows.drop_last());
    }
}

/// A row of more than one item never grows past the width at which rows wrap, and
/// a row ends only where the next item would not fit.
pub proof fn rows_are_filled(layout: JustifiedLayout, items: Seq<MediaItem>, viewport_width: Single)
    ensures
        ({
            let rows = layout.rows(items, viewport_width);
            let limit = JustifiedLayout::limit(viewport_width);
            &&& forall|i: int|
                0 <= i < rows.len() ==> row_fits(layout, limit, (#[trigger] rows[i]).0)
            &&& forall|i: int|
                0 <= i < rows.len() - 1 ==> layout.wraps(
                    limit,
                    (#[trigger] rows[i]).0,
                    rows[i + 1].0[0],
                )
        }),
{
    let limit = JustifiedLayout::limit(viewport_width);
    lemma_flow(layout, limit, layout.tiles(items));
}

proof fn lemma_adding_nothing(h: Single)
    requires
        !h.nan(),
        !h.less(Single { bits: ONE }),
    ensures
        h.sum(Single { bits: ZERO }) == h,
        (Single { bits: ONE }).larger(h) == h,
        h.larger(h) == h,
{
    magnitudes_are_ordered(0, ONE as int);
    assert(units(0) == 0);
    let m = h.magnitude();
    let zero = Single { bits: ZERO };
    assert(zero.value() == 0);
    assert(!h.negative());
    if m != ONE {
        if m < ONE {
            magnitudes_are_ordered(m, ONE as int);
        } else {
            magnitudes_are_ordered(ONE as int, m);
        }
    }
    if !h.infinite() {
        if m > 0 {
            magnitudes_are_ordered(m - 1, m);
        }
        magnitudes_are_ordered(m, m + 1);
        assert(is_nearest(m, units(m), 1));
        nearest_is_unique(nearest(units(m), 1), m, units(m), 1);
    }
}

proof fn lemma_height_is_positive(layout: JustifiedLayout)
    ensures
        !layout.height().nan(),
        !layout.height().less(Single { bits: ONE }),
{
}

proof fn lemma_row_height(h: Single, row: Seq<RowItem>)
    requires
        !h.nan(),
        !h.less(Single { bits: ONE }),
        row.len() > 0,
        forall|i: int|
            0 <= i < row.len() ==> (#[trigger] row[i]).display_h == h && row[i].offset_top.bits
                == ZERO,
    ensures
        row_height(row) == h,
    decreases row.len(),
{
    lemma_adding_nothing(h);
    let last = row.last();
    assert(last.offset_top == Single { bits: ZERO });
    reveal_with_fuel(row_height, 2);
    if row.len() > 1 {
        lemma_row_height(h, row.drop_last());
    }
}

/// All tiles, and all rows, have the same height.
pub proof fn rows_have_one_height(
    layout: JustifiedLayout,
    items: Seq<MediaItem>,
    viewport_width: Single,
)
    ensures
        ({
            let rows = layout.rows(items, viewport_width);
            &&& forall|i: int| 0 <= i < rows.len() ==> (#[trigger] rows[i]).1 == layout.height()
            &&& forall|i: int, k: int|
                0 <= i < rows.len() && 0 <= k < rows[i].0.len() ==> (
                #[trigger] rows[i].0[k]).display_h == layout.height()
        }),
{
    let rows = layout.rows(items, viewport_width);
    let tiles = layout.tiles(items);
    all_items_are_placed(layout, items, viewport_width);
    lemma_height_is_positive(layout);
    assert forall|i: int| 0 <= i < rows.len() implies (#[trigger] rows[i]).1 == layout.height()
        && (forall|k: int|
        0 <= k < rows[i].0.len() ==> (#[trigger] rows[i].0[k]).display_h == layout.height()) by {
        let row = rows[i].0;
        lemma_part_of_joined(rows, i);
        let part = tiles.subrange(count(rows, i) as int, count(rows, i + 1) as int);
        assert(part == row);
        assert forall|k: int| 0 <= k < row.len() implies (#[trigger] row[k]).display_h
            == layout.height() && row[k].offset_top.bits == ZERO by {
            assert(row[k] == tiles[count(rows, i) + k]);
        }
        lemma_row_height(layout.height(), row);
    }
}

/// Rows made again out of the breaks of a layout are the rows of the layout.
pub proof fn breaks_keep_the_layout(
    layout: JustifiedLayout,
    items: Seq<MediaItem>,
    viewport_width: Single,
    breaks: Seq<RowBreak>,
)
    requires
        are_breaks(breaks, layout.rows(items, viewport_width)),
    ensures
        breaks_fit(breaks, items.len()),
        layout.rows_between(items, breaks) == layout.rows(items, viewport_width),
{
    let rows = layout.rows(items, viewport_width);
    let again = layout.rows_between(items, breaks);
    all_items_are_placed(layout, items, viewport_width);
    rows_have_one_height(layout, items, viewport_width);
    lemma_height_is_positive(layout);
    lemma_adding_nothing(layout.height());
    assert forall|i: int| 0 <= i < rows.len() implies again[i] == #[trigger] rows[i] && (
    breaks[i]).start_index <= breaks[i].end_index <= items.len() by {
        lemma_part_of_joined(rows, i);
        lemma_count_grows(rows, i, i + 1);
        let b = breaks[i];
        assert(rows[i].1 == row_height(rows[i].0));
    }
    assert(again =~= rows);
}

/// Whether `w` by `h` has the shape of `p` by `q`, up to a `2^22`th part.
pub open spec fn is_shaped(w: nat, h: nat, p: int, q: int) -> bool {
    &&& 0x40_0000 * (w * q - h * p) <= w * q
    &&& 0x40_0000 * (h * p - w * q) <= w * q
}

/// Whether a tile of the given width and height has the shape of `p` by `q`, or is
/// one pixel wide where it would be narrower.
pub open spec fn tile_is_shaped(w: Single, h: Single, p: int, q: int) -> bool {
    ||| is_shaped(w.size(), h.size(), p, q)
    ||| w.bits == ONE && 0x40_0000 * (h.size() * p) <= 0x40_0001 * (w.size() * q)
}

pub(crate) proof fn lemma_one()
    ensures
        units(ONE as int) == pow2(149),
        pow2(149) > 0,
{
    lemma_units_of(126, 0x80_0000);
    lemma_pow2_adds(126, 23);
    assert(pow2(23) == 0x80_0000) by {
        vstd::arithmetic::power2::lemma2_to64();
    }
    lemma_pow2_pos(149);
    assert(0x80_0000 * pow2(126) == pow2(126) * pow2(23)) by (nonlinear_arith)
        requires
            pow2(23) == 0x80_0000,
    ;
}

proof fn lemma_power_of_two(k: int) -> (m: int)
    requires
        -60 <= k <= 60,
    ensures
        units(m) == pow2((149 + k) as nat),
        0x80_0000 <= m < INFINITE,
{
    lemma_units_of(126 + k, 0x80_0000);
    lemma_pow2_adds((126 + k) as nat, 23);
    assert(pow2(23) == 0x80_0000) by {
        vstd::arithmetic::power2::lemma2_to64();
    }
    let g = pow2((126 + k) as nat);
    assert(0x80_0000 * g == g * pow2(23)) by (nonlinear_arith)
        requires
            pow2(23) == 0x80_0000,
    ;
    (126 + k) * 0x80_0000 + 0x80_0000
}

/// The shape of a length and its product with a ratio that is rounded from `p` to `q`.
pub(crate) proof fn lemma_product_is_shaped(height: Single, ratio: Single, p: nat, q: nat)
    requires
        0 < p < 0x100_0000,
        0 < q < 0x100_0000,
        !height.negative() && !height.nan() && !height.infinite(),
        pow2(149) <= height.size() <= pow2(173),
        !ratio.negative() && !ratio.nan(),
        ratio.magnitude() == nearest(p * pow2(149), q),
    ensures
        is_shaped(height.product(ratio).size(), height.size(), p as int, q as int),
        0x40_0000 * (height.size() * p) <= 0x40_0001 * (height.product(ratio).size() * q),
        !height.product(ratio).nan() && !height.product(ratio).negative(),
        !height.product(ratio).infinite(),
{
    let u = pow2(149);
    lemma_one();
    assert(pow2(24) == 0x100_0000) by {
        vstd::arithmetic::power2::lemma2_to64();
    }
    lemma_pow2_adds(149, 24);
    lemma_pow2_adds(125, 24);
    // The ratio is neither too small for full precision nor infinite.
    let small = lemma_power_of_two(-24);
    let large = lemma_power_of_two(24);
    let x = pow2(125);
    let y = pow2(173);
    lemma_pow2_pos(125);
    assert(x * q <= p * u) by (nonlinear_arith)
        requires
            u == x * 0x100_0000,
            q < 0x100_0000,
            p >= 1,
            x > 0,
    ;
    assert(p * u <= y * q) by (nonlinear_arith)
        requires
            y == u * 0x100_0000,
            p < 0x100_0000,
            q >= 1,
            u > 0,
    ;
    rounding_keeps_at_least(small, p * u, q);
    rounding_keeps_at_most(large, p * u, q);
    nearest_is_nearest(p * u, q);
    let r = ratio.size();
    rounding_error(ratio.magnitude(), p * u, q);
    if ratio.magnitude() < large {
        magnitudes_are_ordered(ratio.magnitude(), large);
    }
    assert(r <= y);
    // So is the width.
    let h = height.size();
    let top = lemma_power_of_two(48);
    lemma_pow2_adds(173, 24);
    let z = pow2(197);
    assert(h * r >= r * u) by (nonlinear_arith)
        requires
            h >= u,
    ;
    assert(h * r <= z * u) by (nonlinear_arith)
        requires
            h <= y,
            r <= y,
            y == u * 0x100_0000,
            z == y * 0x100_0000,
    ;
    rounding_keeps_at_least(ratio.magnitude(), h * r, u);
    rounding_keeps_at_most(top, h * r, u);
    nearest_is_nearest(h * r, u);
    let m = nearest(h * r, u);
    rounding_error(m, h * r, u);
    let w = units(m);
    assert(height.product(ratio) == of_parts(false, m));
    lemma_shape(w, h, r, p, q, u);
}

/// The shape that a tile has: its width is its height times a ratio that is rounded
/// from `p` to `q`.
proof fn lemma_tile_is_shaped(height: Single, ratio: Single, p: nat, q: nat)
    requires
        0 < p < 0x100_0000,
        0 < q < 0x100_0000,
        !height.negative() && !height.nan() && !height.infinite(),
        pow2(149) <= height.size() <= pow2(173),
        !ratio.negative() && !ratio.nan(),
        ratio.magnitude() == nearest(p * pow2(149), q),
    ensures
        tile_is_shaped(
            height.product(ratio).larger(Single { bits: ONE }),
            height,
            p as int,
            q as int,
        ),
{
    lemma_one();
    lemma_product_is_shaped(height, ratio, p, q);
    let w = height.product(ratio).size();
    let u = pow2(149);
    if w < u {
        assert(w * q <= u * q) by (nonlinear_arith)
            requires
                w <= u,
        ;
    }
}

proof fn lemma_shape(w: nat, h: nat, r: nat, p: nat, q: nat, u: nat)
    requires
        u > 0,
        0x100_0000 * (p * u) <= 0x100_0001 * (r * q),
        0x100_0000 * (p * u) >= 0xff_ffff * (r * q),
        0x100_0000 * (h * r) <= 0x100_0001 * (w * u),
        0x100_0000 * (h * r) >= 0xff_ffff * (w * u),
    ensures
        is_shaped(w, h, p as int, q as int),
        0x40_0000 * (h * p) <= 0x40_0001 * (w * q),
{
    let c = 0x100_0000int;
    let a = w * q;
    let b = h * p;
    assert(c * (b * u) == h * (c * (p * u))) by (nonlinear_arith)
        requires
            b == h * p,
    ;
    assert(a * u == q * (w * u)) by (nonlinear_arith)
        requires
            a == w * q,
    ;
    assert(h * (r * q) == q * (h * r)) by (nonlinear_arith);
    assert(h * (c * (p * u)) <= h * (0x100_0001 * (r * q))) by (nonlinear_arith)
        requires
            c * (p * u) <= 0x100_0001 * (r * q),
    ;
    assert(h * (c * (p * u)) >= h * (0xff_ffff * (r * q))) by (nonlinear_arith)
        requires
            c * (p * u) >= 0xff_ffff * (r * q),
    ;
    assert(h * (0x100_0001 * (r * q)) == 0x100_0001 * (q * (h * r))) by (nonlinear_arith)
        requires
            h * (r * q) == q * (h * r),
    ;
    assert(h * (0xff_ffff * (r * q)) == 0xff_ffff * (q * (h * r))) by (nonlinear_arith)
        requires
            h * (r * q) == q * (h * r),
    ;
    assert(q * (c * (h * r)) <= q * (0x100_0001 * (w * u))) by (nonlinear_arith)
        requires
            c * (h * r) <= 0x100_0001 * (w * u),
    ;
    assert(q * (c * (h * r)) >= q * (0xff_ffff * (w * u))) by (nonlinear_arith)
        requires
            c * (h * r) >= 0xff_ffff * (w * u),
    ;
    assert(q * (c * (h * r)) == c * (q * (h * r))) by (nonlinear_arith);
    assert(q * (0x100_0001 * (w * u)) == 0x100_0001 * (a * u)) by (nonlinear_arith)
        requires
            a * u == q * (w * u),
    ;
    assert(q * (0xff_ffff * (w * u)) == 0xff_ffff * (a * u)) by (nonlinear_arith)
        requires
            a * u == q * (w * u),
    ;
    let au = a * u;
    let bu = b * u;
    let t = q * (h * r);
    assert(c * bu <= 0x100_0001 * t && c * bu >= 0xff_ffff * t);
    assert(c * t <= 0x100_0001 * au && c * t >= 0xff_ffff * au);
    assert(0x40_0000 * (bu - au) <= au && 0x40_0000 * (au - bu) <= au);
    assert(0x40_0000 * (b - a) <= a) by (nonlinear_arith)
        requires
            0x40_0000 * (b * u - a * u) <= a * u,
            u > 0,
    ;
    assert(0x40_0000 * (a - b) <= a) by (nonlinear_arith)
        requires
            0x40_0000 * (a * u - b * u) <= a * u,
            u > 0,
    ;
}

proof fn lemma_aspect(item: MediaItem)
    requires
        0 < item.height < 0x100_0000,
        item.width < 0x100_0000,
    ensures
        !item.aspect().negative() && !item.aspect().nan() && !item.aspect().infinite(),
        item.aspect().magnitude() == nearest(item.width as nat * pow2(149), item.height as nat),
{
    let u = pow2(149);
    let w = item.width as nat;
    let h = item.height as nat;
    lemma_one();
    whole_is_exact(w);
    whole_is_exact(h);
    let num = (w * u) * u;
    let den = h * u;
    assert(den > 0) by (nonlinear_arith)
        requires
            den == h * u,
            h > 0,
            u > 0,
    ;
    assert(num * h == (w * u) * den) by (nonlinear_arith)
        requires
            num == (w * u) * u,
            den == h * u,
    ;
    rounding_keeps_fractions(num, den, w * u, h);
    rounding_keeps_fractions(w * u, h, num, den);
    nearest_is_nearest(num, den);
    let large = lemma_power_of_two(24);
    assert(pow2(24) == 0x100_0000) by {
        vstd::arithmetic::power2::lemma2_to64();
    }
    lemma_pow2_adds(149, 24);
    let y = pow2(173);
    assert(w * u <= y * h) by (nonlinear_arith)
        requires
            y == u * 0x100_0000,
            w < 0x100_0000,
            h >= 1,
    ;
    rounding_keeps_at_most(large, w * u, h);
}

proof fn lemma_shape_constants()
    ensures
        MIN_ASPECT == nearest(1 * pow2(149), 100),
        MIN_VIDEO_ASPECT == nearest(1 * pow2(149), 5),
        MAX_VIDEO_ASPECT == nearest(5 * pow2(149), 1),
        VIDEO_ASPECT == nearest(16 * pow2(149), 9),
        ONE == nearest(1 * pow2(149), 1),
{
    assert(pow2(30) == 0x4000_0000 && pow2(26) == 0x400_0000 && pow2(21) == 0x20_0000 && pow2(23)
        == 0x80_0000) by {
        vstd::arithmetic::power2::lemma2_to64();
    }
    lemma_fraction_is(MIN_ASPECT as int, 119, 0xa3_d70a, 1, 100, 0x4000_0000);
    lemma_fraction_is(MIN_VIDEO_ASPECT as int, 123, 0xcc_cccd, 1, 5, 0x400_0000);
    lemma_fraction_is(MAX_VIDEO_ASPECT as int, 128, 0xa0_0000, 5, 1, 0x20_0000);
    lemma_fraction_is(VIDEO_ASPECT as int, 126, 0xe3_8e39, 16, 9, 0x80_0000);
    lemma_one();
    rounding_keeps_at_least(ONE as int, pow2(149), 1);
    rounding_keeps_at_most(ONE as int, pow2(149), 1);
}

proof fn lemma_less_by_magnitude(a: Single, b: Single)
    requires
        !a.negative() && !a.nan(),
        !b.negative() && !b.nan(),
    ensures
        a.less(b) == (a.magnitude() < b.magnitude()),
{
    if a.magnitude() < b.magnitude() {
        magnitudes_are_ordered(a.magnitude(), b.magnitude());
    } else if b.magnitude() < a.magnitude() {
        magnitudes_are_ordered(b.magnitude(), a.magnitude());
    }
}

proof fn lemma_tile_height(layout: JustifiedLayout)
    requires
        layout.wf(),
    ensures
        !layout.height().negative() && !layout.height().nan(),
        layout.height().size() >= pow2(149),
{
    lemma_one();
}

/// Tiles have the shape of their items. A tile is as wide for its height as its item
/// is, for every image and folder that is no narrower than one to a hundred, and for
/// every video between one to five and five to one. Only a video beyond those has a
/// tile of sixteen to nine, an even narrower image one of one to a hundred, and an
/// item without a height a square one. Sides are those that single precision holds
/// exactly, and tiles no more than `2^24` pixels high.
pub proof fn tiles_have_the_shape_of_their_items(layout: JustifiedLayout, item: MediaItem)
    requires
        layout.wf(),
        item.width < 0x100_0000,
        item.height < 0x100_0000,
        layout.tile(item).display_h.size() <= pow2(173),
    ensures
        ({
            let w = layout.tile(item).display_w;
            let h = layout.tile(item).display_h;
            let video = item.media_type == MediaType::Video;
            let wide = item.width as int;
            let high = item.height as int;
            &&& high == 0 ==> tile_is_shaped(w, h, 1, 1)
            &&& high > 0 && wide <= 5 * high && high <= 5 * wide ==> tile_is_shaped(
                w,
                h,
                wide,
                high,
            )
            &&& high > 0 && !video && high <= 100 * wide ==> tile_is_shaped(w, h, wide, high)
            &&& high > 0 && !video && high > 100 * wide ==> tile_is_shaped(w, h, 1, 100)
            &&& high > 0 && video && (1000 * wide >= 5001 * high || 5001 * wide <= 1000 * high)
                ==> tile_is_shaped(w, h, 16, 9)
        }),
{
    let u = pow2(149);
    let height = layout.height();
    lemma_tile_height(layout);
    lemma_shape_constants();
    lemma_one();
    if height.infinite() {
        let large = lemma_power_of_two(24);
        magnitudes_are_ordered(large, INFINITE as int);
    }
    let min = Single { bits: MIN_ASPECT };
    let low = Single { bits: MIN_VIDEO_ASPECT };
    let high = Single { bits: MAX_VIDEO_ASPECT };
    let ratio = item.aspect();
    let (p, q) = (item.width as nat, item.height as nat);
    if q == 0 {
        lemma_less_by_magnitude(ratio, min);
        lemma_less_by_magnitude(ratio, low);
        lemma_less_by_magnitude(high, ratio);
        lemma_tile_is_shaped(height, Single { bits: ONE }, 1, 1);
    } else {
        lemma_aspect(item);
        lemma_less_by_magnitude(ratio, min);
        lemma_less_by_magnitude(ratio, low);
        lemma_less_by_magnitude(high, ratio);
        lemma_less_by_magnitude(min, low);
        lemma_less_by_magnitude(high, min);
        if q <= 100 * p {
            assert(1 * u * q <= p * u * 100) by (nonlinear_arith)
                requires
                    q <= 100 * p,
            ;
            rounding_keeps_fractions(1 * u, 100, p * u, q);
            lemma_tile_is_shaped(height, ratio, p, q);
        } else {
            assert(p * u * 100 <= 1 * u * q) by (nonlinear_arith)
                requires
                    100 * p <= q,
            ;
            rounding_keeps_fractions(p * u, q, 1 * u, 100);
            lemma_tile_is_shaped(height, min, 1, 100);
            assert(ratio.larger(min) == min);
        }
        if p <= 5 * q && q <= 5 * p {
            assert(1 * u * q <= p * u * 5) by (nonlinear_arith)
                requires
                    q <= 5 * p,
            ;
            rounding_keeps_fractions(1 * u, 5, p * u, q);
            assert(p * u * 1 <= 5 * u * q) by (nonlinear_arith)
                requires
                    p <= 5 * q,
            ;
            rounding_keeps_fractions(p * u, q, 5 * u, 1);
        }
        if 1000 * p >= 5001 * q {
            lemma_units_of(128, 0xa0_0001);
            assert(pow2(21) == 0x20_0000) by {
                vstd::arithmetic::power2::lemma2_to64();
            }
            lemma_pow2_adds(128, 21);
            let g = pow2(128);
            assert((0xa0_0001 * g) * q <= p * u) by (nonlinear_arith)
                requires
                    u == g * 0x20_0000,
                    0xa0_0001 * q <= 0x20_0000 * p,
            ;
            rounding_keeps_at_least(0x40a0_0001, p * u, q);
        }
        if 5001 * p <= 1000 * q {
            lemma_units_of(123, 0xcc_cccc);
            assert(pow2(26) == 0x400_0000) by {
                vstd::arithmetic::power2::lemma2_to64();
            }
            lemma_pow2_adds(123, 26);
            let g = pow2(123);
            assert(p * u <= (0xcc_cccc * g) * q) by (nonlinear_arith)
                requires
                    u == g * 0x400_0000,
                    0x400_0000 * p <= 0xcc_cccc * q,
            ;
            rounding_keeps_at_most(0x3e4c_cccc, p * u, q);
        }
        lemma_tile_is_shaped(height, Single { bits: VIDEO_ASPECT }, 16, 9);
    }
}

/// Tiles have the height that is asked for, wherever it is a number of at least one
/// pixel between the smallest and the largest height; beyond those, the nearer of
/// them.
pub proof fn tiles_have_the_height_asked_for(layout: JustifiedLayout, item: MediaItem)
    requires
        layout.wf(),
        !layout.target_height.nan(),
        !layout.target_height.less(Single { bits: ONE }),
    ensures
        ({
            let h = layout.tile(item).display_h;
            let (asked, min, max) = (layout.target_height, layout.min_height, layout.max_height);
            &&& min.value() <= asked.value() <= max.value() ==> h == asked
            &&& asked.value() < min.value() ==> h == min
            &&& asked.value() > max.value() >= pow2(149) ==> h == max
        }),
{
    lemma_one();
}

/// Whether a width is a number of pixels from one on that leaves room for more.
pub open spec fn is_width(w: Single) -> bool {
    !w.nan() && !w.negative() && !w.infinite() && pow2(149) <= w.size() <= pow2(246)
}

/// Another tile makes a row wider by the gap and its own width, up to a `2^22`th part;
/// the first makes it as wide as itself.
pub proof fn tiles_add_up_to_the_row(layout: JustifiedLayout, row: Seq<RowItem>, tile: RowItem)
    requires
        is_width(tile.display_w),
        row.len() > 0 ==> is_width(layout.row_width(row)),
        !layout.gap.nan() && !layout.gap.negative() && !layout.gap.infinite(),
        layout.gap.size() <= pow2(246),
    ensures
        row.len() == 0 ==> layout.row_width(row.push(tile)) == tile.display_w,
        row.len() > 0 ==> {
            let sides = layout.row_width(row).size() + layout.gap.size() + tile.display_w.size();
            let wide = layout.row_width(row.push(tile)).size();
            &&& 0x40_0000 * (wide - sides) <= sides
            &&& 0x40_0000 * (sides - wide) <= sides
        },
{
    let before = layout.row_width(row);
    assert(row.push(tile).drop_last() =~= row);
    lemma_pow2_adds(246, 1);
    lemma_pow2_adds(246, 2);
    lemma_pow2_adds(246, 3);
    assert(pow2(1) == 2 && pow2(2) == 4 && pow2(3) == 8) by {
        vstd::arithmetic::power2::lemma2_to64();
    }
    lemma_pow2_pos(149);
    if row.len() > 0 {
        let first = before.sum(layout.gap);
        sum_of_positives_is_near(before, layout.gap);
        sum_of_positives_is_near(first, tile.display_w);
    } else {
        let w = tile.display_w;
        assert(units(0) == 0);
        let m = w.magnitude();
        rounding_keeps_at_least(m, w.size(), 1);
        rounding_keeps_at_most(m, w.size(), 1);
        assert(layout.row_width(row) == (Single { bits: ZERO }));
    }
}

/// Rows wrap at the width of the viewport: a tile that comes behind others goes to the
/// next row just where the row would be wider than the viewport with it.
pub proof fn rows_wrap_at_the_viewport(
    layout: JustifiedLayout,
    viewport_width: Single,
    row: Seq<RowItem>,
    tile: RowItem,
)
    requires
        !viewport_width.nan() && viewport_width.value() >= pow2(149),
        !layout.row_width(row.push(tile)).nan(),
    ensures
        layout.wraps(JustifiedLayout::limit(viewport_width), row, tile) <==> row.len() > 0
            && viewport_width.value() < layout.row_width(row.push(tile)).value(),
{
    lemma_one();
}

/// The tile of an item is for the path of the item, at the top of its row, and shows a
/// folder just where the item is one.
pub proof fn tile_stands_for_its_item(layout: JustifiedLayout, item: MediaItem)
    ensures
        layout.tile(item).media_path@ == item.path@,
        layout.tile(item).is_folder <==> item.media_type == MediaType::Folder,
        layout.tile(item).offset_top.value() == 0,
{
    assert(units(0) == 0);
}

/// Another row makes all rows higher by its own height, up to a `2^24`th part.
pub proof fn heights_of_rows_add_up(rows: Seq<RowModel>, row: RowModel)
    requires
        is_width(row.height_px),
        rows.len() > 0 ==> is_width(heights(rows)),
    ensures
        rows.len() == 0 ==> heights(rows.push(row)) == row.height_px,
        rows.len() > 0 ==> {
            let sides = heights(rows).size() + row.height_px.size();
            let high = heights(rows.push(row)).size();
            &&& 0x100_0000 * sides <= 0x100_0001 * high
            &&& 0x100_0000 * sides >= 0xff_ffff * high
        },
{
    assert(rows.push(row).drop_last() =~= rows);
    lemma_pow2_adds(246, 3);
    lemma_pow2_pos(149);
    assert(pow2(3) == 8) by {
        vstd::arithmetic::power2::lemma2_to64();
    }
    if rows.len() > 0 {
        sum_of_positives_is_near(heights(rows), row.height_px);
    }
}

/// No rows have no height, and rows with gaps of `gap` whole pixels between them are as
/// high as the rows and, one fewer than them, the gaps, up to a `2^24`th part.
pub proof fn gaps_lie_between_rows(rows: Seq<RowModel>, gap: nat)
    requires
        rows.len() < 0x1000,
        gap < 0x1000,
        rows.len() > 0 ==> is_width(heights(rows)),
    ensures
        rows.len() == 0 ==> total(rows, of_whole(gap)).value() == 0,
        rows.len() > 0 ==> {
            let sides = heights(rows).size() + (rows.len() - 1) * gap * pow2(149);
            let high = total(rows, of_whole(gap)).size();
            &&& 0x100_0000 * sides <= 0x100_0001 * high
            &&& 0x100_0000 * sides >= 0xff_ffff * high
        },
{
    let u = pow2(149);
    assert(units(0) == 0);
    if rows.len() > 0 {
        let n = (rows.len() - 1) as nat;
        whole_is_exact(n);
        whole_is_exact(gap);
        let both = n * gap;
        assert(both < 0x100_0000) by (nonlinear_arith)
            requires
                both == n * gap,
                n < 0x1000,
                gap < 0x1000,
        ;
        whole_is_exact(both);
        let m = of_whole(both).magnitude();
        let product = (n * u) * (gap * u);
        assert(product == (both * u) * u) by (nonlinear_arith)
            requires
                product == (n * u) * (gap * u),
                both == n * gap,
        ;
        lemma_pow2_pos(149);
        rounding_keeps_at_least(m, product, u);
        rounding_keeps_at_most(m, product, u);
        let gaps = of_whole(n).product(of_whole(gap));
        assert(gaps.size() == both * u);
        lemma_pow2_adds(149, 24);
        lemma_pow2_adds(173, 73);
        lemma_pow2_adds(246, 3);
        lemma_pow2_pos(73);
        assert(pow2(3) == 8 && pow2(24) == 0x100_0000) by {
            vstd::arithmetic::power2::lemma2_to64();
        }
        assert(both * u <= 0x100_0000 * u) by (nonlinear_arith)
            requires
                both <= 0x100_0000,
        ;
        let wide = pow2(73);
        assert(pow2(173) <= pow2(173) * wide) by (nonlinear_arith)
            requires
                wide >= 1,
        ;
        sum_of_positives_is_near(heights(rows), gaps);
        assert((rows.len() - 1) * gap * pow2(149) == both * u);
    }
}

/// The aspect ratio of an item is its width by its height, to rounding, and one where it has
/// no height.
pub proof fn aspect_is_width_by_height(item: MediaItem)
    requires
        0 < item.width < 0x100_0000,
        item.height < 0x100_0000,
    ensures
        !item.aspect().negative() && !item.aspect().nan() && !item.aspect().infinite(),
        item.height == 0 ==> item.aspect().size() == pow2(149),
        item.height > 0 ==> {
            let ratio = item.aspect().size() * item.height;
            let wide = item.width * pow2(149);
            &&& 0x100_0000 * wide <= 0x100_0001 * ratio
            &&& 0x100_0000 * wide >= 0xff_ffff * ratio
        },
{
    lemma_one();
    if item.height > 0 {
        lemma_aspect(item);
        let p = item.width as nat;
        let q = item.height as nat;
        let u = pow2(149);
        assert(pow2(24) == 0x100_0000) by {
            vstd::arithmetic::power2::lemma2_to64();
        }
        lemma_pow2_adds(149, 24);
        lemma_pow2_adds(125, 24);
        let small = lemma_power_of_two(-24);
        let x = pow2(125);
        assert(x * q <= p * u) by (nonlinear_arith)
            requires
                u == x * 0x100_0000,
                q < 0x100_0000,
                p >= 1,
                x > 0,
        ;
        rounding_keeps_at_least(small, p * u, q);
        nearest_is_nearest(p * u, q);
        rounding_error(item.aspect().magnitude(), p * u, q);
        assert(p * u == item.width * pow2(149));
    }
}

/// The tiles of items are those of each, in their order.
pub proof fn tiles_keep_the_order_of_items(layout: JustifiedLayout, items: Seq<MediaItem>, i: int)
    requires
        0 <= i < items.len(),
    ensures
        layout.tiles(items).len() == items.len(),
        layout.tiles(items)[i] == layout.tile(items[i]),
{
}

/// The items of rows are those of each row, one row after the other.
pub proof fn rows_are_joined_in_order(
    first: Seq<(Seq<RowItem>, Single)>,
    second: Seq<(Seq<RowItem>, Single)>,
    one: (Seq<RowItem>, Single),
)
    ensures
        joined(first + second) == joined(first) + joined(second),
        joined(seq![one]) == one.0,
    decreases second.len(),
{
    let none = Seq::<(Seq<RowItem>, Single)>::empty();
    assert(seq![one].drop_last() =~= none);
    assert(joined(none) =~= seq![]);
    assert(joined(seq![one]) =~= one.0);
    if second.len() == 0 {
        assert(first + second =~= first);
        assert(joined(first) + joined(second) =~= joined(first));
    } else {
        assert((first + second).drop_last() =~= first + second.drop_last());
        rows_are_joined_in_order(first, second.drop_last(), one);
        assert(joined(first + second) =~= joined(first) + joined(second));
    }
}

/// There are rows just where there are items and some width to put them in.
pub proof fn rows_need_items_and_a_width(
    layout: JustifiedLayout,
    items: Seq<MediaItem>,
    viewport_width: Single,
)
    requires
        !viewport_width.nan(),
    ensures
        layout.rows(items, viewport_width).len() > 0 <==> items.len() > 0 && viewport_width.value()
            > 0,
{
    assert(units(0) == 0);
    all_items_are_placed(layout, items, viewport_width);
    if items.len() > 0 && viewport_width.value() > 0 {
        assert(layout.tiles(items).len() > 0);
        assert(joined(Seq::<(Seq<RowItem>, Single)>::empty()).len() == 0);
        if layout.rows(items, viewport_width).len() == 0 {
            assert(layout.rows(items, viewport_width) =~= seq![]);
        }
    }
}

} // verus!
