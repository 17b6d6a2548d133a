//! The rows of the grid.
use vstd::prelude::*;

use crate::single::Single;

verus! {

/// An item as it stands in a row.
#[derive(Debug)]
pub struct RowItem {
    pub media_path: String,
    pub display_w: Single,
    pub display_h: Single,
    pub offset_top: Single,
    pub is_folder: bool,
}

impl Clone for RowItem {
    fn clone(&self) -> (r: Self)
        ensures
            r == *self,
    {
        RowItem {
            media_path: self.media_path.clone(),
            display_w: self.display_w,
            display_h: self.display_h,
            offset_top: self.offset_top,
            is_folder: self.is_folder,
        }
    }
}

/// A row of the grid.
#[derive(Debug)]
pub struct RowModel {
    pub row_index: u32,
    pub height_px: Single,
    pub items: Vec<RowItem>,
}

impl RowModel {
    /// A row.
    pub fn new(row_index: u32, height_px: Single, items: Vec<RowItem>) -> (r: Self)
        ensures
            r.row_index == row_index,
            r.height_px == height_px,
            r.items@ == items@,
    {
        RowModel { row_index, height_px, items }
    }
}

/// A row as plain values: its items and its height.
pub open spec fn row_view(r: RowModel) -> (Seq<RowItem>, Single) {
    (r.items@, r.height_px)
}

/// Whether `rows` are the given rows, numbered from zero.
pub open spec fn are_rows(rows: Seq<RowModel>, views: Seq<(Seq<RowItem>, Single)>) -> bool {
    &&& rows.len() == views.len()
    &&& forall|i: int|
        0 <= i < rows.len() ==> row_view(#[trigger] rows[i]) == views[i] && rows[i].row_index == i
}

/// Rows are numbered in order, and each holds its items and its height.
pub proof fn rows_are_numbered(rows: Seq<RowModel>, views: Seq<(Seq<RowItem>, Single)>, i: int)
    requires
        are_rows(rows, views),
        0 <= i < rows.len(),
    ensures
        rows.len() == views.len(),
        rows[i].row_index == i,
        rows[i].items@ == views[i].0,
        rows[i].height_px == views[i].1,
{
}

} // verus!
