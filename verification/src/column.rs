//! Width of each declared column.

use crate::alignment::{get_alignment_cell_minimum_width, minimum_width, Alignment};
use crate::cell::{row_views, Cell, CellView};
use vstd::prelude::*;

verus! {

/// The cells of one content row, left to right.
pub type Row = Vec<Cell>;

/// Display width of the cell of `row` in column `col`; zero where the row
/// has no such cell.
pub open spec fn width_at(row: Seq<CellView>, col: int) -> nat {
    if 0 <= col < row.len() {
        row[col].visual_length
    } else {
        0
    }
}

/// The largest display width among the cells of column `col`.
pub open spec fn widest_cell(rows: Seq<Seq<CellView>>, col: int) -> nat
    decreases rows.len(),
{
    if rows.len() == 0 {
        0
    } else {
        let above = widest_cell(rows.drop_last(), col);
        let here = width_at(rows.last(), col);
        if here > above {
            here
        } else {
            above
        }
    }
}

/// Width of column `col`: that of its widest cell, but never less than what
/// the delimiter cell of its alignment needs.
pub open spec fn column_width(rows: Seq<Seq<CellView>>, alignment: Alignment, col: int) -> nat {
    let floor = minimum_width(alignment);
    let widest = widest_cell(rows, col);
    if widest > floor {
        widest
    } else {
        floor
    }
}

/// The width of every declared column.
pub open spec fn column_widths(rows: Seq<Seq<CellView>>, alignments: Seq<Alignment>) -> Seq<nat> {
    Seq::new(alignments.len(), |col: int| column_width(rows, alignments[col], col))
}

/// The widest cell of a column is as wide as each of its cells, and is one
/// of them unless the column is empty or holds cells of width zero only.
pub proof fn lemma_widest_cell(rows: Seq<Seq<CellView>>, col: int)
    ensures
        forall|r: int| 0 <= r < rows.len() ==> width_at(#[trigger] rows[r], col) <= widest_cell(rows, col),
        widest_cell(rows, col) == 0 || exists|r: int|
            0 <= r < rows.len() && width_at(#[trigger] rows[r], col) == widest_cell(rows, col),
    decreases rows.len(),
{
    if rows.len() > 0 {
        let init = rows.drop_last();
        lemma_widest_cell(init, col);
        assert forall|r: int| 0 <= r < rows.len() implies width_at(#[trigger] rows[r], col)
            <= widest_cell(rows, col) by {
            if r < rows.len() - 1 {
                assert(rows[r] == init[r]);
            }
        }
        if widest_cell(rows, col) != 0 {
            if width_at(rows.last(), col) > widest_cell(init, col) {
                assert(width_at(rows[rows.len() - 1], col) == widest_cell(rows, col));
            } else {
                let r = choose|r: int|
                    0 <= r < init.len() && width_at(#[trigger] init[r], col) == widest_cell(
                        init,
                        col,
                    );
                assert(rows[r] == init[r]);
            }
        }
    }
}

/// Return the maximum width of each column that has an alignment.
///
/// `content_rows` are all rows of the table except for the delimiter row.
/// Cells in a column beyond the last alignment are ignored. The widths do
/// not include the padding around a cell, and none is smaller than the
/// delimiter cell of its column has to be.
pub fn get_col_max_widths(content_rows: &[Row], alignments: &[Alignment]) -> (max_widths: Vec<usize>)
    ensures
        max_widths@.len() == alignments@.len(),
        forall|col: int|
            0 <= col < alignments@.len() ==> #[trigger] max_widths@[col] == column_width(
                row_views(content_rows@),
                alignments@[col],
                col,
            ),
{
    let ghost rows = row_views(content_rows@);
    let mut max_widths: Vec<usize> = Vec::new();
    let mut index: usize = 0;
    while index < alignments.len()
        invariant
            index <= alignments@.len(),
            rows == row_views(content_rows@),
            max_widths@.len() == index,
            forall|col: int|
                0 <= col < index ==> #[trigger] max_widths@[col] == column_width(
                    rows,
                    alignments@[col],
                    col,
                ),
        decreases alignments.len() - index,
    {
        let mut widest: usize = 0;
        let mut r: usize = 0;
        assert(rows.take(0) =~= Seq::<Seq<CellView>>::empty());
        while r < content_rows.len()
            invariant
                r <= content_rows@.len(),
                rows == row_views(content_rows@),
                widest == widest_cell(rows.take(r as int), index as int),
            decreases content_rows.len() - r,
        {
            proof {
                assert(rows.take(r + 1).drop_last() =~= rows.take(r as int));
                assert(rows.take(r + 1).last() == rows[r as int]);
            }
            let row = &content_rows[r];
            if index < row.len() && row[index].visual_length > widest {
                widest = row[index].visual_length;
            }
            r += 1;
        }
        assert(rows.take(content_rows@.len() as int) =~= rows);
        let floor: usize = get_alignment_cell_minimum_width(&alignments[index]) as usize;
        max_widths.push(if widest > floor { widest } else { floor });
        index += 1;
    }
    max_widths
}

} // verus!
