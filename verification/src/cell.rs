//! Table cells and their display width.

use crate::text::{string_from_chars, trim, trim_chars};
use vstd::prelude::*;

verus! {

/// Number of terminal columns needed to show `text` in a monospace font.
///
/// This is the value computed by `unicode_display_width::width`; it depends
/// on the text alone.
pub uninterp spec fn display_width(text: Seq<char>) -> nat;

/// Measures the display width of `text`.
///
/// Trusted: `unicode_display_width::width`, which adds up one or two columns
/// per grapheme cluster of `text`. The sum is at most twice the byte length
/// of `text`, so it always fits a `usize`.
#[verifier::external_body]
pub(crate) fn measure(text: &str) -> (width: usize)
    ensures
        width == display_width(text@),
{
    unicode_display_width::width(text) as usize
}

/// What a [`Cell`] stands for: its text and the width recorded with it.
pub ghost struct CellView {
    pub content: Seq<char>,
    pub visual_length: nat,
}

impl CellView {
    /// The recorded length is the display width of the content.
    pub open spec fn wf(self) -> bool {
        self.visual_length == display_width(self.content)
    }
}

/// The cell that holds `content` together with its display width.
pub open spec fn measured(content: Seq<char>) -> CellView {
    CellView { content, visual_length: display_width(content) }
}

/// Represents a table cell.
///
/// - `content` is the text of the cell with no leading or trailing whitespace.
/// - `visual_length` is the number of columns required to display `content`
///   in a monospace editor.
#[derive(Clone, Debug, PartialEq, Eq)]
pub struct Cell {
    pub content: String,
    pub visual_length: usize,
}

impl View for Cell {
    type V = CellView;

    open spec fn view(&self) -> CellView {
        CellView { content: self.content@, visual_length: self.visual_length as nat }
    }
}

/// The views of a row's cells.
pub open spec fn cell_views(cells: Seq<Cell>) -> Seq<CellView> {
    Seq::new(cells.len(), |k: int| cells[k]@)
}

/// The views of the cells of each row.
pub open spec fn row_views(rows: Seq<Vec<Cell>>) -> Seq<Seq<CellView>> {
    Seq::new(rows.len(), |r: int| cell_views(rows[r]@))
}

/// Appending a cell appends its view.
pub proof fn lemma_cell_views_push(cells: Seq<Cell>, cell: Cell)
    ensures
        cell_views(cells.push(cell)) == cell_views(cells).push(cell@),
{
    assert(cell_views(cells.push(cell)) =~= cell_views(cells).push(cell@));
}

/// Appending a row appends the views of its cells.
pub proof fn lemma_row_views_push(rows: Seq<Vec<Cell>>, row: Vec<Cell>)
    ensures
        row_views(rows.push(row)) == row_views(rows).push(cell_views(row@)),
{
    assert(row_views(rows.push(row)) =~= row_views(rows).push(cell_views(row@)));
}

impl From<Vec<char>> for Cell {
    /// Builds a cell from the raw characters between two delimiters:
    /// surrounding whitespace is dropped and the display width measured.
    fn from(value: Vec<char>) -> (cell: Cell)
        ensures
            cell@ == measured(trim(value@)),
    {
        let trimmed = trim_chars(&value);
        let content = string_from_chars(&trimmed);
        let visual_length = measure(content.as_str());
        Cell { content, visual_length }
    }
}

/// What `from` returns is stated in its own contract, over the view of the
/// cell: a cell cannot be written down as a value in a specification,
/// because no specification term makes a `String`.
impl vstd::std_specs::convert::FromSpecImpl<Vec<char>> for Cell {
    open spec fn obeys_from_spec() -> bool {
        false
    }

    open spec fn from_spec(value: Vec<char>) -> Cell {
        arbitrary()
    }
}

} // verus!
