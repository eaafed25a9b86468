//! Synthesis of the delimiter row from alignments and column widths.

use crate::alignment::{minimum_width, Alignment};
use crate::text::{push_repeated, repeated, string_from_chars};
use vstd::prelude::*;

verus! {

/// The delimiter cell of a column of the given alignment and width, with one
/// space of padding on each side.
pub open spec fn delimiter_cell(alignment: Alignment, width: nat) -> Seq<char> {
    match alignment {
        Alignment::Center => seq![' ', ':'] + repeated('-', (width - 2) as nat) + seq![':', ' '],
        Alignment::Left => seq![' ', ':'] + repeated('-', (width - 1) as nat) + seq![' '],
        Alignment::Right => seq![' '] + repeated('-', (width - 1) as nat) + seq![':', ' '],
        Alignment::Unspecified => seq![' '] + repeated('-', width) + seq![' '],
    }
}

/// The delimiter cells of all declared columns.
pub open spec fn delimiter_cells(alignments: Seq<Alignment>, widths: Seq<nat>) -> Seq<Seq<char>> {
    Seq::new(alignments.len(), |col: int| delimiter_cell(alignments[col], widths[col]))
}

/// Number of dashes in the delimiter cell of a column.
pub open spec fn dash_count(alignment: Alignment, width: nat) -> nat {
    match alignment {
        Alignment::Center => (width - 2) as nat,
        Alignment::Left | Alignment::Right => (width - 1) as nat,
        Alignment::Unspecified => width,
    }
}

/// A delimiter cell is as wide as its column, between one space on each
/// side, and is never shorter than its alignment allows: it holds three
/// dashes at least, and a colon on each side where the alignment asks for it.
pub proof fn lemma_delimiter_cell_shape(alignment: Alignment, width: nat)
    requires
        width >= minimum_width(alignment),
    ensures
        delimiter_cell(alignment, width).len() == width + 2,
        width >= 5 || alignment != Alignment::Center,
        width >= 4 || alignment == Alignment::Unspecified,
        width >= 3,
        dash_count(alignment, width) >= 3,
        delimiter_cell(alignment, width)[0] == ' ',
        delimiter_cell(alignment, width).last() == ' ',
        (delimiter_cell(alignment, width)[1] == ':') == (alignment == Alignment::Left || alignment
            == Alignment::Center),
        (delimiter_cell(alignment, width)[width as int] == ':') == (alignment == Alignment::Right
            || alignment == Alignment::Center),
        forall|i: int|
            1 <= i <= width ==> #[trigger] delimiter_cell(alignment, width)[i] == '-'
                || delimiter_cell(alignment, width)[i] == ':',
{
}

/// Get the formatted string to place in a delimiter cell.
///
/// `width` is the visual width of the cell not including leading or
/// trailing whitespace.
pub fn format_delimiter_cell(alignment: &Alignment, width: usize) -> (cell: String)
    requires
        width >= minimum_width(*alignment),
    ensures
        cell@ == delimiter_cell(*alignment, width as nat),
{
    let mut out: Vec<char> = Vec::new();
    out.push(' ');
    match alignment {
        Alignment::Center => {
            out.push(':');
            push_repeated(&mut out, '-', width - 2);
            out.push(':');
        },
        Alignment::Left => {
            out.push(':');
            push_repeated(&mut out, '-', width - 1);
        },
        Alignment::Right => {
            push_repeated(&mut out, '-', width - 1);
            out.push(':');
        },
        Alignment::Unspecified => {
            push_repeated(&mut out, '-', width);
        },
    }
    out.push(' ');
    assert(out@ =~= delimiter_cell(*alignment, width as nat));
    string_from_chars(&out)
}

/// Return the delimiter cells normalized to the maximum column widths. Unlike
/// content cells, these reach their width by the number of dashes.
pub fn get_normalized_delimiter_row(
    column_alignment: &[Alignment],
    column_max_widths: &[usize],
) -> (cells: Vec<String>)
    requires
        column_alignment@.len() == column_max_widths@.len(),
        forall|col: int|
            0 <= col < column_alignment@.len() ==> column_max_widths@[col] >= minimum_width(
                #[trigger] column_alignment@[col],
            ),
    ensures
        cells@.len() == column_alignment@.len(),
        forall|col: int|
            0 <= col < column_alignment@.len() ==> (#[trigger] cells@[col])@ == delimiter_cell(
                column_alignment@[col],
                column_max_widths@[col] as nat,
            ),
{
    let mut cells: Vec<String> = Vec::new();
    let mut col: usize = 0;
    while col < column_alignment.len()
        invariant
            col <= column_alignment@.len(),
            column_alignment@.len() == column_max_widths@.len(),
            forall|c: int|
                0 <= c < column_alignment@.len() ==> column_max_widths@[c] >= minimum_width(
                    #[trigger] column_alignment@[c],
                ),
            cells@.len() == col,
            forall|c: int|
                0 <= c < col ==> (#[trigger] cells@[c])@ == delimiter_cell(
                    column_alignment@[c],
                    column_max_widths@[c] as nat,
                ),
        decreases column_alignment.len() - col,
    {
        cells.push(format_delimiter_cell(&column_alignment[col], column_max_widths[col]));
        col += 1;
    }
    cells
}

} // verus!
