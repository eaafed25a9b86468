//! Padding of one cell to the width of its column.

use crate::alignment::Alignment;
use crate::cell::Cell;
use crate::text::{
    lemma_visible_concat, lemma_visible_spaces, push_repeated, push_str, repeated,
    string_from_chars, visible,
};
use vstd::prelude::*;

verus! {

/// Number of spaces put before the content when `gap` columns have to be
/// filled. Centering rounds down, so an odd space goes behind the content.
pub open spec fn leading_pad(alignment: Alignment, gap: nat) -> nat {
    match alignment {
        Alignment::Center => gap / 2,
        Alignment::Right => gap,
        _ => 0,
    }
}

/// `content`, which is `visual_length` columns wide, padded to `width`
/// columns, between one space on each side.
pub open spec fn aligned_cell(
    content: Seq<char>,
    visual_length: nat,
    alignment: Alignment,
    width: nat,
) -> Seq<char> {
    let gap = (width - visual_length) as nat;
    let lead = leading_pad(alignment, gap);
    seq![' '] + repeated(' ', lead) + content + repeated(' ', (gap - lead) as nat) + seq![' ']
}

/// Number of columns that the padded text of a cell takes: one for each
/// character added to the content, and the display width of the content.
pub open spec fn padded_width(padded: Seq<char>, content: Seq<char>, visual_length: nat) -> int {
    padded.len() - content.len() + visual_length
}

/// A cell that is padded to a width takes that width and one column more
/// on each side, whatever its alignment.
pub proof fn lemma_aligned_cell_width(
    content: Seq<char>,
    visual_length: nat,
    alignment: Alignment,
    width: nat,
)
    requires
        visual_length <= width,
    ensures
        padded_width(aligned_cell(content, visual_length, alignment, width), content, visual_length)
            == width + 2,
        aligned_cell(content, visual_length, alignment, width)[0] == ' ',
        aligned_cell(content, visual_length, alignment, width).last() == ' ',
{
}

/// Padding adds spaces only: the visible characters of the padded cell are
/// those of its content, in the same order.
pub proof fn lemma_aligned_cell_keeps_content(
    content: Seq<char>,
    visual_length: nat,
    alignment: Alignment,
    width: nat,
)
    ensures
        visible(aligned_cell(content, visual_length, alignment, width)) == visible(content),
{
    let gap = (width - visual_length) as nat;
    let lead = leading_pad(alignment, gap);
    let one = seq![' '];
    let before = repeated(' ', lead);
    let after = repeated(' ', (gap - lead) as nat);
    assert(one =~= repeated(' ', 1));
    lemma_visible_spaces(1);
    lemma_visible_spaces(lead);
    lemma_visible_spaces((gap - lead) as nat);
    lemma_visible_concat(one, before);
    lemma_visible_concat(one + before, content);
    lemma_visible_concat(one + before + content, after);
    lemma_visible_concat(one + before + content + after, one);
    assert(visible(aligned_cell(content, visual_length, alignment, width)) =~= visible(content));
}

/// Add whitespace as necessary according to `align`.
///
/// `length` is the width of the column, not including the space on each
/// side of a cell. The returned string is aligned according to `align`, has
/// at least one space on each end, and is two columns wider than `length`.
pub fn align_cell(cell: &Cell, align: &Alignment, length: &usize) -> (text: String)
    requires
        cell.visual_length <= *length,
    ensures
        text@ == aligned_cell(cell.content@, cell.visual_length as nat, *align, *length as nat),
{
    let gap: usize = *length - cell.visual_length;
    let lead: usize = match align {
        Alignment::Center => gap / 2,
        Alignment::Right => gap,
        _ => 0,
    };
    let mut out: Vec<char> = Vec::new();
    out.push(' ');
    push_repeated(&mut out, ' ', lead);
    push_str(&mut out, cell.content.as_str());
    push_repeated(&mut out, ' ', gap - lead);
    out.push(' ');
    assert(out@ =~= aligned_cell(
        cell.content@,
        cell.visual_length as nat,
        *align,
        *length as nat,
    ));
    string_from_chars(&out)
}

} // verus!
