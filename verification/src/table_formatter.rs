//! Formatting of one table: every content row is tokenized, the columns are
//! measured, the delimiter row is written anew and every cell is padded to
//! the width of its column.

use crate::aligner::{
    align_cell, aligned_cell, lemma_aligned_cell_keeps_content, lemma_aligned_cell_width,
    padded_width,
};
use crate::alignment::{minimum_width, Alignment};
use crate::ast::TableInDocument;
use crate::cell::{cell_views, lemma_row_views_push, row_views, CellView};
use crate::column::{
    column_width, column_widths, get_col_max_widths, lemma_widest_cell, width_at, Row,
};
use crate::delimiter::{
    delimiter_cell, delimiter_cells, get_normalized_delimiter_row, lemma_delimiter_cell_shape,
};
use crate::lines::{char_views, has_crlf, line_terminator, lines_of, split_lines};
use crate::row::{
    framed_text, get_table_indentation, indentation, lemma_row_keeps_text, parse_row_chars,
    row_cells, row_segments,
};
use crate::text::{
    join, join_strings, lemma_string_views_push, lemma_trim_keeps_visible, lemma_visible_concat,
    lemma_visible_join, string_from_chars, string_views, to_chars, visible,
};
use vstd::prelude::*;
use vstd::string::StringExecFns;

verus! {

/// The content rows of a table, top to bottom.
pub struct TableRows {
    pub rows: Vec<Row>,
}

/// The lines of a table that hold content: all but the second, which is the
/// delimiter row.
pub open spec fn content_lines(text: Seq<char>) -> Seq<Seq<char>> {
    let lines = split_lines(text);
    if lines.len() < 2 {
        lines
    } else {
        Seq::new(
            (lines.len() - 1) as nat,
            |r: int|
                if r == 0 {
                    lines[0]
                } else {
                    lines[r + 1]
                },
        )
    }
}

/// The cells of every content row of a table.
pub open spec fn content_rows(text: Seq<char>) -> Seq<Seq<CellView>> {
    Seq::new(content_lines(text).len(), |r: int| row_cells(content_lines(text)[r]))
}

/// Alignment of the cell in column `col`: the declared one, or none where
/// the column has no declaration.
pub open spec fn target_alignment(alignments: Seq<Alignment>, col: int) -> Alignment {
    if 0 <= col < alignments.len() {
        alignments[col]
    } else {
        Alignment::Unspecified
    }
}

/// Width that `cell` is padded to in column `col`: that of the column, or
/// its own where the column has no declaration.
pub open spec fn target_width(widths: Seq<nat>, cell: CellView, col: int) -> nat {
    if 0 <= col < widths.len() {
        widths[col]
    } else {
        cell.visual_length
    }
}

/// The padded text of every cell of `row`.
pub open spec fn aligned_cells(
    row: Seq<CellView>,
    alignments: Seq<Alignment>,
    widths: Seq<nat>,
) -> Seq<Seq<char>> {
    Seq::new(
        row.len(),
        |col: int|
            aligned_cell(
                row[col].content,
                row[col].visual_length,
                target_alignment(alignments, col),
                target_width(widths, row[col], col),
            ),
    )
}

/// A row of the formatted table: the indentation, then the cells between
/// vertical bars.
pub open spec fn framed(prefix: Seq<char>, cells: Seq<Seq<char>>) -> Seq<char> {
    prefix + seq!['|'] + join(cells, seq!['|']) + seq!['|']
}

/// The indentation of a table: that of its first line.
pub open spec fn table_indentation(text: Seq<char>) -> Seq<char> {
    indentation(split_lines(text)[0])
}

/// The lines of the formatted table. The first content row comes first, the
/// delimiter row second, the other content rows after it.
pub open spec fn formatted_lines(text: Seq<char>, alignments: Seq<Alignment>) -> Seq<Seq<char>> {
    let rows = content_rows(text);
    let widths = column_widths(rows, alignments);
    let prefix = table_indentation(text);
    Seq::new(
        rows.len() + 1,
        |k: int|
            if k == 1 {
                framed(prefix, delimiter_cells(alignments, widths))
            } else {
                framed(
                    prefix,
                    aligned_cells(
                        rows[if k == 0 {
                            0
                        } else {
                            k - 1
                        }],
                        alignments,
                        widths,
                    ),
                )
            },
    )
}

/// The formatted table: its lines joined by the line ending of the input.
pub open spec fn formatted_table(text: Seq<char>, alignments: Seq<Alignment>) -> Seq<char> {
    join(formatted_lines(text, alignments), line_terminator(text))
}

/// The widths as mathematical integers.
pub open spec fn nat_views(widths: Seq<usize>) -> Seq<nat> {
    Seq::new(widths.len(), |col: int| widths[col] as nat)
}

/// Every cell of a declared column fits the width of the column, so every
/// cell of the column takes the same width once padded: that of the column
/// and one column more on each side. The delimiter cell is as wide.
pub proof fn lemma_uniform_column_width(
    rows: Seq<Seq<CellView>>,
    alignments: Seq<Alignment>,
    r: int,
    col: int,
)
    requires
        0 <= r < rows.len(),
        0 <= col < rows[r].len(),
        col < alignments.len(),
    ensures
        rows[r][col].visual_length <= column_widths(rows, alignments)[col],
        padded_width(
            aligned_cells(rows[r], alignments, column_widths(rows, alignments))[col],
            rows[r][col].content,
            rows[r][col].visual_length,
        ) == column_widths(rows, alignments)[col] + 2,
        delimiter_cells(alignments, column_widths(rows, alignments))[col].len() == column_widths(
            rows,
            alignments,
        )[col] + 2,
{
    let widths = column_widths(rows, alignments);
    lemma_widest_cell(rows, col);
    assert(width_at(rows[r], col) == rows[r][col].visual_length);
    lemma_aligned_cell_width(
        rows[r][col].content,
        rows[r][col].visual_length,
        alignments[col],
        widths[col],
    );
    lemma_delimiter_cell_shape(alignments[col], widths[col]);
}

/// A cell of a column without alignment is padded to its own width: one
/// space on each side is all that is added.
pub proof fn lemma_undeclared_column_width(
    row: Seq<CellView>,
    alignments: Seq<Alignment>,
    widths: Seq<nat>,
    col: int,
)
    requires
        0 <= col < row.len(),
        alignments.len() <= col,
        widths.len() <= col,
    ensures
        aligned_cells(row, alignments, widths)[col] == seq![' '] + row[col].content + seq![' '],
{
    assert(aligned_cells(row, alignments, widths)[col] =~= seq![' '] + row[col].content + seq![
        ' ',
    ]);
}

/// No column is narrower than the delimiter cell of its alignment has to
/// be: five characters where it is centered, four where it is aligned left
/// or right, three otherwise. The delimiter cell holds three dashes at least.
pub proof fn lemma_delimiter_minimum(rows: Seq<Seq<CellView>>, alignments: Seq<Alignment>, col: int)
    requires
        0 <= col < alignments.len(),
    ensures
        column_widths(rows, alignments)[col] >= minimum_width(alignments[col]),
        alignments[col] == Alignment::Center ==> column_widths(rows, alignments)[col] >= 5,
        alignments[col] == Alignment::Left || alignments[col] == Alignment::Right
            ==> column_widths(rows, alignments)[col] >= 4,
        column_widths(rows, alignments)[col] >= 3,
        delimiter_cells(alignments, column_widths(rows, alignments))[col] == delimiter_cell(
            alignments[col],
            column_widths(rows, alignments)[col],
        ),
        delimiter_cells(alignments, column_widths(rows, alignments))[col].len() >= minimum_width(
            alignments[col],
        ) + 2,
{
    lemma_delimiter_cell_shape(alignments[col], column_widths(rows, alignments)[col]);
}

/// The formatted table has one line for every line of the table, and each
/// of them, the delimiter row too, begins with the indentation of the first
/// line of the table, followed by a vertical bar.
pub proof fn lemma_lines_keep_indentation(text: Seq<char>, alignments: Seq<Alignment>, k: int)
    requires
        split_lines(text).len() >= 2,
        0 <= k < split_lines(text).len(),
    ensures
        formatted_lines(text, alignments).len() == split_lines(text).len(),
        formatted_lines(text, alignments)[k].len() >= table_indentation(text).len() + 2,
        formatted_lines(text, alignments)[k].take(table_indentation(text).len() as int)
            == table_indentation(text),
        formatted_lines(text, alignments)[k][table_indentation(text).len() as int] == '|',
        formatted_lines(text, alignments)[k].last() == '|',
{
    let prefix = table_indentation(text);
    let line = formatted_lines(text, alignments)[k];
    assert(line.take(prefix.len() as int) =~= prefix);
}

/// Formatting changes whitespace only: the visible characters of a padded
/// cell are those that stood between the two delimiters of the cell.
pub proof fn lemma_cell_keeps_visible(
    line: Seq<char>,
    alignments: Seq<Alignment>,
    widths: Seq<nat>,
    col: int,
)
    requires
        0 <= col < row_cells(line).len(),
    ensures
        visible(aligned_cells(row_cells(line), alignments, widths)[col]) == visible(
            row_segments(line)[col],
        ),
{
    let cell = row_cells(line)[col];
    lemma_trim_keeps_visible(row_segments(line)[col]);
    lemma_aligned_cell_keeps_content(
        cell.content,
        cell.visual_length,
        target_alignment(alignments, col),
        target_width(widths, cell, col),
    );
}

/// Formatting a row changes whitespace only: with whitespace left out, the
/// formatted row is the line it was made of, behind the given indentation
/// and with the framing bars added where the line had none. No other
/// character is lost or added.
pub proof fn lemma_row_keeps_visible(
    prefix: Seq<char>,
    line: Seq<char>,
    alignments: Seq<Alignment>,
    widths: Seq<nat>,
)
    requires
        row_cells(line).len() >= 1,
    ensures
        visible(framed(prefix, aligned_cells(row_cells(line), alignments, widths))) == visible(
            prefix + framed_text(line),
        ),
{
    let bar = seq!['|'];
    let padded = aligned_cells(row_cells(line), alignments, widths);
    let runs = row_segments(line);
    assert forall|k: int| 0 <= k < padded.len() implies visible(#[trigger] padded[k]) == visible(
        runs[k],
    ) by {
        lemma_cell_keeps_visible(line, alignments, widths, k);
    }
    lemma_visible_join(padded, runs, bar);
    lemma_row_keeps_text(line);
    lemma_visible_concat(prefix, bar);
    lemma_visible_concat(prefix + bar, join(padded, bar));
    lemma_visible_concat(prefix + bar + join(padded, bar), bar);
    lemma_visible_concat(prefix + bar, join(runs, bar));
    lemma_visible_concat(prefix + bar + join(runs, bar), bar);
    assert(prefix + framed_text(line) =~= prefix + bar + join(runs, bar) + bar);
}

/// Formatting a table changes whitespace only in its content rows: with
/// whitespace left out, the line of the formatted table that stands for a
/// content line is that line behind the indentation of the table, with the
/// framing bars added where the line had none.
pub proof fn lemma_table_keeps_visible(text: Seq<char>, alignments: Seq<Alignment>, r: int)
    requires
        split_lines(text).len() >= 2,
        0 <= r < content_lines(text).len(),
        row_cells(content_lines(text)[r]).len() >= 1,
    ensures
        visible(
            formatted_lines(text, alignments)[if r == 0 {
                0
            } else {
                r + 1
            }],
        ) == visible(table_indentation(text) + framed_text(content_lines(text)[r])),
{
    let rows = content_rows(text);
    assert(rows[r] == row_cells(content_lines(text)[r]));
    lemma_row_keeps_visible(
        table_indentation(text),
        content_lines(text)[r],
        alignments,
        column_widths(rows, alignments),
    );
}

/// Return the cells of each content row of the table.
///
/// The delimiter row is left out: it holds nothing but the alignments, from
/// which it is written anew.
pub fn get_table_content_rows(table: &str) -> (table_rows: TableRows)
    ensures
        row_views(table_rows.rows@) == content_rows(table@),
{
    let chars = to_chars(table);
    let lines = lines_of(&chars);
    let mut rows: Vec<Row> = Vec::new();
    let mut k: usize = 0;
    assert(row_views(rows@) =~= content_rows(table@).take(0));
    while k < lines.len()
        invariant
            k <= lines.len(),
            char_views(lines@) == split_lines(table@),
            row_views(rows@) == content_rows(table@).take(
                if k < 2 {
                    k as int
                } else {
                    k - 1
                },
            ),
        decreases lines.len() - k,
    {
        if k != 1 {
            let row = parse_row_chars(&lines[k]);
            proof {
                let r = if k == 0 {
                    0
                } else {
                    k - 1
                };
                assert(char_views(lines@)[k as int] == lines@[k as int]@);
                assert(content_lines(table@)[r] == lines@[k as int]@);
                lemma_row_views_push(rows@, row);
                assert(content_rows(table@).take(r).push(content_rows(table@)[r])
                    =~= content_rows(table@).take(r + 1));
            }
            rows.push(row);
        }
        k += 1;
    }
    assert(row_views(rows@) =~= content_rows(table@));
    TableRows { rows }
}

/// Puts the cells of a row between vertical bars, behind `prefix`.
pub fn frame_row(prefix: &str, cells: &Vec<String>) -> (line: String)
    ensures
        line@ == framed(prefix@, string_views(cells@)),
{
    proof {
        reveal_strlit("|");
    }
    let joined = join_strings(cells, "|");
    let mut line = String::new();
    line.append(prefix);
    line.append("|");
    line.append(joined.as_str());
    line.append("|");
    assert("|"@ =~= seq!['|']);
    assert(line@ =~= framed(prefix@, string_views(cells@)));
    line
}

/// Pads every cell of `row` to the width of its column.
pub fn align_row(row: &Row, alignments: &[Alignment], widths: &[usize]) -> (cells: Vec<String>)
    requires
        forall|col: int|
            0 <= col < row@.len() && col < widths@.len() ==> (#[trigger] row@[col]).visual_length
                <= widths@[col],
    ensures
        string_views(cells@) == aligned_cells(cell_views(row@), alignments@, nat_views(widths@)),
{
    let mut cells: Vec<String> = Vec::new();
    let mut index: usize = 0;
    let ghost want = aligned_cells(cell_views(row@), alignments@, nat_views(widths@));
    assert(string_views(cells@) =~= want.take(0));
    while index < row.len()
        invariant
            index <= row.len(),
            want == aligned_cells(cell_views(row@), alignments@, nat_views(widths@)),
            forall|col: int|
                0 <= col < row@.len() && col < widths@.len() ==> (#[trigger] row@[col]).visual_length
                    <= widths@[col],
            string_views(cells@) == want.take(index as int),
        decreases row.len() - index,
    {
        let cell = &row[index];
        let align: Alignment = if index < alignments.len() {
            alignments[index]
        } else {
            Alignment::Unspecified
        };
        let length: usize = if index < widths.len() {
            widths[index]
        } else {
            cell.visual_length
        };
        let text = align_cell(cell, &align, &length);
        proof {
            lemma_string_views_push(cells@, text);
            assert(want.take(index as int).push(want[index as int]) =~= want.take(index + 1));
        }
        cells.push(text);
        index += 1;
    }
    assert(want.take(row.len() as int) =~= want);
    cells
}

/// Format a GFM table.
///
/// - each cell has at least one space at the start and end;
/// - each cell has the same visual width as the other cells of its column,
///   if that column has an alignment;
/// - no text of a content row is ever deleted except for the whitespace
///   around a cell; a bar is added where a row lacks one at its start or end;
/// - the delimiter row is written anew from the alignments, and every row
///   gets the indentation of the first;
/// - the result has as many lines as the table had, ended as they were.
pub fn format_table(table: &TableInDocument<'_>) -> (formatted: String)
    requires
        split_lines(table.text@).len() >= 2,
    ensures
        formatted@ == formatted_table(table.text@, table.alignments@),
{
    let table_rows = get_table_content_rows(table.text);
    let ghost rows = content_rows(table.text@);
    let ghost widths = column_widths(rows, table.alignments@);

    // Column "content" width (the length of the longest cell in each column), without padding.
    let column_max_widths: Vec<usize> = get_col_max_widths(
        table_rows.rows.as_slice(),
        table.alignments.as_slice(),
    );
    assert(nat_views(column_max_widths@) =~= widths);

    let chars = to_chars(table.text);
    let lines = lines_of(&chars);
    assert(lines@[0]@ == char_views(lines@)[0]);
    let first_line = string_from_chars(&lines[0]);
    let prefix: String = match get_table_indentation(first_line.as_str()) {
        Some(indentation) => indentation,
        None => String::new(),
    };
    assert(prefix@ =~= table_indentation(table.text@));

    let delimiter_row = get_normalized_delimiter_row(
        table.alignments.as_slice(),
        column_max_widths.as_slice(),
    );
    assert(string_views(delimiter_row@) =~= delimiter_cells(table.alignments@, widths));
    let delimiter_row: String = frame_row(prefix.as_str(), &delimiter_row);

    let ghost want = formatted_lines(table.text@, table.alignments@);
    let mut out: Vec<String> = Vec::new();
    let mut r: usize = 0;
    assert(string_views(out@) =~= want.take(0));
    while r < table_rows.rows.len()
        invariant
            r <= table_rows.rows.len(),
            table_rows.rows@.len() >= 1,
            row_views(table_rows.rows@) == rows,
            rows == content_rows(table.text@),
            widths == column_widths(rows, table.alignments@),
            nat_views(column_max_widths@) == widths,
            column_max_widths@.len() == table.alignments@.len(),
            prefix@ == table_indentation(table.text@),
            delimiter_row@ == framed(prefix@, delimiter_cells(table.alignments@, widths)),
            want == formatted_lines(table.text@, table.alignments@),
            string_views(out@) == want.take(
                if r == 0 {
                    0
                } else {
                    r + 1
                },
            ),
        decreases table_rows.rows.len() - r,
    {
        let row = &table_rows.rows[r];
        proof {
            assert(rows[r as int] == cell_views(row@));
            assert forall|col: int|
                0 <= col < row@.len() && col < column_max_widths@.len() implies (
            #[trigger] row@[col]).visual_length <= column_max_widths@[col] by {
                lemma_widest_cell(rows, col);
                assert(width_at(rows[r as int], col) == row@[col].visual_length);
                assert(widths[col] == column_width(rows, table.alignments@[col], col));
                assert(nat_views(column_max_widths@)[col] == column_max_widths@[col]);
            }
        }
        let aligned = align_row(row, table.alignments.as_slice(), column_max_widths.as_slice());
        let line = frame_row(prefix.as_str(), &aligned);
        proof {
            lemma_string_views_push(out@, line);
        }
        out.push(line);
        if r == 0 {
            let delimiter_line = delimiter_row.clone();
            proof {
                lemma_string_views_push(out@, delimiter_line);
                assert(want.take(0).push(want[0]).push(want[1]) =~= want.take(2));
            }
            out.push(delimiter_line);
        } else {
            proof {
                assert(want.take(r + 1).push(want[r + 1]) =~= want.take(r + 2));
            }
        }
        r += 1;
    }
    assert(want.take(table_rows.rows.len() + 1) =~= want);
    let text_has_crlf = has_crlf(&chars);
    proof {
        reveal_strlit("\r\n");
        reveal_strlit("\n");
        assert("\r\n"@ =~= seq!['\r', '\n']);
        assert("\n"@ =~= seq!['\n']);
    }
    if text_has_crlf {
        join_strings(&out, "\r\n")
    } else {
        join_strings(&out, "\n")
    }
}

} // verus!
