//! Splitting one line of a table into its cells.

use crate::cell::{cell_views, lemma_cell_views_push, measured, Cell, CellView};
use crate::text::{join, string_from_chars, to_chars, trim};
use vstd::prelude::*;

verus! {

/// Characters that may precede a table row: spaces and blockquote markers.
pub open spec fn is_indent_char(c: char) -> bool {
    c == ' ' || c == '>'
}

/// Length of the longest run of indentation characters at the start of `line`.
pub open spec fn indent_len(line: Seq<char>) -> nat
    decreases line.len(),
{
    if line.len() > 0 && is_indent_char(line[0]) {
        1 + indent_len(line.drop_first())
    } else {
        0
    }
}

/// The indentation prefix of `line`.
pub open spec fn indentation(line: Seq<char>) -> Seq<char> {
    line.take(indent_len(line) as int)
}

/// `line` without its indentation prefix.
pub open spec fn strip_indent(line: Seq<char>) -> Seq<char> {
    line.skip(indent_len(line) as int)
}

/// The indentation of a line is no longer than the line.
pub proof fn lemma_indent_len_bound(line: Seq<char>)
    ensures
        indent_len(line) <= line.len(),
    decreases line.len(),
{
    if line.len() > 0 && is_indent_char(line[0]) {
        lemma_indent_len_bound(line.drop_first());
    }
}

/// Number of consecutive backslashes that end just before position `i`.
pub open spec fn backslashes_before(s: Seq<char>, i: int) -> nat
    decreases i,
{
    if 0 < i <= s.len() && s[i - 1] == '\\' {
        1 + backslashes_before(s, i - 1)
    } else {
        0
    }
}

/// The character at position `i` follows an odd number of backslashes.
pub open spec fn is_escaped(s: Seq<char>, i: int) -> bool {
    backslashes_before(s, i) % 2 == 1
}

/// Position `i` holds a vertical bar that separates two cells.
pub open spec fn is_delimiter(s: Seq<char>, i: int) -> bool {
    0 <= i < s.len() && s[i] == '|' && !is_escaped(s, i)
}

/// The runs of characters between the delimiters of `body`. There is always
/// one run more than there are delimiters; runs may be empty.
pub open spec fn split_cells(body: Seq<char>) -> Seq<Seq<char>>
    decreases body.len(),
{
    if body.len() == 0 {
        seq![Seq::<char>::empty()]
    } else {
        let init = split_cells(body.drop_last());
        if is_delimiter(body, body.len() - 1) {
            init.push(Seq::<char>::empty())
        } else {
            init.drop_last().push(init.last().push(body.last()))
        }
    }
}

/// The text of a row between the bar that opens it, if there is one, and
/// the end of the line.
pub open spec fn row_body(line: Seq<char>) -> Seq<char> {
    let rest = strip_indent(line);
    if rest.len() > 0 && rest[0] == '|' {
        rest.drop_first()
    } else {
        rest
    }
}

/// The row ends with a bar that closes it: a bar that is not escaped.
pub open spec fn is_closed(line: Seq<char>) -> bool {
    is_delimiter(row_body(line), row_body(line).len() - 1)
}

/// The raw text of each cell of `line`, before trimming. Nothing follows
/// the bar that closes a row, so no cell is made of what stands behind it;
/// an escaped bar at the end of the line belongs to the last cell.
pub open spec fn row_segments(line: Seq<char>) -> Seq<Seq<char>> {
    let rest = strip_indent(line);
    if rest.len() == 0 || (rest.len() == 1 && rest[0] == '|') {
        Seq::<Seq<char>>::empty()
    } else {
        let runs = split_cells(row_body(line));
        if is_closed(line) {
            runs.drop_last()
        } else {
            runs
        }
    }
}

/// The text of a row with the bars that frame it, one before its first
/// cell and one behind its last, added where the line has none.
pub open spec fn framed_text(line: Seq<char>) -> Seq<char> {
    seq!['|'] + row_body(line) + if is_closed(line) {
        Seq::<char>::empty()
    } else {
        seq!['|']
    }
}

/// The cells made of the given raw runs: each run trimmed and measured.
pub open spec fn cells_of(segments: Seq<Seq<char>>) -> Seq<CellView> {
    Seq::new(segments.len(), |k: int| measured(trim(segments[k])))
}

/// The cells of `line`, left to right.
pub open spec fn row_cells(line: Seq<char>) -> Seq<CellView> {
    cells_of(row_segments(line))
}

/// Every text has one run at least, be it empty.
pub proof fn lemma_split_cells_nonempty(body: Seq<char>)
    ensures
        split_cells(body).len() >= 1,
    decreases body.len(),
{
    if body.len() > 0 {
        lemma_split_cells_nonempty(body.drop_last());
    }
}

/// Whether a position is escaped depends only on the characters before it.
pub proof fn lemma_backslashes_prefix(s: Seq<char>, len: int, i: int)
    requires
        0 <= i <= len <= s.len(),
    ensures
        backslashes_before(s.take(len), i) == backslashes_before(s, i),
    decreases i,
{
    if 0 < i && s[i - 1] == '\\' {
        lemma_backslashes_prefix(s, len, i - 1);
    }
}

/// The tokenizer drops no character: the runs between the delimiters of a
/// text, joined by vertical bars again, are the text.
pub proof fn lemma_split_cells_keeps_text(body: Seq<char>)
    ensures
        split_cells(body).len() >= 1,
        join(split_cells(body), seq!['|']) == body,
    decreases body.len(),
{
    let bar = seq!['|'];
    lemma_split_cells_nonempty(body);
    if body.len() == 0 {
        assert(join(split_cells(body), bar) =~= body);
    } else {
        let init = body.drop_last();
        lemma_split_cells_keeps_text(init);
        let runs = split_cells(init);
        if is_delimiter(body, body.len() - 1) {
            assert(runs.push(Seq::<char>::empty()).drop_last() =~= runs);
            assert(join(split_cells(body), bar) =~= init + bar);
            assert(init + bar =~= body);
        } else {
            let longer = runs.last().push(body.last());
            let now = runs.drop_last().push(longer);
            assert(now.drop_last() =~= runs.drop_last());
            if runs.len() == 1 {
                assert(join(runs, bar) == runs[0]);
                assert(join(now, bar) == longer);
            } else {
                assert(join(runs, bar) == join(runs.drop_last(), bar) + bar + runs.last());
                assert(join(now, bar) =~= join(runs, bar).push(body.last()));
            }
            assert(init.push(body.last()) =~= body);
        }
    }
}

/// The cells of a row hold all the text of its line: framed by bars and
/// joined by bars again, the runs between its delimiters are the line
/// behind its indentation, with the framing bars added where it has none.
pub proof fn lemma_row_keeps_text(line: Seq<char>)
    requires
        row_segments(line).len() >= 1,
    ensures
        seq!['|'] + join(row_segments(line), seq!['|']) + seq!['|'] == framed_text(line),
{
    let bar = seq!['|'];
    let body = row_body(line);
    lemma_split_cells_keeps_text(body);
    let runs = split_cells(body);
    if is_closed(line) {
        assert(runs.len() >= 2);
        assert(join(runs, bar) == join(runs.drop_last(), bar) + bar + runs.last());
        assert(runs.last() =~= Seq::<char>::empty());
        assert(join(runs.drop_last(), bar) + bar =~= body);
        assert(bar + join(runs.drop_last(), bar) + bar =~= bar + body + Seq::<char>::empty());
    }
}

/// A line has a cell unless nothing, or a single bar, follows its indentation.
pub proof fn lemma_row_has_cell(line: Seq<char>)
    ensures
        (row_segments(line).len() >= 1) == !(strip_indent(line).len() == 0 || (strip_indent(
            line,
        ).len() == 1 && strip_indent(line)[0] == '|')),
{
    let body = row_body(line);
    lemma_split_cells_nonempty(body);
    if is_closed(line) {
        lemma_split_cells_nonempty(body.drop_last());
    }
}

/// Counts the indentation characters at the start of `line`.
pub fn indent_end(line: &Vec<char>) -> (end: usize)
    ensures
        end == indent_len(line@),
        end <= line.len(),
{
    let n: usize = line.len();
    let mut end: usize = 0;
    assert(line@.skip(0) =~= line@);
    while end < n && (line[end] == ' ' || line[end] == '>')
        invariant
            n == line.len(),
            end <= n,
            indent_len(line@) == end + indent_len(line@.skip(end as int)),
        decreases n - end,
    {
        proof {
            assert(line@.skip(end as int).drop_first() =~= line@.skip(end + 1));
        }
        end += 1;
    }
    proof {
        if end < n {
            assert(line@.skip(end as int)[0] == line@[end as int]);
        }
    }
    end
}

/// Return the text preceding the start of the table on its first line.
///
/// Tables can be nested inside one or more blockquotes so long as the
/// blockquote indent is consistent for the entire table.
///
/// If the table starts at the beginning of the line, return `None`.
/// Otherwise, return a string composed of spaces and `>`.
pub fn get_table_indentation(table_header: &str) -> (prefix: Option<String>)
    ensures
        match prefix {
            Some(p) => indent_len(table_header@) > 0 && p@ == indentation(table_header@),
            None => indent_len(table_header@) == 0,
        },
{
    let chars = to_chars(table_header);
    let end = indent_end(&chars);
    if end == 0 {
        None
    } else {
        let mut run: Vec<char> = Vec::new();
        let mut i: usize = 0;
        while i < end
            invariant
                i <= end <= chars.len(),
                run@ == chars@.take(i as int),
            decreases end - i,
        {
            run.push(chars[i]);
            proof {
                assert(chars@.take(i as int).push(chars@[i as int]) =~= chars@.take(i + 1));
            }
            i += 1;
        }
        Some(string_from_chars(&run))
    }
}

/// Splits the characters of one table line into cells.
pub fn parse_row_chars(line: &Vec<char>) -> (cells: Vec<Cell>)
    ensures
        cell_views(cells@) == row_cells(line@),
{
    let n: usize = line.len();
    let start: usize = indent_end(line);
    let ghost rest = strip_indent(line@);
    if start == n || (n - start == 1 && line[start] == '|') {
        let cells: Vec<Cell> = Vec::new();
        assert(cell_views(cells@) =~= row_cells(line@));
        return cells;
    }
    let first: usize = if line[start] == '|' {
        start + 1
    } else {
        start
    };
    let ghost body = line@.skip(first as int);
    proof {
        assert(rest[0] == line@[start as int]);
        assert(rest.drop_first() =~= line@.skip(start + 1));
        assert(body == row_body(line@));
        assert(body.take(0) =~= Seq::<char>::empty());
    }
    let mut cells: Vec<Cell> = Vec::new();
    let mut cell: Vec<char> = Vec::new();
    assert(cell_views(cells@) =~= cells_of(split_cells(body.take(0)).drop_last()));
    let mut escaped: bool = false;
    let mut closed: bool = false;
    let mut i: usize = first;
    while i < n
        invariant
            first <= i <= n,
            n == line.len(),
            body == line@.skip(first as int),
            closed == (i > first && is_delimiter(body, i - first - 1)),
            split_cells(body.take(i - first)).len() >= 1,
            cell_views(cells@) == cells_of(split_cells(body.take(i - first)).drop_last()),
            cell@ == split_cells(body.take(i - first)).last(),
            escaped == is_escaped(body, i - first),
        decreases n - i,
    {
        let c: char = line[i];
        let ghost seen = body.take(i - first);
        let ghost next = body.take(i - first + 1);
        proof {
            assert(next.drop_last() =~= seen);
            assert(next.last() == c);
            lemma_backslashes_prefix(body, i - first + 1, i - first);
            lemma_split_cells_nonempty(next);
        }
        if c == '|' && !escaped {
            let done = Cell::from(cell);
            proof {
                lemma_cell_views_push(cells@, done);
            }
            cells.push(done);
            cell = Vec::new();
            closed = true;
            proof {
                assert(split_cells(next) == split_cells(seen).push(Seq::<char>::empty()));
                assert(split_cells(next).drop_last() =~= split_cells(seen));
                assert(split_cells(seen) =~= split_cells(seen).drop_last().push(
                    split_cells(seen).last(),
                ));
                assert(cell_views(cells@) =~= cells_of(split_cells(next).drop_last()));
            }
        } else {
            if c == '\\' {
                escaped = !escaped;
            } else {
                escaped = false;
            }
            cell.push(c);
            closed = false;
            proof {
                assert(split_cells(next) == split_cells(seen).drop_last().push(
                    split_cells(seen).last().push(c),
                ));
                assert(split_cells(next).drop_last() =~= split_cells(seen).drop_last());
                assert(cell_views(cells@) =~= cells_of(split_cells(next).drop_last()));
            }
        }
        i += 1;
    }
    proof {
        assert(body.take(n - first) =~= body);
    }
    if !closed {
        let done = Cell::from(cell);
        proof {
            lemma_cell_views_push(cells@, done);
        }
        cells.push(done);
        proof {
            assert(split_cells(body) =~= split_cells(body).drop_last().push(
                split_cells(body).last(),
            ));
            assert(cell_views(cells@) =~= cells_of(split_cells(body)));
        }
    }
    cells
}

/// Splits one line of a table into its cells.
///
/// Vertical bars separate cells unless a backslash escapes them; a bar
/// inside a code span still has to be escaped to be kept in a cell. Every
/// character of the line behind its indentation ends up in a cell, but for
/// the delimiters and the whitespace around a cell.
pub fn parse_row_text(line: &str) -> (cells: Vec<Cell>)
    ensures
        cell_views(cells@) == row_cells(line@),
{
    let chars = to_chars(line);
    parse_row_chars(&chars)
}

} // verus!
