//! Formatting a formatted table changes nothing: the cells, the lines and
//! the line ending of the formatted text are read back as they were written.

use crate::aligner::{aligned_cell, leading_pad};
use crate::alignment::Alignment;
use crate::ast::TableView;
use crate::cell::CellView;
use crate::column::column_widths;
use crate::delimiter::{delimiter_cell, delimiter_cells};
use crate::lines::{
    contains_crlf, crlf_at, lemma_line_end_bound, line_end, line_terminator, split_lines, strip_cr,
};
use crate::row::{
    backslashes_before, indent_len, indentation, is_delimiter, is_indent_char,
    lemma_backslashes_prefix, lemma_indent_len_bound, lemma_split_cells_nonempty, row_cells,
    row_segments, split_cells, strip_indent,
};
use crate::splicer::{formatted_document, lemma_formatted_document_is_kept};
use crate::table_formatter::{
    aligned_cells, content_lines, content_rows, formatted_lines, formatted_table, framed,
    table_indentation, target_alignment, target_width,
};
use crate::text::{
    is_whitespace, join, leading_whitespace, lemma_trim_is_part, lemma_trim_padded, repeated, trim,
};
use vstd::prelude::*;

verus! {

/// No vertical bar of `s` separates cells: each one is escaped.
pub open spec fn no_delimiter(s: Seq<char>) -> bool {
    forall|j: int| 0 <= j < s.len() ==> !is_delimiter(s, j)
}

/// `s` does not end with a backslash.
pub open spec fn ends_plain(s: Seq<char>) -> bool {
    s.len() == 0 || s.last() != '\\'
}

/// `s` is empty or begins and ends with a character that is not whitespace.
pub open spec fn is_trimmed(s: Seq<char>) -> bool {
    s.len() > 0 ==> !is_whitespace(s[0]) && !is_whitespace(s.last())
}

/// Behind a text that does not end with a backslash, the backslashes before
/// a position are those of the following text alone.
pub proof fn lemma_backslashes_after_plain(x: Seq<char>, y: Seq<char>, j: int)
    requires
        ends_plain(x),
        0 <= j <= y.len(),
    ensures
        backslashes_before(x + y, x.len() + j) == backslashes_before(y, j),
    decreases j,
{
    if j > 0 {
        assert((x + y)[x.len() + j - 1] == y[j - 1]);
        if y[j - 1] == '\\' {
            lemma_backslashes_after_plain(x, y, j - 1);
        }
    } else if x.len() > 0 {
        assert((x + y)[x.len() - 1] == x.last());
    }
}

/// Whether a bar separates cells depends on the text before it, back to the
/// last character that is no backslash.
pub proof fn lemma_delimiter_in_context(x: Seq<char>, y: Seq<char>, z: Seq<char>, j: int)
    requires
        ends_plain(x),
        0 <= j < y.len(),
    ensures
        is_delimiter(x + y + z, x.len() + j) == is_delimiter(y, j),
{
    let all = x + y + z;
    let upto = (x.len() + y.len()) as int;
    assert(all.take(upto) =~= x + y);
    lemma_backslashes_prefix(all, upto, x.len() + j);
    lemma_backslashes_after_plain(x, y, j);
    assert(all[x.len() + j] == y[j]);
}

/// A text without delimiters, put behind another text, lengthens the last
/// cell of that text.
pub proof fn lemma_split_cells_append(x: Seq<char>, y: Seq<char>)
    requires
        forall|i: int| x.len() <= i < x.len() + y.len() ==> !is_delimiter(x + y, i),
    ensures
        split_cells(x).len() >= 1,
        split_cells(x + y) == split_cells(x).drop_last().push(split_cells(x).last() + y),
    decreases y.len(),
{
    lemma_split_cells_nonempty(x);
    let runs = split_cells(x);
    if y.len() == 0 {
        assert(x + y =~= x);
        assert(runs.last() + y =~= runs.last());
        assert(runs =~= runs.drop_last().push(runs.last()));
    } else {
        let init = y.drop_last();
        let all = x + y;
        assert(all.drop_last() =~= x + init);
        assert forall|i: int| x.len() <= i < x.len() + init.len() implies !is_delimiter(
            x + init,
            i,
        ) by {
            assert(!is_delimiter(all, i));
            lemma_backslashes_prefix(all, all.len() - 1, i);
            assert(all.take(all.len() - 1) =~= x + init);
            assert((x + init)[i] == all[i]);
        }
        lemma_split_cells_append(x, init);
        assert(!is_delimiter(all, all.len() - 1));
        let before = split_cells(x + init);
        assert(before.last() == runs.last() + init);
        assert(before.drop_last() =~= runs.drop_last());
        assert(all.last() == y.last());
        assert((runs.last() + init).push(y.last()) =~= runs.last() + y);
    }
}

/// A bar behind a text that does not end with a backslash begins a new cell.
pub proof fn lemma_split_cells_bar(x: Seq<char>)
    requires
        ends_plain(x),
    ensures
        split_cells(x.push('|')) == split_cells(x).push(Seq::<char>::empty()),
{
    let all = x.push('|');
    assert(all.drop_last() =~= x);
    assert(backslashes_before(all, x.len() as int) == 0) by {
        if x.len() > 0 {
            assert(all[x.len() - 1] == x.last());
        }
    }
    assert(is_delimiter(all, all.len() - 1));
}

/// No run of characters between two delimiters holds a delimiter, and the
/// backslashes at the end of a text are those at the end of its last run.
pub proof fn lemma_runs_hold_no_delimiter(body: Seq<char>)
    ensures
        split_cells(body).len() >= 1,
        forall|k: int| 0 <= k < split_cells(body).len() ==> no_delimiter(#[trigger] split_cells(body)[k]),
        backslashes_before(body, body.len() as int) == backslashes_before(
            split_cells(body).last(),
            split_cells(body).last().len() as int,
        ),
    decreases body.len(),
{
    lemma_split_cells_nonempty(body);
    if body.len() > 0 {
        let init = body.drop_last();
        let c = body.last();
        lemma_runs_hold_no_delimiter(init);
        let runs = split_cells(init);
        let last = runs.last();
        assert(body.take(body.len() - 1) =~= init);
        lemma_backslashes_prefix(body, body.len() - 1, body.len() - 1);
        if is_delimiter(body, body.len() - 1) {
            assert forall|k: int| 0 <= k < split_cells(body).len() implies no_delimiter(
                #[trigger] split_cells(body)[k],
            ) by {
                if k < runs.len() {
                    assert(split_cells(body)[k] == runs[k]);
                }
            }
        } else {
            let longer = last.push(c);
            assert(longer.take(last.len() as int) =~= last);
            assert forall|j: int| 0 <= j < longer.len() implies !is_delimiter(longer, j) by {
                lemma_backslashes_prefix(longer, last.len() as int, if j < last.len() {
                    j
                } else {
                    last.len() as int
                });
                if j < last.len() {
                    assert(!is_delimiter(last, j));
                    assert(longer[j] == last[j]);
                }
            }
            lemma_backslashes_prefix(longer, last.len() as int, last.len() as int);
            assert forall|k: int| 0 <= k < split_cells(body).len() implies no_delimiter(
                #[trigger] split_cells(body)[k],
            ) by {
                if k < runs.len() - 1 {
                    assert(split_cells(body)[k] == runs[k]);
                }
            }
        }
    }
}

/// A text that holds no delimiter holds none once it is trimmed.
pub proof fn lemma_trim_holds_no_delimiter(s: Seq<char>)
    requires
        no_delimiter(s),
    ensures
        no_delimiter(trim(s)),
        is_trimmed(trim(s)),
{
    lemma_trim_is_part(s);
    let start = leading_whitespace(s) as int;
    let end = start + trim(s).len();
    let x = s.take(start);
    let z = s.skip(end);
    assert(s =~= x + trim(s) + z);
    assert(ends_plain(x)) by {
        if start > 0 {
            assert(x.last() == s[start - 1]);
        }
    }
    assert forall|j: int| 0 <= j < trim(s).len() implies !is_delimiter(trim(s), j) by {
        lemma_delimiter_in_context(x, trim(s), z, j);
        assert(!is_delimiter(s, start + j));
    }
}

/// A cell as the tokenizer makes it: measured, trimmed and free of delimiters.
pub open spec fn is_tidy(cell: CellView) -> bool {
    &&& cell.wf()
    &&& is_trimmed(cell.content)
    &&& no_delimiter(cell.content)
}

/// `prefix` is made of spaces and blockquote markers only.
pub open spec fn is_indentation(prefix: Seq<char>) -> bool {
    forall|j: int| 0 <= j < prefix.len() ==> is_indent_char(#[trigger] prefix[j])
}

/// Every cell that the tokenizer makes is tidy.
pub proof fn lemma_row_cells_tidy(line: Seq<char>, k: int)
    requires
        0 <= k < row_cells(line).len(),
    ensures
        is_tidy(row_cells(line)[k]),
{
    let rest = strip_indent(line);
    let body = if rest[0] == '|' {
        rest.drop_first()
    } else {
        rest
    };
    lemma_runs_hold_no_delimiter(body);
    let run = row_segments(line)[k];
    assert(run == split_cells(body)[k]);
    lemma_trim_holds_no_delimiter(run);
}

/// A padded cell holds no delimiter, ends with a space, and is trimmed back
/// to its content.
pub proof fn lemma_aligned_cell_roundtrip(
    content: Seq<char>,
    visual_length: nat,
    alignment: Alignment,
    width: nat,
)
    requires
        is_trimmed(content),
        no_delimiter(content),
    ensures
        no_delimiter(aligned_cell(content, visual_length, alignment, width)),
        aligned_cell(content, visual_length, alignment, width).len() >= 2,
        aligned_cell(content, visual_length, alignment, width).last() == ' ',
        trim(aligned_cell(content, visual_length, alignment, width)) == content,
{
    let gap = (width - visual_length) as nat;
    let lead = leading_pad(alignment, gap);
    let trail = (gap - lead) as nat;
    let padded = aligned_cell(content, visual_length, alignment, width);
    let x = repeated(' ', lead + 1);
    let z = repeated(' ', trail + 1);
    assert(padded =~= x + content + z);
    lemma_trim_padded(lead + 1, content, trail + 1);
    assert(ends_plain(x)) by {
        assert(x.last() == ' ');
    }
    assert forall|j: int| 0 <= j < padded.len() implies !is_delimiter(padded, j) by {
        if x.len() <= j < x.len() + content.len() {
            lemma_delimiter_in_context(x, content, z, j - x.len());
        } else {
            assert(padded[j] == ' ');
        }
    }
}

/// Cells that hold no delimiter and end with a space are read back from
/// the text that joins them with vertical bars.
pub proof fn lemma_split_joined(parts: Seq<Seq<char>>)
    requires
        parts.len() >= 1,
        forall|k: int|
            0 <= k < parts.len() ==> no_delimiter(#[trigger] parts[k]) && parts[k].len() > 0
                && parts[k].last() == ' ',
    ensures
        split_cells(join(parts, seq!['|'])) == parts,
        join(parts, seq!['|']).len() > 0,
        join(parts, seq!['|']).last() == ' ',
    decreases parts.len(),
{
    let bar = seq!['|'];
    let last = parts.last();
    let empty = Seq::<char>::empty();
    if parts.len() == 1 {
        assert(join(parts, bar) == last);
        assert(empty + last =~= last);
        assert(split_cells(empty) =~= seq![empty]);
        assert forall|i: int| 0 <= i < last.len() implies !is_delimiter(empty + last, i) by {
            assert(!is_delimiter(last, i));
        }
        lemma_split_cells_append(empty, last);
        assert(split_cells(last) =~= parts);
    } else {
        let init = parts.drop_last();
        assert forall|k: int| 0 <= k < init.len() implies no_delimiter(#[trigger] init[k])
            && init[k].len() > 0 && init[k].last() == ' ' by {
            assert(init[k] == parts[k]);
        }
        lemma_split_joined(init);
        let joined = join(init, bar);
        assert(join(parts, bar) == joined + bar + last);
        let x = joined.push('|');
        assert(x =~= joined + bar);
        lemma_split_cells_bar(joined);
        assert(ends_plain(x)) by {
            assert(x.last() == '|');
        }
        assert forall|i: int| x.len() <= i < x.len() + last.len() implies !is_delimiter(
            x + last,
            i,
        ) by {
            assert(x + last =~= x + last + empty);
            lemma_delimiter_in_context(x, last, empty, i - x.len());
            assert(!is_delimiter(last, i - x.len()));
        }
        lemma_split_cells_append(x, last);
        assert(empty + last =~= last);
        assert(split_cells(x).drop_last() =~= init);
        assert(init.push(last) =~= parts);
    }
}

/// The indentation of a line that begins with spaces and blockquote markers
/// and goes on with another character is what stands before that character.
pub proof fn lemma_indent_len_prefix(prefix: Seq<char>, rest: Seq<char>)
    requires
        is_indentation(prefix),
        rest.len() == 0 || !is_indent_char(rest[0]),
    ensures
        indent_len(prefix + rest) == prefix.len(),
    decreases prefix.len(),
{
    let line = prefix + rest;
    if prefix.len() == 0 {
        assert(line =~= rest);
    } else {
        assert(line[0] == prefix[0]);
        assert(line.drop_first() =~= prefix.drop_first() + rest);
        assert forall|j: int| 0 <= j < prefix.drop_first().len() implies is_indent_char(
            #[trigger] prefix.drop_first()[j],
        ) by {
            assert(prefix.drop_first()[j] == prefix[j + 1]);
        }
        lemma_indent_len_prefix(prefix.drop_first(), rest);
    }
}

/// The indentation of a line is made of spaces and blockquote markers only.
pub proof fn lemma_indentation_is_indentation(line: Seq<char>)
    ensures
        is_indentation(indentation(line)),
        indent_len(line) <= line.len(),
    decreases line.len(),
{
    lemma_indent_len_bound(line);
    if line.len() > 0 && is_indent_char(line[0]) {
        let rest = line.drop_first();
        lemma_indentation_is_indentation(rest);
        assert forall|j: int| 0 <= j < indentation(line).len() implies is_indent_char(
            #[trigger] indentation(line)[j],
        ) by {
            if j > 0 {
                assert(indentation(line)[j] == indentation(rest)[j - 1]);
            }
        }
    }
}

/// A formatted row is read back as the cells it was made of, whatever the
/// alignments and widths it was padded to.
pub proof fn lemma_row_roundtrip(
    prefix: Seq<char>,
    cells: Seq<CellView>,
    alignments: Seq<Alignment>,
    widths: Seq<nat>,
)
    requires
        is_indentation(prefix),
        cells.len() >= 1,
        forall|k: int| 0 <= k < cells.len() ==> is_tidy(#[trigger] cells[k]),
    ensures
        row_cells(framed(prefix, aligned_cells(cells, alignments, widths))) == cells,
{
    let bar = seq!['|'];
    let padded = aligned_cells(cells, alignments, widths);
    let line = framed(prefix, padded);
    assert forall|k: int| 0 <= k < padded.len() implies no_delimiter(#[trigger] padded[k])
        && padded[k].len() > 0 && padded[k].last() == ' ' && trim(padded[k])
        == cells[k].content by {
        assert(is_tidy(cells[k]));
        lemma_aligned_cell_roundtrip(
            cells[k].content,
            cells[k].visual_length,
            target_alignment(alignments, k),
            target_width(widths, cells[k], k),
        );
    }
    lemma_split_joined(padded);
    let joined = join(padded, bar);
    let rest = bar + joined + bar;
    assert(line =~= prefix + rest);
    lemma_indent_len_prefix(prefix, rest);
    assert(strip_indent(line) =~= rest);
    let body = joined.push('|');
    assert(rest.drop_first() =~= body);
    lemma_split_cells_bar(joined);
    assert(split_cells(body).drop_last() =~= padded);
    assert(row_segments(line) == padded);
    assert forall|k: int| 0 <= k < cells.len() implies row_cells(line)[k] == cells[k] by {
        assert(is_tidy(cells[k]));
        assert(trim(padded[k]) == cells[k].content);
    }
    assert(row_cells(line) =~= cells);
}

/// `s` holds no line feed.
pub open spec fn has_no_line_feed(s: Seq<char>) -> bool {
    forall|j: int| 0 <= j < s.len() ==> #[trigger] s[j] != '\n'
}

/// `s` can stand as a line of a text whatever follows it: it is not empty,
/// holds no line feed and does not end with a carriage return.
pub open spec fn is_whole_line(s: Seq<char>) -> bool {
    s.len() > 0 && has_no_line_feed(s) && s.last() != '\r'
}

/// The first line feed of a text is where its first line ends.
pub proof fn lemma_line_end_is(s: Seq<char>, p: int)
    requires
        0 <= p <= s.len(),
        forall|j: int| 0 <= j < p ==> #[trigger] s[j] != '\n',
        p < s.len() ==> s[p] == '\n',
    ensures
        line_end(s) == p,
{
    lemma_line_end_bound(s);
}

/// Joining puts the first part and the separator before what the other
/// parts are joined to.
pub proof fn lemma_join_front(parts: Seq<Seq<char>>, sep: Seq<char>)
    requires
        parts.len() >= 2,
    ensures
        join(parts, sep) == parts[0] + sep + join(parts.drop_first(), sep),
    decreases parts.len(),
{
    let init = parts.drop_last();
    let tail = parts.drop_first();
    if parts.len() == 2 {
        assert(join(init, sep) == parts[0]);
        assert(join(tail, sep) == parts[1]);
    } else {
        lemma_join_front(init, sep);
        assert(init.drop_first() =~= tail.drop_last());
        assert(init[0] == parts[0]);
        assert(tail.last() == parts.last());
        assert(join(parts, sep) =~= parts[0] + sep + join(tail, sep));
    }
}

/// Lines that are joined by a line ending are the lines of the joined text.
pub proof fn lemma_split_lines_joined(lines: Seq<Seq<char>>, crlf: bool)
    requires
        lines.len() >= 1,
        forall|k: int| 0 <= k < lines.len() ==> is_whole_line(#[trigger] lines[k]),
    ensures
        split_lines(join(lines, terminator(crlf))) == lines,
        join(lines, terminator(crlf)).len() > 0,
    decreases lines.len(),
{
    let term = terminator(crlf);
    let text = join(lines, term);
    let first = lines[0];
    assert(is_whole_line(first));
    if lines.len() == 1 {
        lemma_line_end_is(text, text.len() as int);
        assert(split_lines(text) =~= lines);
    } else {
        let tail = lines.drop_first();
        assert forall|k: int| 0 <= k < tail.len() implies is_whole_line(#[trigger] tail[k]) by {
            assert(tail[k] == lines[k + 1]);
        }
        lemma_split_lines_joined(tail, crlf);
        lemma_join_front(lines, term);
        let rest = join(tail, term);
        let end = first.len() + term.len() - 1;
        assert(text =~= first + term + rest);
        assert forall|j: int| 0 <= j < end implies #[trigger] text[j] != '\n' by {
            if j < first.len() {
                assert(text[j] == first[j]);
            }
        }
        lemma_line_end_is(text, end);
        assert(strip_cr(text.take(end)) =~= first) by {
            if crlf {
                assert(text.take(end).last() == '\r');
                assert(text.take(end).drop_last() =~= first);
            } else {
                assert(text.take(end) =~= first);
            }
        }
        assert(text.skip(end + 1) =~= rest);
        assert(seq![first] + tail =~= lines);
    }
}

/// The line ending that joins the lines of a formatted table.
pub open spec fn terminator(crlf: bool) -> Seq<char> {
    if crlf {
        seq!['\r', '\n']
    } else {
        seq!['\n']
    }
}

/// Lines joined by line feeds hold no carriage return before a line feed.
pub proof fn lemma_joined_without_crlf(lines: Seq<Seq<char>>)
    requires
        lines.len() >= 1,
        forall|k: int| 0 <= k < lines.len() ==> is_whole_line(#[trigger] lines[k]),
    ensures
        !contains_crlf(join(lines, terminator(false))),
        join(lines, terminator(false)).len() > 0,
        join(lines, terminator(false)).last() != '\r',
    decreases lines.len(),
{
    let term = terminator(false);
    let text = join(lines, term);
    let last = lines.last();
    assert(is_whole_line(last));
    if lines.len() == 1 {
        assert forall|i: int| !crlf_at(text, i) by {
            if 0 <= i < text.len() - 1 {
                assert(text[i + 1] != '\n');
            }
        }
    } else {
        let init = lines.drop_last();
        assert forall|k: int| 0 <= k < init.len() implies is_whole_line(#[trigger] init[k]) by {
            assert(init[k] == lines[k]);
        }
        lemma_joined_without_crlf(init);
        let before = join(init, term);
        assert(text =~= before + term + last);
        assert forall|i: int| !crlf_at(text, i) by {
            if 0 <= i < text.len() - 1 {
                if i + 1 < before.len() {
                    assert(!crlf_at(before, i));
                    assert(text[i] == before[i] && text[i + 1] == before[i + 1]);
                } else if i + 1 == before.len() {
                    assert(text[i] == before.last());
                } else if i == before.len() {
                    assert(text[i] == '\n');
                } else {
                    assert(text[i + 1] == last[i - before.len()]);
                }
            }
        }
        assert(text.last() == last.last());
    }
}

/// Two lines or more joined by `"\r\n"` hold that sequence.
pub proof fn lemma_joined_with_crlf(lines: Seq<Seq<char>>)
    requires
        lines.len() >= 2,
    ensures
        contains_crlf(join(lines, terminator(true))),
{
    let term = terminator(true);
    lemma_join_front(lines, term);
    let text = join(lines, term);
    let at = lines[0].len() as int;
    assert(text =~= lines[0] + term + join(lines.drop_first(), term));
    assert(text[at] == '\r');
    assert(text[at + 1] == '\n');
    assert(crlf_at(text, at));
}

/// No line of a text holds a line feed.
pub proof fn lemma_lines_hold_no_line_feed(text: Seq<char>)
    ensures
        forall|k: int|
            0 <= k < split_lines(text).len() ==> has_no_line_feed(#[trigger] split_lines(text)[k]),
    decreases text.len(),
{
    if text.len() > 0 {
        lemma_line_end_bound(text);
        let end = line_end(text) as int;
        if end < text.len() {
            let rest = text.skip(end + 1);
            lemma_lines_hold_no_line_feed(rest);
            let first = strip_cr(text.take(end));
            assert(has_no_line_feed(first)) by {
                assert forall|j: int| 0 <= j < first.len() implies #[trigger] first[j] != '\n' by {
                    assert(first[j] == text[j]);
                }
            }
            assert forall|k: int| 0 <= k < split_lines(text).len() implies has_no_line_feed(
                #[trigger] split_lines(text)[k],
            ) by {
                if k > 0 {
                    assert(split_lines(text)[k] == split_lines(rest)[k - 1]);
                }
            }
        }
    }
}

/// The cells of a text without line feed hold no line feed.
pub proof fn lemma_runs_hold_no_line_feed(body: Seq<char>)
    requires
        has_no_line_feed(body),
    ensures
        forall|k: int|
            0 <= k < split_cells(body).len() ==> has_no_line_feed(#[trigger] split_cells(body)[k]),
    decreases body.len(),
{
    if body.len() > 0 {
        let init = body.drop_last();
        assert forall|j: int| 0 <= j < init.len() implies #[trigger] init[j] != '\n' by {
            assert(init[j] == body[j]);
        }
        lemma_runs_hold_no_line_feed(init);
        lemma_split_cells_nonempty(init);
        let runs = split_cells(init);
        assert(body.last() == body[body.len() - 1]);
        assert forall|k: int| 0 <= k < split_cells(body).len() implies has_no_line_feed(
            #[trigger] split_cells(body)[k],
        ) by {
            if k < runs.len() - 1 {
                assert(split_cells(body)[k] == runs[k]);
            } else if k == runs.len() - 1 && !is_delimiter(body, body.len() - 1) {
                assert(has_no_line_feed(runs[k]));
                assert forall|j: int| 0 <= j < split_cells(body)[k].len() implies #[trigger]
                    split_cells(body)[k][j] != '\n' by {
                    if j < runs[k].len() {
                        assert(split_cells(body)[k][j] == runs[k][j]);
                    }
                }
            } else if k == runs.len() - 1 {
                assert(split_cells(body)[k] == runs[k]);
            }
        }
    }
}

/// The cells of a line without line feed hold no line feed.
pub proof fn lemma_row_cells_hold_no_line_feed(line: Seq<char>, k: int)
    requires
        has_no_line_feed(line),
        0 <= k < row_cells(line).len(),
    ensures
        has_no_line_feed(row_cells(line)[k].content),
{
    lemma_indent_len_bound(line);
    let rest = strip_indent(line);
    assert forall|j: int| 0 <= j < rest.len() implies #[trigger] rest[j] != '\n' by {
        assert(rest[j] == line[indent_len(line) + j]);
    }
    let body = if rest[0] == '|' {
        rest.drop_first()
    } else {
        rest
    };
    assert forall|j: int| 0 <= j < body.len() implies #[trigger] body[j] != '\n' by {
        if rest[0] == '|' {
            assert(body[j] == rest[j + 1]);
        }
    }
    lemma_runs_hold_no_line_feed(body);
    let run = row_segments(line)[k];
    assert(run == split_cells(body)[k]);
    lemma_trim_is_part(run);
    let content = trim(run);
    assert forall|j: int| 0 <= j < content.len() implies #[trigger] content[j] != '\n' by {
        assert(content[j] == run[leading_whitespace(run) + j]);
    }
}

/// Parts without line feed, joined by vertical bars, hold no line feed.
pub proof fn lemma_joined_holds_no_line_feed(parts: Seq<Seq<char>>)
    requires
        forall|k: int| 0 <= k < parts.len() ==> has_no_line_feed(#[trigger] parts[k]),
    ensures
        has_no_line_feed(join(parts, seq!['|'])),
    decreases parts.len(),
{
    if parts.len() >= 2 {
        let init = parts.drop_last();
        assert forall|k: int| 0 <= k < init.len() implies has_no_line_feed(#[trigger] init[k]) by {
            assert(init[k] == parts[k]);
        }
        lemma_joined_holds_no_line_feed(init);
        assert(has_no_line_feed(parts.last()));
        let joined = join(parts, seq!['|']);
        let before = join(init, seq!['|']);
        assert forall|j: int| 0 <= j < joined.len() implies #[trigger] joined[j] != '\n' by {
            if j < before.len() {
                assert(joined[j] == before[j]);
            } else if j > before.len() {
                assert(joined[j] == parts.last()[j - before.len() - 1]);
            }
        }
    } else if parts.len() == 1 {
        assert(has_no_line_feed(parts[0]));
    }
}

/// A row made of an indentation and of cells without line feed can stand
/// as a line.
pub proof fn lemma_framed_is_whole_line(prefix: Seq<char>, cells: Seq<Seq<char>>)
    requires
        is_indentation(prefix),
        forall|k: int| 0 <= k < cells.len() ==> has_no_line_feed(#[trigger] cells[k]),
    ensures
        is_whole_line(framed(prefix, cells)),
{
    lemma_joined_holds_no_line_feed(cells);
    let joined = join(cells, seq!['|']);
    let line = framed(prefix, cells);
    assert forall|j: int| 0 <= j < line.len() implies #[trigger] line[j] != '\n' by {
        if j < prefix.len() {
            assert(line[j] == prefix[j]);
            assert(is_indent_char(prefix[j]));
        } else if prefix.len() < j < line.len() - 1 {
            assert(line[j] == joined[j - prefix.len() - 1]);
        }
    }
    assert(line.last() == '|');
}

/// Every line of the formatted table can stand as a line: none is empty,
/// holds a line feed or ends with a carriage return.
pub proof fn lemma_formatted_lines_are_whole(text: Seq<char>, alignments: Seq<Alignment>)
    requires
        split_lines(text).len() >= 2,
    ensures
        forall|n: int|
            0 <= n < formatted_lines(text, alignments).len() ==> is_whole_line(
                #[trigger] formatted_lines(text, alignments)[n],
            ),
{
    let lines = split_lines(text);
    let rows = content_rows(text);
    let widths = column_widths(rows, alignments);
    let prefix = table_indentation(text);
    let formatted = formatted_lines(text, alignments);
    lemma_indentation_is_indentation(lines[0]);
    lemma_lines_hold_no_line_feed(text);
    assert forall|n: int| 0 <= n < formatted.len() implies is_whole_line(#[trigger] formatted[n]) by {
        if n == 1 {
            let cells = delimiter_cells(alignments, widths);
            assert forall|k: int| 0 <= k < cells.len() implies has_no_line_feed(
                #[trigger] cells[k],
            ) by {
                assert(cells[k] == delimiter_cell(alignments[k], widths[k]));
            }
            lemma_framed_is_whole_line(prefix, cells);
        } else {
            let r = if n == 0 {
                0
            } else {
                n - 1
            };
            let row = rows[r];
            let line = content_lines(text)[r];
            assert(row == row_cells(line));
            assert(line == lines[if r == 0 {
                0
            } else {
                r + 1
            }]);
            let cells = aligned_cells(row, alignments, widths);
            assert forall|k: int| 0 <= k < cells.len() implies has_no_line_feed(
                #[trigger] cells[k],
            ) by {
                lemma_row_cells_hold_no_line_feed(line, k);
                let gap = (target_width(widths, row[k], k) - row[k].visual_length) as nat;
                let lead = leading_pad(target_alignment(alignments, k), gap);
                assert forall|j: int| 0 <= j < cells[k].len() implies #[trigger] cells[k][j]
                    != '\n' by {
                    if 1 + lead <= j < 1 + lead + row[k].content.len() {
                        assert(cells[k][j] == row[k].content[j - 1 - lead]);
                    }
                }
            }
            lemma_framed_is_whole_line(prefix, cells);
        }
    }
}

/// The formatted table has the lines it was put together from, one for
/// every line of the table, and the line ending of the table: it holds
/// `"\r\n"` just if the table does.
pub proof fn lemma_formatted_table_lines(text: Seq<char>, alignments: Seq<Alignment>)
    requires
        split_lines(text).len() >= 2,
    ensures
        split_lines(formatted_table(text, alignments)) == formatted_lines(text, alignments),
        split_lines(formatted_table(text, alignments)).len() == split_lines(text).len(),
        contains_crlf(formatted_table(text, alignments)) == contains_crlf(text),
        line_terminator(formatted_table(text, alignments)) == line_terminator(text),
{
    let crlf = contains_crlf(text);
    let formatted = formatted_lines(text, alignments);
    assert(line_terminator(text) == terminator(crlf));
    lemma_formatted_lines_are_whole(text, alignments);
    lemma_split_lines_joined(formatted, crlf);
    if crlf {
        lemma_joined_with_crlf(formatted);
    } else {
        lemma_joined_without_crlf(formatted);
    }
}

/// Formatting a formatted table changes nothing, as long as every content
/// row of the table holds a cell. A row holds none where nothing, or a
/// single bar, follows its indentation: such a row is written as two bars,
/// which are read back as one empty cell.
pub proof fn lemma_format_table_idempotent(text: Seq<char>, alignments: Seq<Alignment>)
    requires
        split_lines(text).len() >= 2,
        forall|r: int|
            0 <= r < content_rows(text).len() ==> (#[trigger] content_rows(text)[r]).len() >= 1,
    ensures
        formatted_table(formatted_table(text, alignments), alignments) == formatted_table(
            text,
            alignments,
        ),
{
    let lines = split_lines(text);
    let rows = content_rows(text);
    let widths = column_widths(rows, alignments);
    let prefix = table_indentation(text);
    let formatted = formatted_lines(text, alignments);
    let out = formatted_table(text, alignments);
    lemma_indentation_is_indentation(lines[0]);
    lemma_formatted_table_lines(text, alignments);

    // The cells of the table are tidy.
    assert forall|r: int, k: int| 0 <= r < rows.len() && 0 <= k < rows[r].len() implies is_tidy(
        #[trigger] rows[r][k],
    ) by {
        let line = content_lines(text)[r];
        assert(rows[r] == row_cells(line));
        lemma_row_cells_tidy(line, k);
    }

    // The indentation of the formatted table is that of the table.
    let first = formatted[0];
    let after = seq!['|'] + join(aligned_cells(rows[0], alignments, widths), seq!['|']) + seq!['|'];
    assert(first =~= prefix + after);
    lemma_indent_len_prefix(prefix, after);
    assert(indentation(first) =~= prefix);
    assert(table_indentation(out) == prefix);

    // Its content rows are read back cell by cell.
    assert forall|r: int| 0 <= r < rows.len() implies #[trigger] content_rows(out)[r] == rows[r] by {
        let n = if r == 0 {
            0
        } else {
            r + 1
        };
        assert(content_lines(out)[r] == formatted[n]);
        assert(formatted[n] == framed(prefix, aligned_cells(rows[r], alignments, widths)));
        assert forall|k: int| 0 <= k < rows[r].len() implies is_tidy(#[trigger] rows[r][k]) by {}
        lemma_row_roundtrip(prefix, rows[r], alignments, widths);
    }
    assert(content_rows(out) =~= rows);
    assert(formatted_lines(out, alignments) =~= formatted);
}

/// `text` is a table as the formatter writes it for the given alignments:
/// the formatted form of a table of two lines or more whose content rows
/// hold a cell each.
pub open spec fn is_formatted(text: Seq<char>, alignments: Seq<Alignment>) -> bool {
    exists|table: Seq<char>| #[trigger]
        formatted_table(table, alignments) == text && split_lines(table).len() >= 2 && forall|
            r: int,
        |
            0 <= r < content_rows(table).len() ==> (#[trigger] content_rows(table)[r]).len() >= 1
}

/// A document in which every table is as the formatter writes it is left
/// as it is. So formatting a formatted document changes nothing, where the
/// tables found in it are the formatted tables, with their alignments.
pub proof fn lemma_formatted_tables_are_kept(doc: Seq<char>, tables: Seq<TableView>)
    requires
        forall|k: int|
            0 <= k < tables.len() ==> is_formatted(
                (#[trigger] tables[k]).text,
                tables[k].alignments,
            ),
    ensures
        formatted_document(doc, tables) == doc,
{
    assert forall|k: int| 0 <= k < tables.len() implies formatted_table(
        (#[trigger] tables[k]).text,
        tables[k].alignments,
    ) == tables[k].text by {
        let alignments = tables[k].alignments;
        assert(is_formatted(tables[k].text, alignments));
        let table = choose|table: Seq<char>| #[trigger]
            formatted_table(table, alignments) == tables[k].text && split_lines(table).len() >= 2
                && forall|r: int|
                0 <= r < content_rows(table).len() ==> (#[trigger] content_rows(table)[r]).len()
                    >= 1;
        lemma_format_table_idempotent(table, alignments);
    }
    lemma_formatted_document_is_kept(doc, tables);
}

} // verus!
