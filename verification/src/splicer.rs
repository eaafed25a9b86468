//! Replacement of every table of a document by its formatted form.

use crate::ast::{
    document_outline, found_tables, get_ast, lemma_located_spans_hold_text,
    lemma_table_of_holds_text, locate_tables, located_tables, outline_views, slice_str,
    span_holds_text, table_of, table_views, OutlineNode, OutlineView, TableInDocument, TableView,
};
use crate::lines::{lemma_line_feed_makes_two_lines, lines_of, split_lines};
use crate::span::{
    begins_line, lemma_span_ends_before, lemma_span_of_lines, span_end, LINE_FEED,
};
use crate::table_formatter::{format_table, formatted_table};
use crate::text::to_chars;
use vstd::prelude::*;
use vstd::string::{StringExecFns, StringSliceAdditionalSpecFns};
use vstd::utf8::*;

verus! {

/// Where the text between table `k` and the table before it begins: at the
/// end of that table, or at the start of the document.
pub open spec fn span_cursor(tables: Seq<TableView>, k: int) -> int {
    if k <= 0 {
        0
    } else {
        tables[k - 1].end
    }
}

/// Table `k` can be replaced: it begins where the table before it has ended
/// or later, its span holds its text, and it has a header and a delimiter row.
pub open spec fn span_usable(bytes: Seq<u8>, tables: Seq<TableView>, k: int) -> bool {
    &&& span_cursor(tables, k) <= tables[k].start
    &&& span_holds_text(bytes, tables[k])
    &&& split_lines(tables[k].text).len() >= 2
}

/// The tables come in document order, do not overlap, and each can be replaced.
pub open spec fn spans_usable(bytes: Seq<u8>, tables: Seq<TableView>) -> bool {
    forall|k: int| 0 <= k < tables.len() ==> span_usable(bytes, tables, k)
}

/// The document up to the end of table `k - 1`, with each table replaced by
/// its formatted form and the text before and between them as it was.
pub open spec fn spliced_upto(bytes: Seq<u8>, tables: Seq<TableView>, k: int) -> Seq<char>
    decreases k,
{
    if k <= 0 {
        Seq::<char>::empty()
    } else {
        spliced_upto(bytes, tables, k - 1) + decode_utf8(
            bytes.subrange(span_cursor(tables, k - 1), tables[k - 1].start),
        ) + formatted_table(tables[k - 1].text, tables[k - 1].alignments)
    }
}

/// The whole document with each table replaced by its formatted form.
pub open spec fn spliced(bytes: Seq<u8>, tables: Seq<TableView>) -> Seq<char> {
    spliced_upto(bytes, tables, tables.len() as int) + decode_utf8(
        bytes.subrange(span_cursor(tables, tables.len() as int), bytes.len() as int),
    )
}

/// The formatted document: every table replaced, or the document as it was
/// where the tables cannot be replaced one after the other.
pub open spec fn formatted_document(doc: Seq<char>, tables: Seq<TableView>) -> Seq<char> {
    if spans_usable(encode_utf8(doc), tables) {
        spliced(encode_utf8(doc), tables)
    } else {
        doc
    }
}

/// The document up to the end of table `k - 1`, put together from the text
/// before and between the tables and from the text of the tables.
pub open spec fn document_upto(bytes: Seq<u8>, tables: Seq<TableView>, k: int) -> Seq<char>
    decreases k,
{
    if k <= 0 {
        Seq::<char>::empty()
    } else {
        document_upto(bytes, tables, k - 1) + decode_utf8(
            bytes.subrange(span_cursor(tables, k - 1), tables[k - 1].start),
        ) + tables[k - 1].text
    }
}

/// A text that is cut where a character begins is its two parts, one
/// behind the other.
pub proof fn lemma_decode_in_two(bytes: Seq<u8>, a: int, b: int)
    requires
        valid_utf8(bytes),
        0 <= a <= b <= bytes.len(),
        is_char_boundary(bytes, a),
        is_char_boundary(bytes, b),
    ensures
        decode_utf8(bytes.subrange(0, b)) == decode_utf8(bytes.subrange(0, a)) + decode_utf8(
            bytes.subrange(a, b),
        ),
{
    let head = bytes.subrange(0, b);
    valid_utf8_split(bytes, b);
    if a < b {
        is_char_boundary_iff_not_is_continuation_byte(bytes, a);
        is_char_boundary_iff_not_is_continuation_byte(head, a);
    } else {
        is_char_boundary_start_end_of_seq(head);
    }
    decode_utf8_split(head, a);
    assert(head.subrange(0, a) =~= bytes.subrange(0, a));
    assert(head.subrange(a, head.len() as int) =~= bytes.subrange(a, b));
}

/// The document is made of the text before and between its tables, of the
/// text of its tables and of the text behind the last of them. The
/// formatted document is made of the same text around the tables, in the
/// same places: nothing outside of a table changes.
pub proof fn lemma_text_around_tables_is_kept(bytes: Seq<u8>, tables: Seq<TableView>, k: int)
    requires
        valid_utf8(bytes),
        spans_usable(bytes, tables),
        0 <= k <= tables.len(),
    ensures
        0 <= span_cursor(tables, k) <= bytes.len(),
        is_char_boundary(bytes, span_cursor(tables, k)),
        decode_utf8(bytes.subrange(0, span_cursor(tables, k))) == document_upto(bytes, tables, k),
        decode_utf8(bytes) == document_upto(bytes, tables, k) + decode_utf8(
            bytes.subrange(span_cursor(tables, k), bytes.len() as int),
        ),
    decreases k,
{
    is_char_boundary_start_end_of_seq(bytes);
    if k > 0 {
        lemma_text_around_tables_is_kept(bytes, tables, k - 1);
        let table = tables[k - 1];
        assert(span_usable(bytes, tables, k - 1));
        let cursor = span_cursor(tables, k - 1);
        lemma_decode_in_two(bytes, cursor, table.start);
        lemma_decode_in_two(bytes, table.start, table.end);
        encode_utf8_decode_utf8(table.text);
    } else {
        assert(bytes.subrange(0, 0) =~= Seq::<u8>::empty());
    }
    lemma_decode_in_two(bytes, span_cursor(tables, k), bytes.len() as int);
    assert(bytes.subrange(0, bytes.len() as int) =~= bytes);
}

/// The bytes of the formatted document up to the end of table `k - 1`: the
/// bytes of the document before and between the tables, and the bytes of
/// the formatted tables.
pub open spec fn spliced_bytes_upto(bytes: Seq<u8>, tables: Seq<TableView>, k: int) -> Seq<u8>
    decreases k,
{
    if k <= 0 {
        Seq::<u8>::empty()
    } else {
        spliced_bytes_upto(bytes, tables, k - 1) + bytes.subrange(
            span_cursor(tables, k - 1),
            tables[k - 1].start,
        ) + encode_utf8(formatted_table(tables[k - 1].text, tables[k - 1].alignments))
    }
}

/// The bytes of two texts, one behind the other, are the bytes of the one
/// followed by those of the other.
pub proof fn lemma_encode_in_two(a: Seq<char>, b: Seq<char>)
    ensures
        encode_utf8(a + b) == encode_utf8(a) + encode_utf8(b),
    decreases a.len(),
{
    if a.len() == 0 {
        assert(a + b =~= b);
        assert(encode_utf8(a) + encode_utf8(b) =~= encode_utf8(b));
    } else {
        lemma_encode_in_two(a.drop_first(), b);
        assert((a + b).drop_first() =~= a.drop_first() + b);
        assert((a + b)[0] == a[0]);
        assert(encode_utf8(a + b) =~= encode_utf8(a) + encode_utf8(b));
    }
}

/// The part of a document between two positions where a character begins
/// is decoded to the text that has those bytes.
pub proof fn lemma_part_keeps_bytes(bytes: Seq<u8>, a: int, b: int)
    requires
        valid_utf8(bytes),
        0 <= a <= b <= bytes.len(),
        is_char_boundary(bytes, a),
        is_char_boundary(bytes, b),
    ensures
        encode_utf8(decode_utf8(bytes.subrange(a, b))) == bytes.subrange(a, b),
{
    let head = bytes.subrange(0, b);
    valid_utf8_split(bytes, b);
    if a < b {
        is_char_boundary_iff_not_is_continuation_byte(bytes, a);
        is_char_boundary_iff_not_is_continuation_byte(head, a);
    } else {
        is_char_boundary_start_end_of_seq(head);
    }
    valid_utf8_split(head, a);
    assert(head.subrange(a, head.len() as int) =~= bytes.subrange(a, b));
    decode_utf8_encode_utf8(bytes.subrange(a, b));
}

/// Outside of the tables the formatted document has the bytes of the
/// document, byte for byte and in the same order: its bytes are those
/// before the first table, the bytes of the first formatted table, those
/// between the first table and the second, and so on to the bytes behind
/// the last table.
pub proof fn lemma_bytes_around_tables_are_kept(bytes: Seq<u8>, tables: Seq<TableView>, k: int)
    requires
        valid_utf8(bytes),
        spans_usable(bytes, tables),
        0 <= k <= tables.len(),
    ensures
        encode_utf8(spliced_upto(bytes, tables, k)) == spliced_bytes_upto(bytes, tables, k),
        k == tables.len() ==> encode_utf8(spliced(bytes, tables)) == spliced_bytes_upto(
            bytes,
            tables,
            k,
        ) + bytes.subrange(span_cursor(tables, k), bytes.len() as int),
    decreases k,
{
    lemma_text_around_tables_is_kept(bytes, tables, k);
    is_char_boundary_start_end_of_seq(bytes);
    if k > 0 {
        lemma_bytes_around_tables_are_kept(bytes, tables, k - 1);
        lemma_text_around_tables_is_kept(bytes, tables, k - 1);
        let table = tables[k - 1];
        assert(span_usable(bytes, tables, k - 1));
        let cursor = span_cursor(tables, k - 1);
        let between = decode_utf8(bytes.subrange(cursor, table.start));
        let written = formatted_table(table.text, table.alignments);
        lemma_part_keeps_bytes(bytes, cursor, table.start);
        lemma_encode_in_two(spliced_upto(bytes, tables, k - 1), between);
        lemma_encode_in_two(spliced_upto(bytes, tables, k - 1) + between, written);
    }
    if k == tables.len() {
        let cursor = span_cursor(tables, k);
        lemma_part_keeps_bytes(bytes, cursor, bytes.len() as int);
        lemma_encode_in_two(
            spliced_upto(bytes, tables, k),
            decode_utf8(bytes.subrange(cursor, bytes.len() as int)),
        );
    }
}

/// In a document whose tables are all formatted already, formatting
/// changes nothing.
pub proof fn lemma_formatted_document_is_kept(doc: Seq<char>, tables: Seq<TableView>)
    requires
        forall|k: int|
            0 <= k < tables.len() ==> formatted_table(
                (#[trigger] tables[k]).text,
                tables[k].alignments,
            ) == tables[k].text,
    ensures
        formatted_document(doc, tables) == doc,
{
    let bytes = encode_utf8(doc);
    if spans_usable(bytes, tables) {
        encode_utf8_valid_utf8(doc);
        encode_utf8_decode_utf8(doc);
        lemma_text_around_tables_is_kept(bytes, tables, tables.len() as int);
        lemma_spliced_as_document(bytes, tables, tables.len() as int);
    }
}

/// Where the tables are formatted already, the formatted document and the
/// document are made of the same text.
proof fn lemma_spliced_as_document(bytes: Seq<u8>, tables: Seq<TableView>, k: int)
    requires
        0 <= k <= tables.len(),
        forall|j: int|
            0 <= j < tables.len() ==> formatted_table(
                (#[trigger] tables[j]).text,
                tables[j].alignments,
            ) == tables[j].text,
    ensures
        spliced_upto(bytes, tables, k) == document_upto(bytes, tables, k),
    decreases k,
{
    if k > 0 {
        lemma_spliced_as_document(bytes, tables, k - 1);
    }
}

/// A document without tables is left as it is.
pub proof fn lemma_document_without_tables_is_kept(doc: Seq<char>)
    ensures
        formatted_document(doc, Seq::<TableView>::empty()) == doc,
{
    lemma_formatted_document_is_kept(doc, Seq::<TableView>::empty());
}

/// The text of a span that holds a line feed, with something behind it,
/// has two lines at least.
pub proof fn lemma_span_has_two_lines(bytes: Seq<u8>, at: int)
    requires
        valid_utf8(bytes),
        0 <= at,
        at + 1 < bytes.len(),
        bytes[at] == LINE_FEED,
    ensures
        split_lines(decode_utf8(bytes)).len() >= 2,
{
    is_char_boundary_iff_not_is_continuation_byte(bytes, at);
    valid_utf8_split(bytes, at);
    decode_utf8_split(bytes, at);
    let head = bytes.subrange(0, at);
    let tail = bytes.subrange(at, bytes.len() as int);
    assert(tail[0] == LINE_FEED);
    let rest = pop_first_scalar(tail);
    assert(rest.len() == tail.len() - 1);
    assert(decode_first_scalar(tail) == 10u32) by {
        assert(10u8 & 0x7f == 10u8) by (bit_vector);
    }
    char_u32_cast('\n', 10u32);
    assert(decode_utf8(tail) == seq!['\n'] + decode_utf8(rest));
    assert(decode_utf8(rest).len() >= 1);
    let text = decode_utf8(bytes);
    assert(text == decode_utf8(head) + (seq!['\n'] + decode_utf8(rest)));
    lemma_line_feed_makes_two_lines(text, decode_utf8(head).len() as int);
}

/// Table `k` begins where the table before it has ended or later, and has
/// a header and a delimiter row.
pub open spec fn span_follows(tables: Seq<TableView>, k: int) -> bool {
    span_cursor(tables, k) <= tables[k].start && split_lines(tables[k].text).len() >= 2
}

/// The tables that are located in a document can be replaced unless one of
/// them begins before the end of the one before it, or has less than two
/// lines: their spans always lie within the document and hold their text.
pub proof fn lemma_located_spans_usable(doc: Seq<char>, outline: Seq<OutlineView>)
    ensures
        spans_usable(encode_utf8(doc), located_tables(doc, outline)) == (forall|k: int|
            0 <= k < located_tables(doc, outline).len() ==> #[trigger] span_follows(
                located_tables(doc, outline),
                k,
            )),
{
    let bytes = encode_utf8(doc);
    let tables = located_tables(doc, outline);
    if spans_usable(bytes, tables) {
        assert forall|k: int| 0 <= k < tables.len() implies #[trigger] span_follows(tables, k) by {
            assert(span_usable(bytes, tables, k));
        }
    }
    if forall|k: int| 0 <= k < tables.len() ==> #[trigger] span_follows(tables, k) {
        assert forall|k: int| 0 <= k < tables.len() implies span_usable(bytes, tables, k) by {
            assert(span_follows(tables, k));
            lemma_located_spans_hold_text(doc, outline, k);
        }
    }
}

/// The node of the `k`-th table that the search finds.
pub open spec fn found_node(outline: Seq<OutlineView>, k: int) -> OutlineView {
    outline[found_tables(outline, outline.len() as int)[k]]
}

/// The lines that a table node names are lines of the document: the table
/// ends on a later line than it begins on, its first line is not empty,
/// and its last line holds more than a carriage return.
pub open spec fn stands_on_lines(bytes: Seq<u8>, node: OutlineView) -> bool {
    &&& node.first_line < node.last_line
    &&& exists|i: int| begins_line(bytes, i, node.first_line)
    &&& exists|j: int| #[trigger]
        begins_line(bytes, j, node.last_line) && j < span_end(bytes, node.last_line)
}

/// The `k`-th table begins on a later line than the table before it ends on.
pub open spec fn stands_behind(outline: Seq<OutlineView>, k: int) -> bool {
    k <= 0 || found_node(outline, k - 1).last_line < found_node(outline, k).first_line
}

/// Every table that the search finds stands on lines of the document, and
/// behind the table found before it.
pub open spec fn tables_stand_apart(bytes: Seq<u8>, outline: Seq<OutlineView>) -> bool {
    forall|k: int|
        0 <= k < found_tables(outline, outline.len() as int).len() ==> stands_on_lines(
            bytes,
            #[trigger] found_node(outline, k),
        ) && stands_behind(outline, k)
}

/// Where the syntax tree names, for every table it holds, lines of the
/// document that hold text, the first before the last, and names the tables
/// one behind the other, every table can be replaced: the document is
/// formatted, not returned as it is.
pub proof fn lemma_tables_on_lines_are_usable(doc: Seq<char>, outline: Seq<OutlineView>)
    requires
        tables_stand_apart(encode_utf8(doc), outline),
    ensures
        spans_usable(encode_utf8(doc), located_tables(doc, outline)),
        formatted_document(doc, located_tables(doc, outline)) == spliced(
            encode_utf8(doc),
            located_tables(doc, outline),
        ),
{
    let bytes = encode_utf8(doc);
    let tables = located_tables(doc, outline);
    encode_utf8_valid_utf8(doc);
    assert forall|k: int| 0 <= k < tables.len() implies span_usable(bytes, tables, k) by {
        let node = found_node(outline, k);
        assert(stands_on_lines(bytes, node) && stands_behind(outline, k));
        assert(tables[k] == table_of(bytes, node));
        lemma_table_of_holds_text(bytes, node);
        let i = choose|i: int| begins_line(bytes, i, node.first_line);
        let j = choose|j: int| #[trigger]
            begins_line(bytes, j, node.last_line) && j < span_end(bytes, node.last_line);
        lemma_span_of_lines(bytes, node.first_line, node.last_line, i, j);
        let end = span_end(bytes, node.last_line);
        let part = bytes.subrange(i, end);
        encode_utf8_valid_utf8(tables[k].text);
        assert(part[j - 1 - i] == bytes[j - 1]);
        lemma_span_has_two_lines(part, j - 1 - i);
        if k > 0 {
            let before = found_node(outline, k - 1);
            assert(stands_on_lines(bytes, before));
            assert(tables[k - 1] == table_of(bytes, before));
            let last = choose|j: int| #[trigger]
                begins_line(bytes, j, before.last_line) && j < span_end(bytes, before.last_line);
            lemma_span_ends_before(bytes, before.last_line, last, node.first_line, i);
        }
    }
}

/// Tells whether the tables can be replaced one after the other.
pub fn spans_are_usable(doc: &str, tables: &Vec<TableInDocument<'_>>) -> (usable: bool)
    requires
        forall|k: int|
            0 <= k < tables@.len() ==> span_holds_text(doc.spec_bytes(), #[trigger] tables@[k]@),
    ensures
        usable == spans_usable(doc.spec_bytes(), table_views(tables@)),
{
    let ghost bytes = doc.spec_bytes();
    let ghost views = table_views(tables@);
    let mut cursor: usize = 0;
    let mut k: usize = 0;
    while k < tables.len()
        invariant
            k <= tables.len(),
            bytes == doc.spec_bytes(),
            views == table_views(tables@),
            cursor == span_cursor(views, k as int),
            forall|j: int|
                0 <= j < tables@.len() ==> span_holds_text(bytes, #[trigger] tables@[j]@),
            forall|j: int| 0 <= j < k ==> span_usable(bytes, views, j),
        decreases tables.len() - k,
    {
        let table = &tables[k];
        assert(views[k as int] == table@);
        let chars = to_chars(table.text);
        let lines = lines_of(&chars);
        if table.range.start < cursor || lines.len() < 2 {
            assert(!span_usable(bytes, views, k as int));
            return false;
        }
        cursor = table.range.end;
        k += 1;
    }
    true
}

/// Replace each table of `doc` by its formatted form. The text before,
/// between and behind the tables is copied as it is.
pub fn splice(doc: &str, tables: &Vec<TableInDocument<'_>>) -> (formatted: String)
    requires
        spans_usable(doc.spec_bytes(), table_views(tables@)),
    ensures
        formatted@ == spliced(doc.spec_bytes(), table_views(tables@)),
{
    let ghost bytes = doc.spec_bytes();
    let ghost views = table_views(tables@);
    proof {
        encode_utf8_valid_utf8(doc@);
        is_char_boundary_start_end_of_seq(bytes);
    }
    let mut formatted = String::new();
    let mut cursor: usize = 0;
    let mut k: usize = 0;
    while k < tables.len()
        invariant
            k <= tables.len(),
            bytes == doc.spec_bytes(),
            views == table_views(tables@),
            valid_utf8(bytes),
            is_char_boundary(bytes, bytes.len() as int),
            spans_usable(bytes, views),
            cursor == span_cursor(views, k as int),
            cursor <= bytes.len(),
            is_char_boundary(bytes, cursor as int),
            formatted@ == spliced_upto(bytes, views, k as int),
        decreases tables.len() - k,
    {
        let table = &tables[k];
        proof {
            assert(views[k as int] == table@);
            assert(span_usable(bytes, views, k as int));
        }
        let before = slice_str(doc, cursor, table.range.start);
        formatted.append(before);
        let replacement = format_table(table);
        formatted.append(replacement.as_str());
        cursor = table.range.end;
        k += 1;
    }
    let rest = slice_str(doc, cursor, doc.as_bytes().len());
    formatted.append(rest);
    formatted
}

/// Format the tables of `doc` that the nodes of its syntax tree point to.
/// Where a table cannot be replaced, because it has no delimiter row or
/// begins before the end of the table before it, the document is returned
/// as it is.
pub fn format_located(doc: &str, nodes: &Vec<OutlineNode>) -> (formatted: String)
    ensures
        formatted@ == formatted_document(doc@, located_tables(doc@, outline_views(nodes@))),
{
    let tables = locate_tables(doc, nodes);
    if spans_are_usable(doc, &tables) {
        splice(doc, &tables)
    } else {
        String::from_str(doc)
    }
}

/// Format every table of `doc`. All text outside of the tables stays as it is.
pub fn format(doc: &str) -> (formatted: String)
    ensures
        formatted@ == formatted_document(doc@, located_tables(doc@, document_outline(doc@))),
{
    let nodes = get_ast(doc);
    format_located(doc, &nodes)
}

} // verus!
