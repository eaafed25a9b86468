//! Location of the tables inside a document.
//!
//! Finding tables is a deceptively hard problem: not every row has a
//! vertical bar in it, and tables can be nested within block quotes as long
//! as the indentation is consistent. The document is therefore parsed by
//! `comrak`, and its syntax tree tells on which lines each table stands. The
//! text of those lines is then taken from the document as it is, so that
//! nothing the parser leaves out of the tree is lost.

use crate::alignment::Alignment;
use crate::span::{get_range_from_lines, lemma_span_bounds, span_end, span_start};
use std::ops::{Range, RangeInclusive};
use vstd::prelude::*;
use vstd::string::StringSliceAdditionalSpecFns;
use vstd::utf8::*;

verus! {

/// `comrak::nodes::Ast`, the data of one node of the syntax tree. Nothing
/// is known of such a value but what the functions below read from it.
#[verifier::external_type_specification]
#[verifier::external_body]
pub struct ExAst(comrak::nodes::Ast);

/// `comrak::nodes::TableAlignment`, the alignment of a column as the parser
/// reports it.
#[verifier::external_type_specification]
#[verifier::external_body]
pub struct ExTableAlignment(comrak::nodes::TableAlignment);

/// What the search for tables has to know of a node of the syntax tree.
#[derive(Clone, Copy, Debug, PartialEq, Eq, Structural)]
pub enum NodeKind {
    /// A block quote: tables may stand inside it.
    BlockQuote,
    /// A table.
    Table,
    /// Anything else: no table is looked for inside it.
    Other,
}

/// One node of a document's syntax tree. The nodes of a tree are listed in
/// document order, each one before its descendants.
#[derive(Clone, Debug, PartialEq, Eq)]
pub struct OutlineNode {
    /// Number of nodes on the path from the root to this node, both included.
    pub depth: usize,
    pub kind: NodeKind,
    /// Line of the node's first character, counted from one.
    pub first_line: usize,
    /// Line of the node's last character, counted from one.
    pub last_line: usize,
    /// The column alignments of a table; empty for any other node.
    pub alignments: Vec<Alignment>,
}

/// What an [`OutlineNode`] stands for.
pub ghost struct OutlineView {
    pub depth: nat,
    pub kind: NodeKind,
    pub first_line: nat,
    pub last_line: nat,
    pub alignments: Seq<Alignment>,
}

impl View for OutlineNode {
    type V = OutlineView;

    open spec fn view(&self) -> OutlineView {
        OutlineView {
            depth: self.depth as nat,
            kind: self.kind,
            first_line: self.first_line as nat,
            last_line: self.last_line as nat,
            alignments: self.alignments@,
        }
    }
}

/// The views of the nodes of an outline.
pub open spec fn outline_views(nodes: Seq<OutlineNode>) -> Seq<OutlineView> {
    Seq::new(nodes.len(), |i: int| nodes[i]@)
}

/// The syntax tree that `comrak::parse_document` builds for `doc`, with the
/// table extension switched on and every other option at its default, as the
/// list of its nodes in document order.
pub uninterp spec fn document_outline(doc: Seq<char>) -> Seq<OutlineView>;

/// Tells a block quote and a table from every other kind of node.
///
/// Trusted: reads the public field `value` of `comrak::nodes::Ast`.
#[verifier::external_body]
fn node_kind(ast: &comrak::nodes::Ast) -> NodeKind {
    match &ast.value {
        comrak::nodes::NodeValue::BlockQuote => NodeKind::BlockQuote,
        comrak::nodes::NodeValue::Table(_) => NodeKind::Table,
        _ => NodeKind::Other,
    }
}

/// The lines on which a node begins and ends.
///
/// Trusted: reads the public field `sourcepos` of `comrak::nodes::Ast`.
#[verifier::external_body]
fn node_lines(ast: &comrak::nodes::Ast) -> (usize, usize) {
    (ast.sourcepos.start.line, ast.sourcepos.end.line)
}

/// The alignments that a table node holds; none for any other node.
///
/// Trusted: reads the public field `value` of `comrak::nodes::Ast`.
#[verifier::external_body]
fn node_alignments(ast: &comrak::nodes::Ast) -> Vec<comrak::nodes::TableAlignment> {
    match &ast.value {
        comrak::nodes::NodeValue::Table(alignments) => alignments.clone(),
        _ => Vec::new(),
    }
}

/// The alignment of this library that stands for one of `comrak`.
///
/// Trusted: tells the four variants of `comrak::nodes::TableAlignment` apart.
#[verifier::external_body]
fn alignment_of(alignment: &comrak::nodes::TableAlignment) -> Alignment {
    match alignment {
        comrak::nodes::TableAlignment::None => Alignment::Unspecified,
        comrak::nodes::TableAlignment::Left => Alignment::Left,
        comrak::nodes::TableAlignment::Center => Alignment::Center,
        comrak::nodes::TableAlignment::Right => Alignment::Right,
    }
}

/// Describes one node of the syntax tree, found at the given depth.
fn outline_node(depth: usize, ast: &comrak::nodes::Ast) -> (node: OutlineNode)
    ensures
        node.depth == depth,
{
    let declared = node_alignments(ast);
    let mut alignments: Vec<Alignment> = Vec::new();
    let mut i: usize = 0;
    while i < declared.len()
        invariant
            i <= declared.len(),
            alignments@.len() == i,
        decreases declared.len() - i,
    {
        alignments.push(alignment_of(&declared[i]));
        i += 1;
    }
    let (first_line, last_line) = node_lines(ast);
    OutlineNode { depth, kind: node_kind(ast), first_line, last_line, alignments }
}

/// Parse the document and return the nodes of its syntax tree in document
/// order, the root first.
///
/// All optional parse options not related to GitHub Flavored Markdown tables
/// are turned off.
///
/// Trusted: `comrak::parse_document`, whose tree is walked with
/// `Node::descendants`; `Node::ancestors` counts the depth of each node. The
/// tree depends on the text of the document alone.
#[verifier::external_body]
pub(crate) fn get_ast(doc: &str) -> (nodes: Vec<OutlineNode>)
    ensures
        outline_views(nodes@) == document_outline(doc@),
{
    let arena = comrak::Arena::new();
    let mut options = comrak::ComrakOptions::default();
    options.extension.table = true;
    let root = comrak::parse_document(&arena, doc, &options);
    root.descendants().map(|node| outline_node(node.ancestors().count(), &node.data.borrow())).collect()
}

/// Depth of the innermost node, among the first `i` of the outline, whose
/// children are searched for tables: the root, or a block quote that is
/// searched itself.
pub open spec fn open_depth(outline: Seq<OutlineView>, i: int) -> nat
    decreases i,
{
    if i <= 0 {
        0
    } else if i == 1 {
        outline[0].depth
    } else {
        let before = open_depth(outline, i - 1);
        let node = outline[i - 1];
        if 1 <= node.depth <= before + 1 {
            if node.kind == NodeKind::BlockQuote {
                node.depth
            } else {
                (node.depth - 1) as nat
            }
        } else {
            before
        }
    }
}

/// Node `i` is looked at by the search: it is a child of the root, or of a
/// block quote that is looked at.
pub open spec fn is_searched(outline: Seq<OutlineView>, i: int) -> bool {
    1 <= i < outline.len() && 1 <= outline[i].depth <= open_depth(outline, i) + 1
}

/// Node `i` is a table that the search finds.
pub open spec fn is_found(outline: Seq<OutlineView>, i: int) -> bool {
    is_searched(outline, i) && outline[i].kind == NodeKind::Table
}

/// The tables found among the first `i` nodes, in document order.
pub open spec fn found_tables(outline: Seq<OutlineView>, i: int) -> Seq<int>
    decreases i,
{
    if i <= 0 {
        Seq::<int>::empty()
    } else {
        let before = found_tables(outline, i - 1);
        if is_found(outline, i - 1) {
            before.push(i - 1)
        } else {
            before
        }
    }
}

/// The nodes are those of one tree, listed in document order: every node
/// but the first lies below the first, and at most one level below the node
/// listed before it.
pub open spec fn is_tree(outline: Seq<OutlineView>) -> bool {
    forall|m: int| 1 <= m < outline.len() ==> #[trigger] hangs_in_tree(outline, m)
}

/// Node `m` lies below the first node, and at most one level below the
/// node listed before it.
pub open spec fn hangs_in_tree(outline: Seq<OutlineView>, m: int) -> bool {
    outline[0].depth < outline[m].depth <= outline[m - 1].depth + 1
}

/// Node `m` lies below node `j`.
pub open spec fn is_below(outline: Seq<OutlineView>, m: int, j: int) -> bool {
    outline[m].depth > outline[j].depth
}

/// Every node listed between node `j` and position `i` lies below node `j`.
pub open spec fn is_open(outline: Seq<OutlineView>, j: int, i: int) -> bool {
    forall|m: int| j < m < i ==> #[trigger] is_below(outline, m, j)
}

/// Node `j` contains node `i`.
pub open spec fn is_ancestor(outline: Seq<OutlineView>, j: int, i: int) -> bool {
    0 <= j < i < outline.len() && outline[j].depth < outline[i].depth && is_open(outline, j, i)
}

/// Node `j` is the root or a block quote.
pub open spec fn lets_through(outline: Seq<OutlineView>, j: int) -> bool {
    j == 0 || outline[j].kind == NodeKind::BlockQuote
}

/// Block quotes are all that stands between the root and node `i`.
pub open spec fn is_in_reach(outline: Seq<OutlineView>, i: int) -> bool {
    forall|j: int| #[trigger] is_ancestor(outline, j, i) ==> lets_through(outline, j)
}

/// Block quotes are all that would contain a node of depth `depth` listed
/// at position `i`.
pub open spec fn would_be_in_reach(outline: Seq<OutlineView>, i: int, depth: nat) -> bool {
    forall|j: int|
        0 <= j < i && outline[j].depth < depth && #[trigger] is_open(outline, j, i) ==> lets_through(
            outline,
            j,
        )
}

/// The depth kept by the search tells which nodes are in reach: a node
/// listed next would be searched just if block quotes are all that contain it.
pub proof fn lemma_open_depth(outline: Seq<OutlineView>, i: int, depth: nat)
    requires
        is_tree(outline),
        1 <= i <= outline.len(),
        outline[0].depth < depth <= outline[i - 1].depth + 1,
    ensures
        (depth <= open_depth(outline, i) + 1) == would_be_in_reach(outline, i, depth),
    decreases i,
{
    if i == 1 {
        assert forall|j: int|
            0 <= j < i && outline[j].depth < depth && #[trigger] is_open(
                outline,
                j,
                i,
            ) implies lets_through(outline, j) by {}
    } else {
        let n = i - 1;
        let node = outline[n];
        let here = node.depth;
        assert(hangs_in_tree(outline, n));
        lemma_open_depth(outline, n, here);
        let lower: nat = if depth <= here {
            depth
        } else {
            here
        };
        lemma_open_depth(outline, n, lower);
        // What contains a node at position `i` contains node `n` or is node `n`.
        assert forall|j: int| 0 <= j < n implies (#[trigger] is_open(outline, j, i) <==> is_open(
            outline,
            j,
            n,
        ) && here > outline[j].depth) by {
            if is_open(outline, j, i) {
                assert(is_below(outline, n, j));
            }
            if is_open(outline, j, n) && here > outline[j].depth {
                assert forall|m: int| j < m < i implies #[trigger] is_below(outline, m, j) by {
                    if m == n {
                    }
                }
            }
        }
        assert(is_open(outline, n, i));
        if depth <= here {
            assert(would_be_in_reach(outline, i, depth) == would_be_in_reach(outline, n, depth)) by {
                if would_be_in_reach(outline, n, depth) {
                    assert forall|j: int|
                        0 <= j < i && outline[j].depth < depth && #[trigger] is_open(
                            outline,
                            j,
                            i,
                        ) implies lets_through(outline, j) by {
                        if j < n {
                            assert(is_open(outline, j, n));
                        }
                    }
                }
                if would_be_in_reach(outline, i, depth) {
                    assert forall|j: int|
                        0 <= j < n && outline[j].depth < depth && #[trigger] is_open(
                            outline,
                            j,
                            n,
                        ) implies lets_through(outline, j) by {
                        assert(is_open(outline, j, i));
                    }
                }
            }
        } else {
            assert(depth == here + 1);
            assert(would_be_in_reach(outline, i, depth) == (would_be_in_reach(outline, n, here)
                && node.kind == NodeKind::BlockQuote)) by {
                if would_be_in_reach(outline, n, here) && node.kind == NodeKind::BlockQuote {
                    assert forall|j: int|
                        0 <= j < i && outline[j].depth < depth && #[trigger] is_open(
                            outline,
                            j,
                            i,
                        ) implies lets_through(outline, j) by {
                        if j < n {
                            assert(is_open(outline, j, n));
                        }
                    }
                }
                if would_be_in_reach(outline, i, depth) {
                    assert(lets_through(outline, n));
                    assert forall|j: int|
                        0 <= j < n && outline[j].depth < here && #[trigger] is_open(
                            outline,
                            j,
                            n,
                        ) implies lets_through(outline, j) by {
                        assert(is_open(outline, j, i));
                    }
                }
            }
        }
    }
}

/// The search finds the tables that stand in the document itself or in
/// block quotes, however deeply nested, and no other.
pub proof fn lemma_found_tables_are_in_reach(outline: Seq<OutlineView>, i: int)
    requires
        is_tree(outline),
        1 <= i < outline.len(),
    ensures
        is_found(outline, i) == (outline[i].kind == NodeKind::Table && is_in_reach(outline, i)),
{
    let depth = outline[i].depth;
    assert(hangs_in_tree(outline, i));
    lemma_open_depth(outline, i, depth);
    assert(is_in_reach(outline, i) == would_be_in_reach(outline, i, depth)) by {
        if is_in_reach(outline, i) {
            assert forall|j: int|
                0 <= j < i && outline[j].depth < depth && #[trigger] is_open(
                    outline,
                    j,
                    i,
                ) implies lets_through(outline, j) by {
                assert(is_ancestor(outline, j, i));
            }
        }
    }
}

/// The positions as mathematical integers.
pub open spec fn int_views(positions: Seq<usize>) -> Seq<int> {
    Seq::new(positions.len(), |k: int| positions[k] as int)
}

/// Return the positions of all tables that stand in the document itself or
/// in a block quote, however deeply nested. Tables inside of anything else,
/// such as a list item, are left alone.
pub fn search_children(nodes: &Vec<OutlineNode>) -> (tables: Vec<usize>)
    ensures
        int_views(tables@) == found_tables(outline_views(nodes@), nodes@.len() as int),
        forall|k: int| 0 <= k < tables@.len() ==> #[trigger] tables@[k] < nodes@.len(),
{
    let ghost outline = outline_views(nodes@);
    let mut tables: Vec<usize> = Vec::new();
    assert(int_views(tables@) =~= found_tables(outline, 0));
    if nodes.len() == 0 {
        return tables;
    }
    let mut open: usize = nodes[0].depth;
    assert(int_views(tables@) =~= found_tables(outline, 1));
    let mut i: usize = 1;
    while i < nodes.len()
        invariant
            1 <= i <= nodes.len(),
            outline == outline_views(nodes@),
            open == open_depth(outline, i as int),
            int_views(tables@) == found_tables(outline, i as int),
            forall|k: int| 0 <= k < tables@.len() ==> #[trigger] tables@[k] < nodes@.len(),
        decreases nodes.len() - i,
    {
        let node = &nodes[i];
        assert(outline[i as int] == node@);
        if node.depth >= 1 && node.depth - 1 <= open {
            if node.kind == NodeKind::Table {
                tables.push(i);
                assert(int_views(tables@) =~= found_tables(outline, i as int).push(i as int));
            }
            if node.kind == NodeKind::BlockQuote {
                open = node.depth;
            } else {
                open = node.depth - 1;
            }
        }
        i += 1;
    }
    tables
}

/// All necessary information to format a table.
pub struct TableInDocument<'a> {
    /// Byte offsets of the table within the document.
    pub range: Range<usize>,
    /// The text of the table: all of its lines, without the last line ending.
    pub text: &'a str,
    /// The alignment that the delimiter row declares for each column.
    pub alignments: Vec<Alignment>,
}

/// What a [`TableInDocument`] stands for.
pub ghost struct TableView {
    pub start: int,
    pub end: int,
    pub text: Seq<char>,
    pub alignments: Seq<Alignment>,
}

impl<'a> View for TableInDocument<'a> {
    type V = TableView;

    open spec fn view(&self) -> TableView {
        TableView {
            start: self.range.start as int,
            end: self.range.end as int,
            text: self.text@,
            alignments: self.alignments@,
        }
    }
}

/// The views of the tables.
pub open spec fn table_views(tables: Seq<TableInDocument<'_>>) -> Seq<TableView> {
    Seq::new(tables.len(), |k: int| tables[k]@)
}

/// The table that a table node of the syntax tree stands for: the text of
/// its lines as the document has it, and the alignments of the node.
pub open spec fn table_of(bytes: Seq<u8>, node: OutlineView) -> TableView {
    let start = span_start(bytes, node.first_line, node.last_line);
    let end = span_end(bytes, node.last_line);
    TableView {
        start,
        end,
        text: decode_utf8(bytes.subrange(start, end)),
        alignments: node.alignments,
    }
}

/// The tables of a document whose syntax tree is `outline`, in document order.
pub open spec fn located_tables(doc: Seq<char>, outline: Seq<OutlineView>) -> Seq<TableView> {
    let found = found_tables(outline, outline.len() as int);
    Seq::new(found.len(), |k: int| table_of(encode_utf8(doc), outline[found[k]]))
}

/// The span of a table lies within the document and cuts no character in
/// two, and the text of the table is the text of that span.
pub open spec fn span_holds_text(bytes: Seq<u8>, table: TableView) -> bool {
    &&& 0 <= table.start <= table.end <= bytes.len()
    &&& is_char_boundary(bytes, table.start)
    &&& is_char_boundary(bytes, table.end)
    &&& encode_utf8(table.text) == bytes.subrange(table.start, table.end)
}

/// The table that a node stands for lies within the document, and its span
/// holds its text, whatever lines the node names.
pub proof fn lemma_table_of_holds_text(bytes: Seq<u8>, node: OutlineView)
    requires
        valid_utf8(bytes),
    ensures
        span_holds_text(bytes, table_of(bytes, node)),
{
    lemma_span_bounds(bytes, node.first_line, node.last_line);
    let start = span_start(bytes, node.first_line, node.last_line);
    let end = span_end(bytes, node.last_line);
    let head = bytes.subrange(0, end);
    valid_utf8_split(bytes, end);
    if start < end {
        is_char_boundary_iff_not_is_continuation_byte(bytes, start);
        is_char_boundary_iff_not_is_continuation_byte(head, start);
    } else {
        is_char_boundary_start_end_of_seq(head);
    }
    valid_utf8_split(head, start);
    assert(head.subrange(start, head.len() as int) =~= bytes.subrange(start, end));
    decode_utf8_encode_utf8(bytes.subrange(start, end));
}

/// The span of every located table holds the text of the table.
pub proof fn lemma_located_spans_hold_text(doc: Seq<char>, outline: Seq<OutlineView>, k: int)
    requires
        0 <= k < located_tables(doc, outline).len(),
    ensures
        span_holds_text(encode_utf8(doc), located_tables(doc, outline)[k]),
{
    encode_utf8_valid_utf8(doc);
    let found = found_tables(outline, outline.len() as int);
    lemma_table_of_holds_text(encode_utf8(doc), outline[found[k]]);
}

/// The part of `doc` between two byte offsets.
pub fn slice_str<'a>(doc: &'a str, start: usize, end: usize) -> (part: &'a str)
    requires
        start <= end <= doc.spec_bytes().len(),
        is_char_boundary(doc.spec_bytes(), start as int),
        is_char_boundary(doc.spec_bytes(), end as int),
    ensures
        part.spec_bytes() == doc.spec_bytes().subrange(start as int, end as int),
        part@ == decode_utf8(doc.spec_bytes().subrange(start as int, end as int)),
{
    let ghost bytes = doc.spec_bytes();
    proof {
        encode_utf8_valid_utf8(doc@);
    }
    let (head, _) = doc.split_at(end);
    proof {
        valid_utf8_split(bytes, end as int);
        if start < end {
            is_char_boundary_iff_not_is_continuation_byte(bytes, start as int);
            is_char_boundary_iff_not_is_continuation_byte(head.spec_bytes(), start as int);
        } else {
            is_char_boundary_start_end_of_seq(head.spec_bytes());
        }
    }
    let (_, part) = head.split_at(start);
    proof {
        assert(part.spec_bytes() =~= bytes.subrange(start as int, end as int));
        encode_utf8_decode_utf8(part@);
    }
    part
}

/// Copies a list of alignments.
pub fn copy_alignments(alignments: &Vec<Alignment>) -> (copy: Vec<Alignment>)
    ensures
        copy@ == alignments@,
{
    let mut copy: Vec<Alignment> = Vec::new();
    let mut i: usize = 0;
    while i < alignments.len()
        invariant
            i <= alignments.len(),
            copy@ == alignments@.take(i as int),
        decreases alignments.len() - i,
    {
        copy.push(alignments[i]);
        assert(alignments@.take(i as int).push(alignments@[i as int]) =~= alignments@.take(i + 1));
        i += 1;
    }
    assert(alignments@.take(alignments.len() as int) =~= alignments@);
    copy
}

/// Find the tables of `doc` in the nodes of its syntax tree: the byte range
/// of each, its text and its alignments.
pub fn locate_tables<'a>(doc: &'a str, nodes: &Vec<OutlineNode>) -> (tables: Vec<TableInDocument<'a>>)
    ensures
        table_views(tables@) == located_tables(doc@, outline_views(nodes@)),
        forall|k: int|
            0 <= k < tables@.len() ==> span_holds_text(doc.spec_bytes(), #[trigger] tables@[k]@),
{
    let ghost outline = outline_views(nodes@);
    let ghost want = located_tables(doc@, outline);
    let found = search_children(nodes);
    let mut tables: Vec<TableInDocument<'a>> = Vec::new();
    let mut k: usize = 0;
    assert(table_views(tables@) =~= want.take(0));
    while k < found.len()
        invariant
            k <= found.len(),
            outline == outline_views(nodes@),
            want == located_tables(doc@, outline),
            int_views(found@) == found_tables(outline, nodes@.len() as int),
            forall|j: int| 0 <= j < found@.len() ==> #[trigger] found@[j] < nodes@.len(),
            table_views(tables@) == want.take(k as int),
            forall|j: int|
                0 <= j < tables@.len() ==> span_holds_text(doc.spec_bytes(), #[trigger] tables@[j]@),
        decreases found.len() - k,
    {
        let node = &nodes[found[k]];
        let lines = RangeInclusive::new(node.first_line, node.last_line);
        let range = get_range_from_lines(doc, lines);
        let text = slice_str(doc, range.start, range.end);
        let table = TableInDocument { range, text, alignments: copy_alignments(&node.alignments) };
        proof {
            assert(int_views(found@)[k as int] == found@[k as int]);
            assert(outline[found@[k as int] as int] == node@);
            assert(table@ == want[k as int]);
            assert(table_views(tables@.push(table)) =~= want.take(k as int).push(want[k as int]));
            assert(want.take(k as int).push(want[k as int]) =~= want.take(k + 1));
        }
        tables.push(table);
        k += 1;
    }
    assert(want.take(found.len() as int) =~= want);
    tables
}

/// Use the syntax tree of `comrak` to find the locations (and alignments)
/// of all GitHub Flavored Markdown tables in the `doc` string.
pub fn get_tables(doc: &str) -> (tables: Vec<TableInDocument<'_>>)
    ensures
        table_views(tables@) == located_tables(doc@, document_outline(doc@)),
        forall|k: int|
            0 <= k < tables@.len() ==> span_holds_text(doc.spec_bytes(), #[trigger] tables@[k]@),
{
    let nodes = get_ast(doc);
    locate_tables(doc, &nodes)
}

} // verus!
