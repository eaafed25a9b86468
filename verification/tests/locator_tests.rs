use markdown_table_formatter::alignment::Alignment;
use markdown_table_formatter::ast::{
    get_tables, locate_tables, search_children, slice_str, NodeKind, OutlineNode,
};
use markdown_table_formatter::span::get_range_from_lines;
use markdown_table_formatter::splicer::{format_located, spans_are_usable, splice};

fn node(depth: usize, kind: NodeKind, first_line: usize, last_line: usize) -> OutlineNode {
    let alignments = if kind == NodeKind::Table {
        vec![Alignment::Unspecified]
    } else {
        Vec::new()
    };
    OutlineNode {
        depth,
        kind,
        first_line,
        last_line,
        alignments,
    }
}

#[test]
fn range_of_lines_in_the_middle() {
    let doc = "one\ntwo\nthree\nfour";
    assert_eq!(get_range_from_lines(doc, 2..=3), 4..13);
    assert_eq!(get_range_from_lines(doc, 1..=1), 0..3);
    assert_eq!(get_range_from_lines(doc, 4..=4), 14..18);
    assert_eq!(get_range_from_lines(doc, 1..=4), 0..18);
}

#[test]
fn range_of_lines_leaves_out_crlf() {
    let doc = "one\r\ntwo\r\nthree\r\n";
    assert_eq!(get_range_from_lines(doc, 2..=2), 5..8);
    assert_eq!(get_range_from_lines(doc, 2..=3), 5..15);
}

#[test]
fn range_of_lines_counts_bytes() {
    let doc = "✅✅\nüa\nb";
    assert_eq!(get_range_from_lines(doc, 2..=2), 7..10);
    assert_eq!(get_range_from_lines(doc, 2..=3), 7..12);
    assert_eq!(&doc[7..10], "üa");
}

#[test]
fn range_of_lines_at_the_edges() {
    let doc = "a\n\nb";
    assert_eq!(get_range_from_lines(doc, 2..=2), 0..2);
    assert_eq!(get_range_from_lines(doc, 3..=2), 0..2);
    assert_eq!(get_range_from_lines(doc, 3..=9), 3..4);
    assert_eq!(get_range_from_lines(doc, 7..=9), 0..4);
    assert_eq!(get_range_from_lines(doc, 0..=0), 0..4);
    assert_eq!(get_range_from_lines("\nx", 1..=1), 0..0);
    assert_eq!(get_range_from_lines("", 1..=1), 0..0);
}

#[test]
fn slice_between_offsets() {
    assert_eq!(slice_str("a✅b", 1, 4), "✅");
    assert_eq!(slice_str("a✅b", 0, 0), "");
    assert_eq!(slice_str("a✅b", 0, 5), "a✅b");
}

#[test]
fn search_finds_tables_in_document_and_block_quotes() {
    let nodes = vec![
        node(1, NodeKind::Other, 1, 20),
        node(2, NodeKind::Table, 1, 2),
        node(3, NodeKind::Other, 1, 1),
        node(2, NodeKind::BlockQuote, 4, 9),
        node(3, NodeKind::Table, 4, 5),
        node(3, NodeKind::BlockQuote, 7, 9),
        node(4, NodeKind::Table, 7, 9),
        node(2, NodeKind::Other, 11, 14),
        node(3, NodeKind::Other, 11, 14),
        node(4, NodeKind::Table, 11, 13),
        node(3, NodeKind::BlockQuote, 14, 14),
        node(4, NodeKind::Table, 14, 14),
        node(2, NodeKind::Table, 16, 18),
    ];
    assert_eq!(search_children(&nodes), vec![1, 4, 6, 12]);
}

#[test]
fn search_of_small_outlines() {
    assert_eq!(search_children(&Vec::new()), Vec::<usize>::new());
    assert_eq!(
        search_children(&vec![node(1, NodeKind::Table, 1, 2)]),
        Vec::<usize>::new()
    );
    assert_eq!(
        search_children(&vec![
            node(1, NodeKind::Other, 1, 2),
            node(3, NodeKind::Table, 1, 2)
        ]),
        Vec::<usize>::new()
    );
}

#[test]
fn tables_are_located_by_their_lines() {
    let doc = "intro\n\n|a|\n|-|\n|b|\n\noutro\n";
    let nodes = vec![
        node(1, NodeKind::Other, 1, 7),
        node(2, NodeKind::Other, 1, 1),
        node(2, NodeKind::Table, 3, 5),
        node(2, NodeKind::Other, 7, 7),
    ];
    let tables = locate_tables(doc, &nodes);
    assert_eq!(tables.len(), 1);
    assert_eq!(tables[0].range, 7..18);
    assert_eq!(tables[0].text, "|a|\n|-|\n|b|");
    assert_eq!(tables[0].alignments, vec![Alignment::Unspecified]);
    assert!(spans_are_usable(doc, &tables));
    assert_eq!(splice(doc, &tables), "intro\n\n| a   |\n| --- |\n| b   |\n\noutro\n");
}

#[test]
fn document_is_returned_as_it_is_where_spans_overlap() {
    let doc = "|a|\n|-|\n|b|\n";
    let nodes = vec![
        node(1, NodeKind::Other, 1, 3),
        node(2, NodeKind::Table, 1, 3),
        node(2, NodeKind::Table, 2, 3),
    ];
    assert!(!spans_are_usable(doc, &locate_tables(doc, &nodes)));
    assert_eq!(format_located(doc, &nodes), doc);
}

#[test]
fn document_is_returned_as_it_is_where_a_table_has_one_line() {
    let doc = "|a|\n|-|\n|b|\n";
    let nodes = vec![
        node(1, NodeKind::Other, 1, 3),
        node(2, NodeKind::Table, 1, 1),
    ];
    assert_eq!(format_located(doc, &nodes), doc);
}

#[test]
fn located_tables_are_formatted() {
    let doc = "|a|\n|-|\n|b|\n\n> |c|\n> |-|\n";
    let nodes = vec![
        node(1, NodeKind::Other, 1, 6),
        node(2, NodeKind::Table, 1, 3),
        node(2, NodeKind::BlockQuote, 5, 6),
        node(3, NodeKind::Table, 5, 6),
    ];
    assert_eq!(
        format_located(doc, &nodes),
        "| a   |\n| --- |\n| b   |\n\n> | c   |\n> | --- |\n"
    );
}

#[test]
fn parser_reports_tables_with_alignments() {
    let doc = "text\n\n|a|b|c|d|\n|:-|-:|:-:|-|\n|1|2|3|4|\n\n> |x|\n> |-|\n";
    let tables = get_tables(doc);
    assert_eq!(tables.len(), 2);
    assert_eq!(tables[0].text, "|a|b|c|d|\n|:-|-:|:-:|-|\n|1|2|3|4|");
    assert_eq!(tables[0].range, 6..39);
    assert_eq!(
        tables[0].alignments,
        vec![
            Alignment::Left,
            Alignment::Right,
            Alignment::Center,
            Alignment::Unspecified
        ]
    );
    assert_eq!(tables[1].text, "> |x|\n> |-|");
    assert_eq!(tables[1].alignments, vec![Alignment::Unspecified]);
}

#[test]
fn parser_skips_tables_in_list_items() {
    let doc = "- item\n\n  |a|\n  |-|\n  |b|\n";
    assert_eq!(get_tables(doc).len(), 0);
}
