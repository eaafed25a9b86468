use markdown_table_formatter::format_tables;

#[test]
fn crlf_test() {
    let input = "|A|B|\r\n|-|-|\r\n|C|D|";
    let correct = "| A   | B   |\r\n| --- | --- |\r\n| C   | D   |";

    assert_eq!(format_tables(input), correct);
}

#[test]
fn basic_table_is_normalized() {
    let input = "| a | b |\n|---|:-:|\n| long cell | x |\n";
    let correct = "| a         |   b   |\n| --------- | :---: |\n| long cell |   x   |\n";
    assert_eq!(format_tables(input), correct);
}

#[test]
fn alignment_markers_are_kept() {
    let input = "|l|r|c|n|\n|:-|-:|:-:|-|\n|1|2|3|4|";
    let correct = "| l    |    r |   c   | n   |\n| :--- | ---: | :---: | --- |\n| 1    |    2 |   3   | 4   |";
    assert_eq!(format_tables(input), correct);
}

#[test]
fn document_without_table_is_unchanged() {
    let input = "# Title\n\nJust a paragraph with a | bar.\n";
    assert_eq!(format_tables(input), input);
    assert_eq!(format_tables(""), "");
}

#[test]
fn text_around_a_table_is_untouched() {
    let input = "Some  prose   before.\n\n|a|b|\n|-|-|\n|c|d|\n\nAnd   prose after.  \n";
    let correct =
        "Some  prose   before.\n\n| a   | b   |\n| --- | --- |\n| c   | d   |\n\nAnd   prose after.  \n";
    assert_eq!(format_tables(input), correct);
}

#[test]
fn table_in_code_block_is_untouched() {
    let input = "```\n|a|b|\n|-|-|\n|c|d|\n```\n";
    assert_eq!(format_tables(input), input);
}

#[test]
fn table_in_blockquote_keeps_its_prefix() {
    let input = "> |a|b|\n> |-|-|\n> |c|d|\n";
    let correct = "> | a   | b   |\n> | --- | --- |\n> | c   | d   |\n";
    assert_eq!(format_tables(input), correct);
}

#[test]
fn wide_characters_count_two_columns() {
    let input = "|✅|b|\n|-|-|\n|cc|d|\n";
    let correct = "| ✅  | b   |\n| --- | --- |\n| cc  | d   |\n";
    assert_eq!(format_tables(input), correct);
}

#[test]
fn two_tables_are_both_formatted() {
    let input = "|a|\n|-|\n\ntext\n\n|bbbbb|\n|:-:|\n|c|\n";
    let correct = "| a   |\n| --- |\n\ntext\n\n| bbbbb |\n| :---: |\n|   c   |\n";
    assert_eq!(format_tables(input), correct);
}

#[test]
fn formatting_twice_changes_nothing() {
    let input = "intro\n\n> |a|b\\|c|\n> |-:|:-|\n> |ddddd|✅|\n\noutro";
    let once = format_tables(input);
    assert_eq!(format_tables(&once), once);
}

#[test]
fn ragged_rows_keep_all_cells() {
    let input = "|a|b|\n|-|-|\n|c|\n|d|e|extra|\n";
    let correct = "| a   | b   |\n| --- | --- |\n| c   |\n| d   | e   | extra |\n";
    assert_eq!(format_tables(input), correct);
}

#[test]
fn non_ascii_text_before_a_table_is_kept() {
    let input = "слава ✅\n\n|a|\n|-|\n|ü|\n\nконец";
    let correct = "слава ✅\n\n| a   |\n| --- |\n| ü   |\n\nконец";
    assert_eq!(format_tables(input), correct);
}

#[test]
fn table_in_nested_blockquote_is_formatted() {
    let input = "> > |a|b|\n> > |-|-|\n> > |cc|d|\n";
    let correct = "> > | a   | b   |\n> > | --- | --- |\n> > | cc  | d   |\n";
    assert_eq!(format_tables(input), correct);
}

#[test]
fn table_in_html_comment_is_untouched() {
    let input = "<!--\n|a|b|\n|-|-|\n|c|d|\n-->\n";
    assert_eq!(format_tables(input), input);
}

#[test]
fn table_in_list_item_is_untouched() {
    let input = "- item\n\n  |a|b|\n  |-|-|\n  |c|d|\n";
    assert_eq!(format_tables(input), input);
}

#[test]
fn line_of_text_behind_a_table_is_a_row() {
    let input = "|a|b|\n|-|-|\n|c|d|\ntrailing text\n\nnext paragraph";
    let correct = "| a             | b   |\n| ------------- | --- |\n| c             | d   |\n| trailing text |\n\nnext paragraph";
    let formatted = format_tables(input);
    assert_eq!(formatted, correct);
    assert_eq!(format_tables(&formatted), formatted);
}

#[test]
fn wide_table_shrinks_to_its_content() {
    let input = "| a          | b   |\n| :--------------- | --: |\n| c     |   d |\n";
    let correct = "| a    |    b |\n| :--- | ---: |\n| c    |    d |\n";
    assert_eq!(format_tables(input), correct);
}

#[test]
fn escaped_bar_at_the_end_of_a_line_stays_in_its_cell() {
    let input = "|x|y|\n|-|-|\n|b|a\\|\n";
    let correct = "| x   | y   |\n| --- | --- |\n| b   | a\\| |\n";
    assert_eq!(format_tables(input), correct);
    assert_eq!(format_tables(correct), correct);
}
