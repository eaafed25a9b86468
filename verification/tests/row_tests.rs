use markdown_table_formatter::cell::Cell;
use markdown_table_formatter::row::{get_table_indentation, parse_row_chars, parse_row_text};

fn contents(cells: &[Cell]) -> Vec<String> {
    cells.iter().map(|cell| cell.content.clone()).collect()
}

fn check_row(input: &str, output: &[&str]) {
    let cells = parse_row_text(input);
    let expected: Vec<String> = output.iter().map(|text| text.to_string()).collect();
    assert_eq!(contents(&cells), expected);
    for cell in cells.iter() {
        assert_eq!(
            cell.visual_length as u64,
            unicode_display_width::width(&cell.content)
        );
    }
}

#[test]
fn row_simple() {
    check_row("| a | b | c |", &["a", "b", "c"]);
}

#[test]
fn row_without_framing_bars() {
    check_row("a | b | c", &["a", "b", "c"]);
}

#[test]
fn row_with_escaped_bar_in_code_span() {
    check_row("| a | b | `\\|` |", &["a", "b", "`\\|`"]);
}

#[test]
fn row_with_escaped_bar() {
    check_row("| a | b | \\| |", &["a", "b", "\\|"]);
}

#[test]
fn row_with_unescaped_bar_in_code_span() {
    check_row("| a | b | `|` |", &["a", "b", "`", "`"]);
}

#[test]
fn row_with_single_element() {
    check_row("a", &["a"]);
}

#[test]
fn row_of_delimiters() {
    check_row(
        "| --- | :---: | ---: | :--- |",
        &["---", ":---:", "---:", ":---"],
    );
}

#[test]
fn row_with_non_ascii_text() {
    check_row("| ✅ | ❌ |", &["✅", "❌"]);
    let cells = parse_row_text("| ✅ | ab |");
    assert_eq!(cells[0].visual_length, 2);
    assert_eq!(cells[1].visual_length, 2);
}

#[test]
fn row_with_empty_cell() {
    check_row("| | D", &["", "D"]);
}

#[test]
fn row_with_blockquote_indentation() {
    check_row("   > >>  ✅ | ❌", &["✅", "❌"]);
}

#[test]
fn row_without_cells() {
    check_row("", &[]);
    check_row("|", &[]);
    check_row("  > ", &[]);
    check_row(" > |", &[]);
}

#[test]
fn row_with_adjacent_bars() {
    check_row("||", &[""]);
    check_row("|a||b|", &["a", "", "b"]);
}

#[test]
fn row_with_double_backslash_before_bar() {
    check_row("| a\\\\| b |", &["a\\\\", "b"]);
    check_row("| a\\\\\\| b |", &["a\\\\\\| b"]);
}

#[test]
fn row_keeps_text_behind_last_bar() {
    check_row("| a | b", &["a", "b"]);
    check_row("| a | b\\", &["a", "b\\"]);
}

#[test]
fn row_trims_unicode_whitespace() {
    check_row("|\u{a0}a\u{3000}|\t b\u{2003}c \t|", &["a", "b\u{2003}c"]);
}

#[test]
fn row_from_chars_matches_row_from_text() {
    let line = "> | x | `\\|` | y";
    let chars: Vec<char> = line.chars().collect();
    assert_eq!(
        contents(&parse_row_chars(&chars)),
        contents(&parse_row_text(line))
    );
}

#[test]
fn cell_from_chars_trims_and_measures() {
    let cell = Cell::from("  ✅ ok \t".chars().collect::<Vec<char>>());
    assert_eq!(cell.content, "✅ ok");
    assert_eq!(cell.visual_length, 5);
    let empty = Cell::from(" \u{2028} ".chars().collect::<Vec<char>>());
    assert_eq!(empty.content, "");
    assert_eq!(empty.visual_length, 0);
}

#[test]
fn indentation_of_header() {
    assert_eq!(get_table_indentation("| a |"), None);
    assert_eq!(get_table_indentation(""), None);
    assert_eq!(get_table_indentation("> | a |"), Some("> ".to_string()));
    assert_eq!(
        get_table_indentation("  > >> a > b"),
        Some("  > >> ".to_string())
    );
    assert_eq!(get_table_indentation(" >"), Some(" >".to_string()));
    assert_eq!(get_table_indentation("\t| a |"), None);
}

#[test]
fn row_ending_with_escaped_bar_keeps_its_last_cell() {
    check_row("| a | b\\|", &["a", "b\\|"]);
    check_row("a\\|", &["a\\|"]);
    check_row("| a \\|", &["a \\|"]);
    check_row("\\|", &["\\|"]);
    check_row("| a \\\\|", &["a \\\\"]);
}

#[test]
fn row_with_text_behind_the_closing_bar() {
    check_row("| a | b |  ", &["a", "b", ""]);
    check_row("| a | b | >", &["a", "b", ">"]);
}
