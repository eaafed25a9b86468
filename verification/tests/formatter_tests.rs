use markdown_table_formatter::aligner::align_cell;
use markdown_table_formatter::alignment::{get_alignment_cell_minimum_width, Alignment};
use markdown_table_formatter::ast::TableInDocument;
use markdown_table_formatter::cell::Cell;
use markdown_table_formatter::column::get_col_max_widths;
use markdown_table_formatter::delimiter::{format_delimiter_cell, get_normalized_delimiter_row};
use markdown_table_formatter::lines::{has_crlf, lines_of};
use markdown_table_formatter::row::parse_row_text;
use markdown_table_formatter::table_formatter::{
    align_row, format_table, frame_row, get_table_content_rows,
};
use markdown_table_formatter::text::{char_is_whitespace, join_strings, to_chars, trim_chars};

fn cell(text: &str) -> Cell {
    Cell::from(text.chars().collect::<Vec<char>>())
}

fn table<'a>(text: &'a str, alignments: Vec<Alignment>) -> TableInDocument<'a> {
    TableInDocument {
        range: 0..text.len(),
        text,
        alignments,
    }
}

#[test]
fn minimum_widths() {
    assert_eq!(get_alignment_cell_minimum_width(&Alignment::Center), 5);
    assert_eq!(get_alignment_cell_minimum_width(&Alignment::Left), 4);
    assert_eq!(get_alignment_cell_minimum_width(&Alignment::Right), 4);
    assert_eq!(get_alignment_cell_minimum_width(&Alignment::Unspecified), 3);
}

#[test]
fn delimiter_cells_at_minimum_width() {
    assert_eq!(format_delimiter_cell(&Alignment::Center, 5), " :---: ");
    assert_eq!(format_delimiter_cell(&Alignment::Left, 4), " :--- ");
    assert_eq!(format_delimiter_cell(&Alignment::Right, 4), " ---: ");
    assert_eq!(format_delimiter_cell(&Alignment::Unspecified, 3), " --- ");
}

#[test]
fn delimiter_cells_grow_by_dashes() {
    assert_eq!(format_delimiter_cell(&Alignment::Center, 8), " :------: ");
    assert_eq!(format_delimiter_cell(&Alignment::Left, 8), " :------- ");
    assert_eq!(format_delimiter_cell(&Alignment::Right, 8), " -------: ");
    assert_eq!(format_delimiter_cell(&Alignment::Unspecified, 8), " -------- ");
}

#[test]
fn delimiter_row_has_one_cell_per_column() {
    let alignments = [Alignment::Left, Alignment::Unspecified, Alignment::Center];
    let widths = [4, 6, 5];
    assert_eq!(
        get_normalized_delimiter_row(&alignments, &widths),
        vec![" :--- ", " ------ ", " :---: "]
    );
    assert_eq!(get_normalized_delimiter_row(&[], &[]), Vec::<String>::new());
}

#[test]
fn column_widths_take_the_widest_cell_or_the_minimum() {
    let rows = vec![
        parse_row_text("| a | bbbbbbb | c |"),
        parse_row_text("| aaaaaa |"),
        parse_row_text("| ✅✅✅ | b | c | dddddddddd |"),
    ];
    let alignments = [Alignment::Unspecified, Alignment::Left, Alignment::Center];
    assert_eq!(get_col_max_widths(&rows, &alignments), vec![6, 7, 5]);
    assert_eq!(get_col_max_widths(&[], &alignments), vec![3, 4, 5]);
    assert_eq!(get_col_max_widths(&rows, &[]), Vec::<usize>::new());
}

#[test]
fn cells_are_aligned_left_by_default() {
    assert_eq!(align_cell(&cell("ab"), &Alignment::Left, &5), " ab    ");
    assert_eq!(align_cell(&cell("ab"), &Alignment::Unspecified, &5), " ab    ");
    assert_eq!(align_cell(&cell("ab"), &Alignment::Left, &2), " ab ");
    assert_eq!(align_cell(&cell(""), &Alignment::Unspecified, &3), "     ");
}

#[test]
fn cells_are_aligned_right() {
    assert_eq!(align_cell(&cell("ab"), &Alignment::Right, &5), "    ab ");
    assert_eq!(align_cell(&cell("ab"), &Alignment::Right, &2), " ab ");
}

#[test]
fn centered_cells_get_the_odd_space_behind() {
    assert_eq!(align_cell(&cell("ab"), &Alignment::Center, &5), "  ab   ");
    assert_eq!(align_cell(&cell("ab"), &Alignment::Center, &6), "   ab   ");
    assert_eq!(align_cell(&cell("a"), &Alignment::Center, &2), " a  ");
    assert_eq!(align_cell(&cell("ab"), &Alignment::Center, &2), " ab ");
}

#[test]
fn wide_cells_are_padded_by_their_display_width() {
    assert_eq!(align_cell(&cell("✅"), &Alignment::Left, &4), " ✅   ");
    assert_eq!(align_cell(&cell("✅"), &Alignment::Right, &4), "   ✅ ");
}

#[test]
fn rows_are_aligned_column_by_column() {
    let row = parse_row_text("| a | b | extra |");
    let alignments = [Alignment::Right, Alignment::Center];
    let widths = [4, 5];
    assert_eq!(
        align_row(&row, &alignments, &widths),
        vec!["    a ", "   b   ", " extra "]
    );
}

#[test]
fn rows_are_framed_by_bars() {
    let cells = vec![" a ".to_string(), " b ".to_string()];
    assert_eq!(frame_row("> ", &cells), "> | a | b |");
    assert_eq!(frame_row("", &Vec::new()), "||");
}

#[test]
fn content_rows_leave_out_the_delimiter_row() {
    let rows = get_table_content_rows("|a|b|\n|-|-|\n|c|d|\n|e|").rows;
    assert_eq!(rows.len(), 3);
    assert_eq!(rows[0][1].content, "b");
    assert_eq!(rows[1][0].content, "c");
    assert_eq!(rows[2][0].content, "e");
    assert_eq!(get_table_content_rows("|a|").rows.len(), 1);
    assert_eq!(get_table_content_rows("").rows.len(), 0);
}

#[test]
fn table_is_formatted_with_given_alignments() {
    let input = "|a|b|\n|-|-|\n|ccccc|d|";
    let formatted = format_table(&table(input, vec![Alignment::Right, Alignment::Center]));
    assert_eq!(
        formatted,
        "|     a |   b   |\n| ----: | :---: |\n| ccccc |   d   |"
    );
}

#[test]
fn table_keeps_line_count_and_line_ending() {
    let input = "|a|\r\n|-|\r\n|b|\r\n|c|";
    let formatted = format_table(&table(input, vec![Alignment::Unspecified]));
    assert_eq!(formatted, "| a   |\r\n| --- |\r\n| b   |\r\n| c   |");
    assert_eq!(formatted.lines().count(), input.lines().count());
}

#[test]
fn table_with_two_lines_only() {
    let formatted = format_table(&table("a|b\n-|-", vec![Alignment::Left, Alignment::Left]));
    assert_eq!(formatted, "| a    | b    |\n| :--- | :--- |");
}

#[test]
fn table_rows_take_the_indentation_of_the_header() {
    let input = " > |a|\n > |-|\n > |b|";
    let formatted = format_table(&table(input, vec![Alignment::Unspecified]));
    assert_eq!(formatted, " > | a   |\n > | --- |\n > | b   |");
}

#[test]
fn table_cells_beyond_the_alignments_keep_their_width() {
    let input = "|a|b|\n|-|\n|c|dddddd|e|";
    let formatted = format_table(&table(input, vec![Alignment::Unspecified]));
    assert_eq!(formatted, "| a   | b |\n| --- |\n| c   | dddddd | e |");
}

#[test]
fn formatting_a_formatted_table_changes_nothing() {
    let alignments = vec![Alignment::Center, Alignment::Right];
    let input = "> a|b \\| c\n> -|-\n> `x`|✅✅✅✅";
    let once = format_table(&table(input, alignments.clone()));
    let twice = format_table(&table(&once, alignments));
    assert_eq!(once, twice);
}

#[test]
fn whitespace_is_what_std_calls_whitespace() {
    for code in 0..0x11000u32 {
        if let Some(c) = char::from_u32(code) {
            assert_eq!(char_is_whitespace(c), c.is_whitespace(), "{code:#x}");
        }
    }
}

#[test]
fn trimming_matches_std() {
    for text in ["", " ", "a", "  a b  ", "\t\u{a0}x\u{2003}\n", "\u{3000}", "a \u{200b} "] {
        let chars: Vec<char> = text.chars().collect();
        let trimmed: String = trim_chars(&chars).iter().collect();
        assert_eq!(trimmed, text.trim());
    }
}

#[test]
fn characters_of_a_string() {
    assert_eq!(to_chars("a✅\u{301}"), vec!['a', '✅', '\u{301}']);
    assert_eq!(to_chars(""), Vec::<char>::new());
}

#[test]
fn lines_match_std() {
    for text in [
        "",
        "a",
        "a\n",
        "a\nb",
        "a\r\nb\r\n",
        "\n",
        "\n\n",
        "a\r",
        "a\r\r\nb",
        "\r\n",
        "a\n\nb\n",
    ] {
        let chars: Vec<char> = text.chars().collect();
        let lines: Vec<String> = lines_of(&chars)
            .iter()
            .map(|line| line.iter().collect())
            .collect();
        let expected: Vec<String> = text.lines().map(|line| line.to_string()).collect();
        assert_eq!(lines, expected, "{text:?}");
    }
}

#[test]
fn crlf_is_found_anywhere() {
    assert!(has_crlf(&to_chars("a\r\nb")));
    assert!(has_crlf(&to_chars("\r\n")));
    assert!(has_crlf(&to_chars("a\nb\r\n")));
    assert!(!has_crlf(&to_chars("a\nb\r")));
    assert!(!has_crlf(&to_chars("a\n\rb")));
    assert!(!has_crlf(&to_chars("")));
}

#[test]
fn strings_are_joined_with_separator() {
    let parts = vec!["a".to_string(), "".to_string(), "c".to_string()];
    assert_eq!(join_strings(&parts, "--"), "a----c");
    assert_eq!(join_strings(&Vec::new(), "--"), "");
    assert_eq!(join_strings(&vec!["x".to_string()], "--"), "x");
}

#[test]
fn row_without_cells_is_framed_by_two_bars() {
    let formatted = format_table(&table("|a|\n|-|\n|", vec![Alignment::Unspecified]));
    assert_eq!(formatted, "| a   |\n| --- |\n||");
}

#[test]
fn padded_cells_of_a_column_are_equally_wide() {
    let rows = vec![
        parse_row_text("| a | ✅✅ |"),
        parse_row_text("| bbbbbb | c |"),
    ];
    let alignments = [Alignment::Center, Alignment::Right];
    let widths = get_col_max_widths(&rows, &alignments);
    for row in rows.iter() {
        let padded = align_row(row, &alignments, &widths);
        for (col, text) in padded.iter().enumerate() {
            assert_eq!(
                unicode_display_width::width(text) as usize,
                widths[col] + 2
            );
        }
    }
}

#[test]
fn padding_changes_whitespace_only() {
    let line = "|  a b\\| c |\u{a0}✅ |x";
    let row = parse_row_text(line);
    let padded = align_row(&row, &[Alignment::Center], &[9]);
    let visible = |text: &str| -> String { text.chars().filter(|c| !c.is_whitespace()).collect() };
    assert_eq!(visible(&padded[0]), "ab\\|c");
    assert_eq!(visible(&padded[1]), "✅");
    assert_eq!(visible(&padded[2]), "x");
    assert_eq!(visible(&padded.join("|")), visible(&line[1..]));
}

#[test]
fn escaped_bar_at_the_end_of_a_row_is_kept() {
    let alignments = vec![Alignment::Unspecified, Alignment::Unspecified];
    let formatted = format_table(&table("|x|a\\|\n|-|-|", alignments.clone()));
    assert_eq!(formatted, "| x   | a\\| |\n| --- | --- |");
    assert_eq!(format_table(&table(&formatted, alignments)), formatted);
}

#[test]
fn row_of_one_escaped_bar_is_formatted_once_and_for_all() {
    let alignments = vec![Alignment::Center];
    let formatted = format_table(&table("a\\|\n-\nb", alignments.clone()));
    assert_eq!(formatted, "|  a\\|  |\n| :---: |\n|   b   |");
    assert_eq!(format_table(&table(&formatted, alignments)), formatted);
}

#[test]
fn formatted_rows_keep_every_visible_character() {
    let visible = |text: &str| -> String { text.chars().filter(|c| !c.is_whitespace()).collect() };
    let input = "> a  b | c\\|\n> -|-\n> |  d|e \\\\| f\\|";
    let formatted = format_table(&table(input, vec![Alignment::Right, Alignment::Left]));
    let lines: Vec<&str> = formatted.lines().collect();
    assert_eq!(visible(lines[0]), ">|ab|c\\||");
    assert_eq!(visible(lines[2]), ">|d|e\\\\|f\\||");
}
