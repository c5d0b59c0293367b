use markplus::{
    calculate_col_widths, extract_all_tables, extract_all_tables_with_spans,
    format_all_tables_in_markdown, format_table, format_table_at_position, get_formatted_tables,
    is_cursor_in_table, offset_to_position, parse_table_row, Position, Span,
};

const SIMPLE: &str = "| a | bb |\n|---|----|\n| 1 | 22 |\n";

fn row(cells: &[&str]) -> Vec<String> {
    cells.iter().map(|c| c.to_string()).collect()
}

#[test]
fn offset_at_start_is_line_one_column_one() {
    assert_eq!(offset_to_position("ab\ncd", 0), Position { line: 1, column: 1 });
}

#[test]
fn offset_after_newline_counts_lines_and_columns() {
    assert_eq!(offset_to_position("ab\ncd", 4), Position { line: 2, column: 2 });
    assert_eq!(offset_to_position("ab\ncd", 3), Position { line: 2, column: 1 });
}

#[test]
fn offset_past_end_clamps_to_end() {
    assert_eq!(offset_to_position("ab", 10), Position { line: 1, column: 3 });
}

#[test]
fn offset_counts_characters_not_bytes() {
    assert_eq!(offset_to_position("é\néé", 3), Position { line: 2, column: 2 });
}

#[test]
fn parse_row_trims_cells_and_outer_bars() {
    assert_eq!(parse_table_row("  | a | bb |  "), row(&["a", "bb"]));
}

#[test]
fn parse_row_of_bars_only_gives_empty_cells() {
    assert_eq!(parse_table_row("|||"), row(&["", ""]));
}

#[test]
fn parse_row_without_outer_bars() {
    assert_eq!(parse_table_row("a | b"), row(&["a", "b"]));
}

#[test]
fn extract_simple_table_with_span() {
    let tables = extract_all_tables_with_spans(SIMPLE);
    assert_eq!(tables.len(), 1);
    let t = &tables[0];
    assert_eq!(t.table, vec![row(&["a", "bb"]), row(&["---", "----"]), row(&["1", "22"])]);
    assert_eq!(t.table[0], row(&["a", "bb"]));
    assert_eq!(t.position, Position { line: 1, column: 1 });
    assert_eq!(
        t.span,
        Span { start: Position { line: 1, column: 1 }, end: Position { line: 3, column: 10 } }
    );
}

#[test]
fn extract_needs_two_rows() {
    assert!(extract_all_tables_with_spans("text\n| a |\ntext\n").is_empty());
    assert!(extract_all_tables_with_spans("").is_empty());
}

#[test]
fn extract_spans_are_disjoint_and_ascending() {
    let doc = "|a|b|\n|c|d|\ntext\n|e|\n|f|\n|g|";
    let tables = extract_all_tables_with_spans(doc);
    assert_eq!(tables.len(), 2);
    assert_eq!(tables[0].span.start.line, 1);
    assert_eq!(tables[0].span.end.line, 2);
    assert_eq!(tables[1].span.start.line, 4);
    assert_eq!(tables[1].span.end.line, 6);
    assert!(tables[0].span.end.line < tables[1].span.start.line);
}

#[test]
fn extract_counts_lone_bar_line_as_table_like() {
    let tables = extract_all_tables_with_spans("| a |\n|");
    assert_eq!(tables.len(), 1);
    assert_eq!(tables[0].table, vec![row(&["a"]), row(&[""])]);
    assert_eq!(tables[0].span.end, Position { line: 2, column: 1 });
}

#[test]
fn extract_loose_table_without_separator() {
    let tables = extract_all_tables_with_spans("| x | y |\n| 1 | 2 |");
    assert_eq!(tables.len(), 1);
    assert_eq!(tables[0].table, vec![row(&["x", "y"]), row(&["1", "2"])]);
}

#[test]
fn widths_are_column_maxima() {
    let t = vec![row(&["a", "bb"]), row(&["---", "----"]), row(&["1", "22"])];
    assert_eq!(calculate_col_widths(&t), vec![3, 4]);
}

#[test]
fn widths_count_characters_of_multibyte_cells() {
    let t = vec![row(&["café", "b"]), row(&["x", "long"])];
    assert_eq!(calculate_col_widths(&t), vec![4, 4]);
}

#[test]
fn widths_of_empty_table_are_empty() {
    let t: Vec<Vec<String>> = Vec::new();
    assert!(calculate_col_widths(&t).is_empty());
}

#[test]
fn widths_ignore_cells_past_the_header() {
    let t = vec![row(&["a", "b"]), row(&["1"]), row(&["2", "3", "longest"])];
    assert_eq!(calculate_col_widths(&t), vec![1, 1]);
}

#[test]
fn format_simple_table() {
    let t = vec![row(&["a", "bb"]), row(&["---", "----"]), row(&["1", "22"])];
    let w = calculate_col_widths(&t);
    assert_eq!(
        format_table(&t, &w),
        "| a   | bb   |\n|:----|:-----|\n| --- | ---- |\n| 1   | 22   |\n"
    );
}

#[test]
fn format_multibyte_table_is_aligned() {
    let t = vec![row(&["café", "b"]), row(&["x", "yy"])];
    let w = calculate_col_widths(&t);
    assert_eq!(format_table(&t, &w), "| café | b  |\n|:-----|:---|\n| x    | yy |\n");
}

#[test]
fn format_ragged_rows() {
    let t = vec![row(&["a", "b"]), row(&["1"]), row(&["2", "3", "4"])];
    let w = calculate_col_widths(&t);
    assert_eq!(format_table(&t, &w), "| a | b |\n|:--|:--|\n| 1 |\n| 2 | 3 |\n");
}

#[test]
fn format_empty_table_is_empty() {
    let t: Vec<Vec<String>> = Vec::new();
    assert_eq!(format_table(&t, &[].to_vec()), "");
}

#[test]
fn format_document_keeps_other_lines() {
    let doc = "# T\n\n| a | bb |\n|---|----|\n| 1 | 22 |\n\nend\n";
    assert_eq!(
        format_all_tables_in_markdown(doc),
        "# T\n\n| a   | bb   |\n|:----|:-----|\n| --- | ---- |\n| 1   | 22   |\n\nend"
    );
}

#[test]
fn format_document_with_two_tables() {
    let doc = "|a|b|\n|c|dd|\ntext\n|e|\n|ff|";
    assert_eq!(
        format_all_tables_in_markdown(doc),
        "| a | b  |\n|:--|:---|\n| c | dd |\ntext\n| e  |\n|:---|\n| ff |"
    );
}

#[test]
fn format_document_without_tables_is_unchanged() {
    let doc = "hello\nworld\n";
    assert_eq!(format_all_tables_in_markdown(doc), doc);
    assert_eq!(format_all_tables_in_markdown(""), "");
}

#[test]
fn format_twice_without_tables_is_format_once() {
    let doc = "plain | text\n\nmore\n";
    let once = format_all_tables_in_markdown(doc);
    assert_eq!(format_all_tables_in_markdown(&once), once);
}

#[test]
fn format_document_with_unicode_table() {
    let doc = "| café | b |\n| x | yy |";
    assert_eq!(format_all_tables_in_markdown(doc), "| café | b  |\n|:-----|:---|\n| x    | yy |");
}

#[test]
fn cursor_in_table_ignores_column() {
    assert!(is_cursor_in_table(SIMPLE, 2, 1));
    assert!(is_cursor_in_table(SIMPLE, 2, 999));
    assert!(is_cursor_in_table(SIMPLE, 1, 0));
    assert!(is_cursor_in_table(SIMPLE, 3, 1));
}

#[test]
fn cursor_outside_table() {
    assert!(!is_cursor_in_table(SIMPLE, 4, 1));
    assert!(!is_cursor_in_table(SIMPLE, 0, 1));
    assert!(!is_cursor_in_table("text\n| a |\n| b |", 1, 1));
}

#[test]
fn format_at_position_outside_table_is_unchanged() {
    let doc = "intro\n| a | bb |\n| 1 | 2 |\n";
    assert_eq!(format_table_at_position(doc, 1, 1), doc);
}

#[test]
fn format_at_position_inside_table_formats_document() {
    let doc = "intro\n| a | bb |\n| 1 | 2 |\n";
    assert_eq!(format_table_at_position(doc, 2, 5), "intro\n| a | bb |\n|:--|:---|\n| 1 | 2  |");
}

#[test]
fn formatted_tables_with_spans() {
    let tables = get_formatted_tables(SIMPLE);
    assert_eq!(tables.len(), 1);
    assert_eq!(tables[0].0, "| a   | bb   |\n|:----|:-----|\n| --- | ---- |\n| 1   | 22   |\n");
    assert_eq!(
        tables[0].1,
        Span { start: Position { line: 1, column: 1 }, end: Position { line: 3, column: 10 } }
    );
}

#[test]
fn structural_extraction_finds_gfm_table() {
    let tables = extract_all_tables("| a | b |\n|---|---|\n| 1 | 2 |\n");
    assert_eq!(tables.len(), 1);
    assert_eq!(tables[0].1, Position { line: 1, column: 1 });
    assert_eq!(tables[0].0, vec![row(&["a", "b"]), row(&["1", "2"])]);
}

#[test]
fn structural_extraction_keeps_header_of_header_only_table() {
    let tables = extract_all_tables("| h1 | h2 |
|----|----|
");
    assert_eq!(tables.len(), 1);
    assert_eq!(tables[0].0, vec![row(&["h1", "h2"])]);
}

#[test]
fn structural_extraction_reports_start_position() {
    let tables = extract_all_tables("text\n\n| a | b |\n|---|---|\n| 1 | 2 |\n");
    assert_eq!(tables.len(), 1);
    assert_eq!(tables[0].1, Position { line: 3, column: 1 });
}

#[test]
fn structural_extraction_needs_separator_row() {
    assert!(extract_all_tables("| a | b |\n| 1 | 2 |\n").is_empty());
}
