use lattice::table_render::table_to_lines;
use lattice::tree_render::{Piece, Tone};

fn text(line: &[Piece]) -> String {
    line.iter().map(|p| p.text.as_str()).collect()
}

fn strings(items: &[&str]) -> Vec<String> {
    items.iter().map(|s| s.to_string()).collect()
}

#[test]
fn empty_headings_draw_a_note() {
    let lines = table_to_lines(&vec![], &vec![], None, 80);
    assert_eq!(lines.len(), 1);
    assert_eq!(text(&lines[0]), "(empty table)");
    assert_eq!(lines[0][0].tone, Tone::Plain);
}

#[test]
fn small_table_is_framed_and_counted() {
    let columns = strings(&["id", "name"]);
    let rows = vec![strings(&["1", "Ann"]), strings(&["22", "Bo"])];
    let lines = table_to_lines(&columns, &rows, None, 80);
    let drawn: Vec<String> = lines.iter().map(|l| text(l)).collect();
    assert_eq!(
        drawn,
        vec![
            "┌────┬──────┐",
            "│ id │ name │",
            "├────┼──────┤",
            "│ 1  │ Ann  │",
            "│ 22 │ Bo   │",
            "└────┴──────┘",
            "(2 rows)",
        ]
    );
    assert_eq!(lines[0][0].tone, Tone::Border);
    assert_eq!(lines[1][1].tone, Tone::Heading);
    assert_eq!(lines[3][1].tone, Tone::Plain);
    assert_eq!(lines[6][0].tone, Tone::Note);
}

#[test]
fn selected_row_is_highlighted() {
    let columns = strings(&["a"]);
    let rows = vec![strings(&["x"]), strings(&["y"])];
    let lines = table_to_lines(&columns, &rows, Some(1), 80);
    assert_eq!(lines[3][1].tone, Tone::Plain);
    assert_eq!(lines[4][1].tone, Tone::Selected);
    assert_eq!(lines[4][0].tone, Tone::Border);
}

#[test]
fn long_cells_are_cut_and_columns_capped() {
    let long = "abcdefghijklmnopqrstuvwxyz0123456789";
    let columns = strings(&["c"]);
    let rows = vec![strings(&[long])];
    let lines = table_to_lines(&columns, &rows, None, 80);
    assert_eq!(text(&lines[0]), format!("┌{}┐", "─".repeat(32)));
    assert_eq!(text(&lines[1]), format!("│ c{} │", " ".repeat(29)));
    assert_eq!(text(&lines[3]), "│ abcdefghijklmnopqrstuvwxyz0... │");
}

#[test]
fn extra_cells_without_a_column_are_dropped() {
    let columns = strings(&["k"]);
    let rows = vec![strings(&["1", "2", "3"])];
    let lines = table_to_lines(&columns, &rows, None, 80);
    assert_eq!(text(&lines[3]), "│ 1 │");
}

#[test]
fn only_twenty_rows_are_drawn() {
    let columns = strings(&["n"]);
    let rows: Vec<Vec<String>> = (0..25).map(|i| vec![i.to_string()]).collect();
    let lines = table_to_lines(&columns, &rows, None, 80);
    assert_eq!(lines.len(), 3 + 20 + 2);
    assert_eq!(text(&lines[24]), "(20 rows shown, 25 total)");
    assert_eq!(text(&lines[22]), "│ 19 │");
}

#[test]
fn rows_line_up_with_the_frame() {
    let columns = strings(&["name", "n"]);
    let rows = vec![strings(&["é", "1"]), strings(&["abcdef", "22"])];
    let lines = table_to_lines(&columns, &rows, Some(0), 80);
    let width = text(&lines[0]).chars().count();
    for i in [2, 3, 4, 5] {
        assert_eq!(text(&lines[i]).chars().count(), width);
    }
    assert_eq!(text(&lines[3]), "│ é      │ 1  │");
}
