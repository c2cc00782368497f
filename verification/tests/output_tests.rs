use lattice::output::{error_to_lines, text_to_lines, OutputItem};
use lattice::repl::{App, WorkspacePane};
use lattice::repl_pane::{prompt_lines, split_lines};
use lattice::tree::{ExpandedPaths, TreeNode, TreeValue};
use lattice::tree_render::{Piece, Tone};

fn text(line: &[Piece]) -> String {
    line.iter().map(|p| p.text.as_str()).collect()
}

fn texts(lines: &[Vec<Piece>]) -> Vec<String> {
    lines.iter().map(|l| text(l)).collect()
}

#[test]
fn text_is_wrapped_to_the_width() {
    let lines = text_to_lines("hello big world", 9);
    assert_eq!(texts(&lines), vec!["hello big", "world"]);
    assert_eq!(lines[0][0].tone, Tone::Plain);
}

#[test]
fn empty_text_draws_one_blank_line() {
    let lines = text_to_lines("", 10);
    assert_eq!(texts(&lines), vec![""]);
}

#[test]
fn errors_are_framed() {
    let lines = error_to_lines("bad thing", 12);
    assert_eq!(texts(&lines), vec!["┌──────────┐", "│ bad      │", "│ thing    │", "└──────────┘"]);
    assert!(lines.iter().all(|l| l.iter().all(|p| p.tone == Tone::Error)));
}

#[test]
fn items_dispatch_to_their_renderers() {
    let table = OutputItem::Table { columns: vec!["a".to_string()], rows: vec![], selected: None };
    assert_eq!(texts(&table.to_lines(40)).last().unwrap(), "(0 rows)");
    let tree = OutputItem::Tree {
        root: TreeNode { key: None, value: TreeValue::Primitive("1".to_string()), children: vec![], path: "r".to_string() },
        expanded_paths: ExpandedPaths::new(),
    };
    assert_eq!(texts(&tree.to_lines(40)), vec!["└─   1"]);
    let err = OutputItem::Error("x".to_string());
    assert_eq!(err.to_lines(6).len(), 3);
}

#[test]
fn lines_split_like_str_lines() {
    assert_eq!(split_lines("a\r\nb\n\nc\n"), vec!["a", "b", "", "c"]);
    assert_eq!(split_lines(""), Vec::<String>::new());
}

#[test]
fn prompt_marks_first_and_continued_lines() {
    let lines = prompt_lines("");
    assert_eq!(texts(&lines), vec!["flow> "]);
    let lines = prompt_lines("def f() {\n  1");
    assert_eq!(texts(&lines), vec!["flow> def f() {", "...>   1"]);
    assert_eq!(lines[1][0].tone, Tone::Prompt);
    assert_eq!(lines[1][1].tone, Tone::Input);
}

#[test]
fn pane_shows_artwork_before_any_output() {
    let mut app = App::new();
    let art = vec![vec![Piece { text: "ART".to_string(), tone: Tone::Hint }]];
    let pane = app.draw_repl_pane(&art, 40, 10);
    let drawn: Vec<String> = pane.lines.iter().map(|l| text(&l.pieces)).collect();
    assert_eq!(drawn, vec!["ART", "", "flow> "]);
    assert_eq!(pane.scroll, 0);
    assert!(!pane.scrollbar);
    assert_eq!(pane.cursor_line, None);
    assert_eq!(app.last_render_width, 38);
}

#[test]
fn pane_scrolls_to_the_end_and_marks_the_selection() {
    let mut app = App::new();
    for i in 0..6 {
        app.output.push(OutputItem::Text(format!("line {}", i)));
    }
    app.selection_start = Some(3);
    app.selection_end = Some(2);
    app.input = "ab".to_string();
    app.cursor_position = 2;
    let pane = app.draw_repl_pane(&vec![], 40, 6);
    assert_eq!(pane.lines.len(), 7);
    let marks: Vec<bool> = pane.lines.iter().map(|l| l.selected).collect();
    assert_eq!(marks, vec![false, false, true, true, false, false, false]);
    assert_eq!(pane.scroll, 3);
    assert_eq!(app.output_scroll_offset, 3);
    assert!(pane.scrollbar);
    assert_eq!(pane.cursor_line, Some(3));
}

#[test]
fn pane_keeps_a_manual_scroll_within_the_content() {
    let mut app = App::new();
    app.output.push(OutputItem::Text("one".to_string()));
    app.auto_scroll_output = false;
    app.output_scroll_offset = 50;
    app.active_pane = WorkspacePane::Editor;
    let pane = app.draw_repl_pane(&vec![], 40, 3);
    assert_eq!(pane.lines.len(), 1);
    assert_eq!(pane.scroll, 0);
    assert_eq!(pane.cursor_line, None);
}

#[test]
fn toggling_expansion_only_changes_trees() {
    let mut tree = OutputItem::Tree {
        root: TreeNode { key: None, value: TreeValue::MapNode { size: 0 }, children: vec![], path: "root".to_string() },
        expanded_paths: ExpandedPaths::new(),
    };
    assert!(!tree.is_expanded("root"));
    assert!(tree.toggle_expansion("root"));
    assert!(tree.is_expanded("root"));
    assert!(!tree.toggle_expansion("root"));
    let mut t = OutputItem::text("x".to_string());
    assert!(!t.toggle_expansion("root"));
    assert!(!t.is_expanded("root"));
    assert!(matches!(OutputItem::error("e".to_string()), OutputItem::Error(_)));
}
