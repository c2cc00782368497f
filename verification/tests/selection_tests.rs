use lattice::cli::OutputFormat;
use lattice::repl::App;
use lattice::selection::locate_output_line;

fn lines(v: &[&str]) -> Vec<String> {
    v.iter().map(|s| s.to_string()).collect()
}

#[test]
fn selection_in_either_direction() {
    let mut app = App::new();
    let out = lines(&["a", "b", "c", "d"]);
    assert_eq!(app.get_selected_text(&out), None);
    app.start_selection(2);
    app.update_selection(0);
    app.end_selection();
    app.update_selection(3);
    assert_eq!(app.get_selected_text(&out), Some("a\nb\nc".to_string()));
    app.start_selection(3);
    app.update_selection(9);
    assert_eq!(app.get_selected_text(&out), Some("d".to_string()));
    app.start_selection(7);
    assert_eq!(app.get_selected_text(&out), None);
    app.clear_selection();
    assert_eq!(app.selection_start, None);
    assert!(!app.is_selecting);
}

#[test]
fn clicks_find_their_item() {
    let heights = vec![2, 0, 3];
    assert_eq!(locate_output_line(&heights, 0), Some((0, 0)));
    assert_eq!(locate_output_line(&heights, 1), Some((0, 1)));
    assert_eq!(locate_output_line(&heights, 2), Some((2, 0)));
    assert_eq!(locate_output_line(&heights, 4), Some((2, 2)));
    assert_eq!(locate_output_line(&heights, 5), None);
}

#[test]
fn default_output_format_is_pretty() {
    assert_eq!(OutputFormat::default(), OutputFormat::Pretty);
}

use lattice::output::OutputItem;
use lattice::tree::{ExpandedPaths, TreeNode, TreeValue};

fn small_tree() -> OutputItem {
    let leaf = TreeNode {
        key: Some("a".to_string()),
        value: TreeValue::Primitive("1".to_string()),
        children: vec![],
        path: "a".to_string(),
    };
    OutputItem::Tree {
        root: TreeNode { key: None, value: TreeValue::MapNode { size: 1 }, children: vec![leaf], path: "root".to_string() },
        expanded_paths: ExpandedPaths::new(),
    }
}

#[test]
fn clicking_a_tree_node_flips_it() {
    let mut app = App::new();
    app.output.push(OutputItem::Text("hello".to_string()));
    app.output.push(small_tree());
    // Line 0 is the text, line 1 the tree's hint, line 2 its root.
    app.handle_output_click(2, 5);
    assert_eq!(app.focused_output_index, Some(1));
    assert!(!app.auto_scroll_output);
    match &app.output[1] {
        OutputItem::Tree { expanded_paths, .. } => assert!(expanded_paths.is_expanded("root")),
        _ => panic!("the tree stays a tree"),
    }
    assert_eq!(app.output[1].to_lines(80).len(), 3);
}

#[test]
fn clicking_text_only_focuses_it() {
    let mut app = App::new();
    app.output.push(OutputItem::Text("hello".to_string()));
    app.handle_output_click(0, 5);
    assert_eq!(app.focused_output_index, Some(0));
    assert!(app.auto_scroll_output);
    app.handle_output_click(9, 5);
    assert_eq!(app.focused_output_index, Some(0));
}

#[test]
fn clicks_on_the_artwork_change_nothing() {
    let mut app = App::new();
    app.handle_output_click(3, 5);
    assert_eq!(app.focused_output_index, None);
}

#[test]
fn a_second_click_on_the_same_line_restores_the_tree() {
    let mut app = App::new();
    app.output.push(small_tree());
    let before = app.output[0].to_lines(80).len();
    app.handle_output_click(1, 5);
    assert_eq!(app.output[0].to_lines(80).len(), before + 1);
    app.handle_output_click(1, 5);
    assert_eq!(app.output[0].to_lines(80).len(), before);
    assert!(!app.output[0].is_expanded("root"));
}
