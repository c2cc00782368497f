use lattice::tree::{ExpandedPaths, TreeNode, TreeValue};
use lattice::tree_render::{decimal_string, toggle_at_line, tree_to_lines, Piece, Tone};

fn leaf(key: &str, value: &str, path: &str) -> TreeNode {
    TreeNode { key: Some(key.to_string()), value: TreeValue::Primitive(value.to_string()), children: vec![], path: path.to_string() }
}

fn sample() -> TreeNode {
    TreeNode {
        key: None,
        value: TreeValue::MapNode { size: 2 },
        children: vec![
            leaf("name", "\"Ann\"", "name"),
            TreeNode {
                key: Some("tags".to_string()),
                value: TreeValue::List { size: 1 },
                children: vec![leaf("[0]", "\"x\"", "tags[0]")],
                path: "tags".to_string(),
            },
        ],
        path: "root".to_string(),
    }
}

fn text(line: &[Piece]) -> String {
    line.iter().map(|p| p.text.as_str()).collect()
}

#[test]
fn collapsed_root_shows_one_line_after_the_hint() {
    let lines = tree_to_lines(&sample(), &ExpandedPaths::new(), 80);
    assert_eq!(lines.len(), 2);
    assert_eq!(lines[0][0].tone, Tone::Hint);
    assert_eq!(text(&lines[1]), "└─ ▶ { 2 fields }");
}

#[test]
fn expanded_nodes_show_their_children() {
    let mut flags = ExpandedPaths::new();
    flags.insert("root".to_string(), true);
    flags.insert("tags".to_string(), true);
    let lines = tree_to_lines(&sample(), &flags, 80);
    let texts: Vec<String> = lines.iter().map(|l| text(l)).collect();
    assert_eq!(
        texts[1..].to_vec(),
        vec![
            "└─ ▼ { 2 fields }".to_string(),
            "├─   name: \"Ann\"".to_string(),
            "└─ ▼ tags: [ 1 items ]".to_string(),
            "└─   [0]: \"x\"".to_string(),
        ]
    );
}

#[test]
fn clicking_toggles_the_node_drawn_there() {
    let root = sample();
    let mut flags = ExpandedPaths::new();
    assert!(!toggle_at_line(&root, &mut flags, 0));
    assert!(toggle_at_line(&root, &mut flags, 1));
    assert!(flags.is_expanded("root"));
    assert!(toggle_at_line(&root, &mut flags, 3));
    assert!(flags.is_expanded("tags"));
    assert!(!toggle_at_line(&root, &mut flags, 9));
    assert!(toggle_at_line(&root, &mut flags, 1));
    assert!(!flags.is_expanded("root"));
}

#[test]
fn primitive_root_has_no_hint() {
    let lines = tree_to_lines(&leaf("k", "1", "k"), &ExpandedPaths::new(), 80);
    assert_eq!(lines.len(), 1);
    assert_eq!(text(&lines[0]), "└─   k: 1");
}

#[test]
fn decimal_text() {
    assert_eq!(decimal_string(0), "0");
    assert_eq!(decimal_string(407), "407");
    assert_eq!(decimal_string(usize::MAX), usize::MAX.to_string());
}

#[test]
fn test_tree_rendering() {
    let root = TreeNode {
        key: None,
        value: TreeValue::MapNode { size: 2 },
        children: vec![
            TreeNode {
                key: Some("name".to_string()),
                value: TreeValue::Primitive("\"Alice\"".to_string()),
                children: vec![],
                path: "name".to_string(),
            },
            TreeNode {
                key: Some("age".to_string()),
                value: TreeValue::Primitive("30".to_string()),
                children: vec![],
                path: "age".to_string(),
            },
        ],
        path: "root".to_string(),
    };

    let mut expanded = ExpandedPaths::new();
    expanded.insert("root".to_string(), true);

    let lines = tree_to_lines(&root, &expanded, 80);
    assert_eq!(lines.len(), 4); // hint line + root + 2 children
}
