use lattice::repl::App;

fn blocks(content: &str) -> Vec<String> {
    App::new().split_into_blocks(content)
}

#[test]
fn definitions_and_lines() {
    let content = "// setup\ntype Person {\n  name: String\n}\n\nlet p = 1\ndef f(x: Int) -> Int {\n  x + 1\n}\nf(2)\n";
    assert_eq!(
        blocks(content),
        vec![
            "type Person {\n  name: String\n}".to_string(),
            "let p = 1".to_string(),
            "def f(x: Int) -> Int {\n  x + 1\n}".to_string(),
            "f(2)".to_string(),
        ]
    );
}

#[test]
fn unfinished_definition_is_kept() {
    assert_eq!(blocks("enum Color {\n  Red,\n"), vec!["enum Color {\n  Red,".to_string()]);
}

#[test]
fn new_definition_ends_an_open_one() {
    assert_eq!(
        blocks("type A {\ntype B { x: Int }"),
        vec!["type A {".to_string(), "type B { x: Int }".to_string()]
    );
}

#[test]
fn crlf_lines_and_blank_input() {
    assert_eq!(blocks("a\r\n  b  \r\n"), vec!["a".to_string(), "b".to_string()]);
    assert!(blocks("").is_empty());
    assert!(blocks("\n   \n// only comments\n").is_empty());
}

#[test]
fn single_line_definition() {
    assert_eq!(blocks("def g() { 1 }\ng()"), vec!["def g() { 1 }".to_string(), "g()".to_string()]);
}

use lattice::blocks::workflow_steps;

#[test]
fn current_line_is_loaded_when_worth_sending() {
    let mut app = App::new();
    app.editor_lines = vec!["// note".to_string(), "  x = 1  ".to_string()];
    app.editor_cursor_row = 0;
    assert!(!app.load_current_line());
    assert_eq!(app.input, "");
    app.editor_cursor_row = 1;
    assert!(app.load_current_line());
    assert_eq!(app.input, "  x = 1  ");
    assert_eq!(app.cursor_position, 9);
    app.editor_cursor_row = 5;
    assert!(!app.load_current_line());
}

#[test]
fn blocks_to_send_skip_blank_text() {
    let mut app = App::new();
    app.editor_lines = vec!["   ".to_string()];
    assert!(app.blocks_to_send().is_empty());
    app.editor_lines = vec!["def f() {".to_string(), "  1".to_string(), "}".to_string(), "f()".to_string()];
    assert_eq!(app.blocks_to_send(), vec!["def f() {\n  1\n}".to_string(), "f()".to_string()]);
}

#[test]
fn workflow_steps_are_named_and_numbered() {
    assert_eq!(workflow_steps("  \n ").unwrap_err(), "Editor is empty");
    let long = "x".repeat(60);
    let steps = workflow_steps(&format!("a = 1\n// skip\n\n  b  \n{}", long)).unwrap();
    assert_eq!(steps.len(), 3);
    assert_eq!(steps[0].name, "Step 1: a = 1");
    assert_eq!(steps[1].line, "b");
    assert_eq!(steps[1].name, "Step 2: b");
    assert_eq!(steps[2].name, format!("Step 3: {}...", "x".repeat(47)));
}
