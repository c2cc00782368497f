use lattice::repl::App;

fn editor_with(lines: &[&str], row: usize, col: usize) -> App {
    let mut app = App::new();
    app.editor_lines = lines.iter().map(|s| s.to_string()).collect();
    app.editor_cursor_row = row;
    app.editor_cursor_col = col;
    app
}

#[test]
fn typing_and_breaking_lines() {
    let mut app = App::new();
    for c in "let x".chars() {
        app.editor_insert_char(c);
    }
    assert_eq!(app.editor_lines, vec!["let x".to_string()]);
    app.editor_move_left();
    app.editor_insert_newline();
    assert_eq!(app.editor_lines, vec!["let ".to_string(), "x".to_string()]);
    assert_eq!((app.editor_cursor_row, app.editor_cursor_col), (1, 0));
    assert_eq!(app.editor_get_content(), "let \nx");
}

#[test]
fn insert_clamps_the_column_and_adds_a_row() {
    let mut app = editor_with(&["ab"], 0, 9);
    app.editor_insert_char('c');
    assert_eq!(app.editor_lines, vec!["abc".to_string()]);
    assert_eq!(app.editor_cursor_col, 3);
    let mut app = editor_with(&["ab"], 1, 0);
    app.editor_insert_char('z');
    assert_eq!(app.editor_lines, vec!["ab".to_string(), "z".to_string()]);
    let mut app = editor_with(&[], 5, 5);
    app.editor_insert_char('q');
    assert_eq!(app.editor_lines, vec!["q".to_string()]);
    assert_eq!((app.editor_cursor_row, app.editor_cursor_col), (0, 1));
}

#[test]
fn backspace_joins_lines() {
    let mut app = editor_with(&["ab", "cd"], 1, 0);
    app.editor_delete_char();
    assert_eq!(app.editor_lines, vec!["abcd".to_string()]);
    assert_eq!((app.editor_cursor_row, app.editor_cursor_col), (0, 2));
    app.editor_delete_char();
    assert_eq!(app.editor_lines, vec!["acd".to_string()]);
    assert_eq!(app.editor_cursor_col, 1);
    let mut app = editor_with(&["x"], 0, 0);
    app.editor_delete_char();
    assert_eq!(app.editor_lines, vec!["x".to_string()]);
}

#[test]
fn moving_between_lines() {
    let mut app = editor_with(&["long line", "ab", "xyz"], 0, 7);
    app.editor_move_down();
    assert_eq!((app.editor_cursor_row, app.editor_cursor_col), (1, 2));
    app.editor_move_right();
    assert_eq!((app.editor_cursor_row, app.editor_cursor_col), (2, 0));
    app.editor_move_left();
    assert_eq!((app.editor_cursor_row, app.editor_cursor_col), (1, 2));
    app.editor_move_up();
    assert_eq!((app.editor_cursor_row, app.editor_cursor_col), (0, 2));
    app.editor_move_up();
    assert_eq!((app.editor_cursor_row, app.editor_cursor_col), (0, 2));
    let mut app = editor_with(&["ab"], 0, 2);
    app.editor_move_right();
    app.editor_move_down();
    assert_eq!((app.editor_cursor_row, app.editor_cursor_col), (0, 2));
}

#[test]
fn newline_below_the_last_line() {
    let mut app = editor_with(&["a"], 1, 3);
    app.editor_insert_newline();
    assert_eq!(app.editor_lines, vec!["a".to_string(), String::new()]);
    assert_eq!((app.editor_cursor_row, app.editor_cursor_col), (2, 0));
}
