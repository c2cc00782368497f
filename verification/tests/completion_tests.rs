use lattice::completion::{AutocompleteState, Suggestion};
use lattice::repl::App;

fn sug(label: &str, insert: &str) -> Suggestion {
    Suggestion { label: label.to_string(), insert_text: insert.to_string() }
}

#[test]
fn selection_wraps_both_ways() {
    let mut s = AutocompleteState::new();
    assert!(!s.is_visible());
    s.update(vec![sug("a", "a"), sug("b", "b"), sug("c", "c")]);
    assert!(s.is_visible());
    assert_eq!(s.selected_index, 0);
    s.select_previous();
    assert_eq!(s.selected_index, 2);
    s.select_next();
    assert_eq!(s.selected_index, 0);
    s.select_next();
    assert_eq!(s.get_selected().unwrap().label, "b");
    s.hide_popup();
    assert!(!s.is_visible());
    assert!(s.get_selected().is_none());
}

#[test]
fn nothing_found_keeps_the_popup_closed() {
    let mut s = AutocompleteState::new();
    s.update(vec![]);
    assert!(!s.is_visible());
    s.select_next();
    assert_eq!(s.selected_index, 0);
}

#[test]
fn accepting_replaces_the_word_before_the_cursor() {
    let mut app = App::new();
    app.input = "let x = Up rest".to_string();
    app.cursor_position = 10;
    app.trigger_autocomplete(vec![sug("Upper", "Upper(")]);
    assert!(app.is_autocomplete_visible());
    app.accept_autocomplete();
    assert_eq!(app.input, "let x = Upper( rest");
    assert_eq!(app.cursor_position, 14);
    assert!(!app.is_autocomplete_visible());
}

#[test]
fn words_include_colons_and_underscores() {
    let mut app = App::new();
    app.input = "x(Color::Re".to_string();
    app.cursor_position = app.input.len();
    app.trigger_autocomplete(vec![sug("Color::Red", "Color::Red")]);
    app.accept_autocomplete();
    assert_eq!(app.input, "x(Color::Red");
    assert_eq!(app.cursor_position, app.input.len());
}

#[test]
fn multiline_mode_closes_the_popup() {
    let mut app = App::new();
    app.multiline_mode = true;
    app.trigger_autocomplete(vec![sug("a", "a")]);
    assert!(!app.is_autocomplete_visible());
    app.accept_autocomplete();
    assert_eq!(app.input, "");
}

#[test]
fn unicode_words_are_replaced_whole() {
    let mut app = App::new();
    app.input = "你好".to_string();
    app.cursor_position = 6;
    app.trigger_autocomplete(vec![sug("你好吗", "你好吗")]);
    app.accept_autocomplete();
    assert_eq!(app.input, "你好吗");
    assert_eq!(app.cursor_position, 9);
}
