use lattice::output::OutputItem;
use lattice::repl::App;
use lattice::submit::{EvalResult, SubmitStep};

fn texts(items: &[OutputItem]) -> Vec<String> {
    items
        .iter()
        .map(|i| match i {
            OutputItem::Text(s) => s.clone(),
            OutputItem::Error(s) => format!("error: {}", s),
            _ => "<item>".to_string(),
        })
        .collect()
}

fn typed(app: &mut App, s: &str) {
    app.input = s.to_string();
    app.cursor_position = s.len();
}

#[test]
fn empty_input_does_nothing() {
    let mut app = App::new();
    assert!(matches!(app.submit_input(&vec![]), SubmitStep::Empty));
    assert!(app.output.is_empty());
    assert!(app.show_banner);
}

#[test]
fn expressions_are_echoed_recorded_and_handed_on() {
    let mut app = App::new();
    typed(&mut app, "1 + 2");
    match app.submit_input(&vec![]) {
        SubmitStep::Evaluate { text, save_history } => {
            assert_eq!(text, "1 + 2");
            assert!(save_history);
        }
        other => panic!("expected an evaluation, got {:?}", other),
    }
    assert_eq!(texts(&app.output), vec!["flow> 1 + 2"]);
    assert_eq!(app.history, vec!["1 + 2".to_string()]);
    assert!(app.is_loading);
    assert!(!app.show_banner);
    app.show_result(EvalResult::Value {
        value_type: "Int".to_string(),
        bound: None,
        item: OutputItem::Text("3".to_string()),
    });
    assert_eq!(texts(&app.output), vec!["flow> 1 + 2", "✓ Int", "3", ""]);
    assert!(!app.is_loading);
    assert_eq!(app.input, "");
    assert_eq!(app.cursor_position, 0);
}

#[test]
fn repeated_input_is_not_recorded_twice() {
    let mut app = App::new();
    typed(&mut app, "x");
    app.submit_input(&vec![]);
    app.show_result(EvalResult::Failure("unknown name x".to_string()));
    assert_eq!(texts(&app.output), vec!["flow> x", "error: unknown name x", ""]);
    typed(&mut app, "x");
    match app.submit_input(&vec![]) {
        SubmitStep::Evaluate { save_history, .. } => assert!(!save_history),
        other => panic!("expected an evaluation, got {:?}", other),
    }
    assert_eq!(app.history.len(), 1);
}

#[test]
fn bound_results_name_their_variable() {
    let mut app = App::new();
    typed(&mut app, "let y = 5");
    app.submit_input(&vec![]);
    app.show_result(EvalResult::Value {
        value_type: "Int".to_string(),
        bound: Some("y".to_string()),
        item: OutputItem::Text("5".to_string()),
    });
    assert_eq!(texts(&app.output)[1], "✓ Bound 'y' : Int");
}

#[test]
fn multiline_input_is_echoed_indented() {
    let mut app = App::new();
    typed(&mut app, "def f() {\n1\n}");
    app.submit_input(&vec![]);
    assert_eq!(texts(&app.output), vec!["flow> \n  def f() {\n  1\n  }\n"]);
}

#[test]
fn front_end_commands_are_carried_out() {
    let mut app = App::new();
    typed(&mut app, " :help ");
    let step = app.submit_input(&vec!["Help".to_string(), "me".to_string()]);
    assert!(matches!(step, SubmitStep::Handled { save_history: true }));
    assert_eq!(texts(&app.output), vec!["flow>  :help ", "Help\nme", ""]);
    assert_eq!(app.input, "");

    typed(&mut app, ":clear");
    app.output_scroll_offset = 4;
    app.submit_input(&vec![]);
    assert!(app.output.is_empty());
    assert_eq!(app.output_scroll_offset, 0);

    typed(&mut app, ":quit");
    app.submit_input(&vec![]);
    assert!(app.should_quit);
    assert_eq!(texts(&app.output), vec!["flow> :quit"]);
}
