use lattice::keys::{handle_repl_input, repl_key_steps, KeyCode, KeyPress, ReplCommand};
use lattice::repl::App;

fn key(code: KeyCode) -> KeyPress {
    KeyPress { code, control: false, alt: false, shift: false }
}

fn ctrl(c: char) -> KeyPress {
    KeyPress { code: KeyCode::Char(c), control: true, alt: false, shift: false }
}

#[test]
fn typing_inserts_the_character() {
    assert_eq!(repl_key_steps(key(KeyCode::Char('x')), false, false), vec![ReplCommand::Insert('x')]);
}

#[test]
fn control_keys_move_to_the_ends() {
    assert_eq!(
        repl_key_steps(ctrl('a'), false, false),
        vec![ReplCommand::CursorHome, ReplCommand::HideSuggestions]
    );
    assert_eq!(repl_key_steps(ctrl('e'), true, false), vec![ReplCommand::CursorEnd, ReplCommand::HideSuggestions]);
    assert_eq!(repl_key_steps(ctrl('j'), false, false), vec![ReplCommand::Insert('\n')]);
    let alt_m = KeyPress { code: KeyCode::Char('m'), control: false, alt: true, shift: false };
    assert_eq!(repl_key_steps(alt_m, false, false), vec![ReplCommand::Insert('\n')]);
}

#[test]
fn tab_triggers_or_accepts_completions() {
    assert_eq!(repl_key_steps(key(KeyCode::Tab), false, false), vec![ReplCommand::TriggerSuggestions]);
    assert_eq!(repl_key_steps(key(KeyCode::Tab), true, false), vec![ReplCommand::AcceptSuggestion]);
    let shift_tab = KeyPress { code: KeyCode::Tab, control: false, alt: false, shift: true };
    assert_eq!(repl_key_steps(shift_tab, false, false), Vec::<ReplCommand>::new());
}

#[test]
fn arrows_browse_completions_or_history() {
    assert_eq!(repl_key_steps(key(KeyCode::Down), true, false), vec![ReplCommand::NextSuggestion]);
    assert_eq!(repl_key_steps(key(KeyCode::Up), true, false), vec![ReplCommand::PreviousSuggestion]);
    assert_eq!(
        repl_key_steps(key(KeyCode::Up), false, false),
        vec![ReplCommand::HistoryUp, ReplCommand::HideSuggestions]
    );
    assert_eq!(
        repl_key_steps(key(KeyCode::PageDown), false, false),
        vec![ReplCommand::ScrollDown(10), ReplCommand::HideSuggestions]
    );
}

#[test]
fn enter_submits_accepts_or_continues() {
    assert_eq!(repl_key_steps(key(KeyCode::Enter), false, false), vec![ReplCommand::Submit]);
    assert_eq!(repl_key_steps(key(KeyCode::Enter), true, false), vec![ReplCommand::AcceptSuggestion]);
    assert_eq!(
        repl_key_steps(key(KeyCode::Enter), true, true),
        vec![ReplCommand::HideSuggestions, ReplCommand::Newline]
    );
    let shift_enter = KeyPress { code: KeyCode::Enter, control: false, alt: false, shift: true };
    assert_eq!(
        repl_key_steps(shift_enter, false, false),
        vec![ReplCommand::HideSuggestions, ReplCommand::Newline]
    );
}

#[test]
fn open_brace_makes_enter_continue() {
    let mut app = App::new();
    app.input = "def f() {".to_string();
    app.cursor_position = app.input.len();
    assert_eq!(
        handle_repl_input(&app, key(KeyCode::Enter), false),
        vec![ReplCommand::HideSuggestions, ReplCommand::Newline]
    );
    app.input = "x = 1".to_string();
    app.cursor_position = app.input.len();
    assert_eq!(handle_repl_input(&app, key(KeyCode::Enter), false), vec![ReplCommand::Submit]);
}

use lattice::keys::{handle_key_press, handle_mouse, handle_workspace_input, AppStep, Area, MouseButton, MouseEvent, MouseKind};
use lattice::repl::WorkspacePane;

fn area() -> Area {
    Area { x: 0, y: 2, width: 40, height: 10 }
}

fn mouse(kind: MouseKind, row: u16, shift: bool) -> MouseEvent {
    MouseEvent { kind, column: 5, row, shift }
}

#[test]
fn ctrl_c_quits_and_ctrl_shift_c_copies() {
    let app = App::new();
    assert_eq!(handle_key_press(&app, ctrl('c'), false), vec![AppStep::Quit]);
    assert_eq!(
        handle_key_press(&app, ctrl('C'), false),
        vec![AppStep::CopySelection, AppStep::Repl(ReplCommand::Insert('C'))]
    );
}

#[test]
fn workspace_keys_act_before_the_pane() {
    let mut app = App::new();
    assert_eq!(handle_workspace_input(&app, key(KeyCode::BackTab), false), vec![AppStep::NextPane]);
    assert_eq!(handle_workspace_input(&app, ctrl('s'), false), vec![AppStep::SaveFile]);
    assert_eq!(handle_workspace_input(&app, ctrl('e'), false), vec![AppStep::SendCurrentLine]);
    assert_eq!(handle_workspace_input(&app, ctrl('r'), false), vec![AppStep::SendAll]);
    app.active_pane = WorkspacePane::Editor;
    assert_eq!(handle_workspace_input(&app, key(KeyCode::Char('x')), false), vec![AppStep::EditorInput]);
    app.active_pane = WorkspacePane::Preview;
    assert_eq!(handle_workspace_input(&app, key(KeyCode::Char('x')), false), Vec::<AppStep>::new());
}

#[test]
fn mouse_clicks_select_or_click_output_lines() {
    let mut app = App::new();
    app.output_scroll_offset = 4;
    assert_eq!(handle_mouse(&app, mouse(MouseKind::ScrollUp, 5, false), area()), vec![AppStep::ScrollUp(3)]);
    assert_eq!(
        handle_mouse(&app, mouse(MouseKind::Down(MouseButton::Left), 5, false), area()),
        vec![AppStep::ClickOutput(6), AppStep::ClearSelection]
    );
    assert_eq!(
        handle_mouse(&app, mouse(MouseKind::Down(MouseButton::Right), 3, false), area()),
        vec![AppStep::StartSelection(4)]
    );
    assert_eq!(
        handle_mouse(&app, mouse(MouseKind::Drag(MouseButton::Left), 7, true), area()),
        vec![AppStep::UpdateSelection(8)]
    );
    assert_eq!(handle_mouse(&app, mouse(MouseKind::Up(MouseButton::Left), 7, false), area()), Vec::<AppStep>::new());
    app.is_selecting = true;
    assert_eq!(
        handle_mouse(&app, mouse(MouseKind::Up(MouseButton::Left), 7, false), area()),
        vec![AppStep::EndSelection]
    );
}

#[test]
fn mouse_outside_the_output_does_nothing() {
    let app = App::new();
    assert_eq!(handle_mouse(&app, mouse(MouseKind::ScrollDown, 1, false), area()), Vec::<AppStep>::new());
    assert_eq!(handle_mouse(&app, mouse(MouseKind::ScrollDown, 12, false), area()), Vec::<AppStep>::new());
}
