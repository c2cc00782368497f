//! What a key pressed in the REPL pane does: the steps the front end takes,
//! in order, given whether the completion popup is shown and whether the
//! input still needs more lines.

use vstd::prelude::*;
use crate::delimiters::unclosed;
use crate::repl::{App, WorkspacePane};

verus! {

/// A key, as the terminal reports it.
#[derive(Debug, Clone, Copy, PartialEq, Eq, Structural)]
pub enum KeyCode {
    Char(char),
    Backspace,
    Delete,
    Left,
    Right,
    Up,
    Down,
    PageUp,
    PageDown,
    Home,
    End,
    Enter,
    Esc,
    Tab,
    BackTab,
    Other,
}

/// A key with the modifiers held down with it.
#[derive(Debug, Clone, Copy, PartialEq, Eq, Structural)]
pub struct KeyPress {
    pub code: KeyCode,
    pub control: bool,
    pub alt: bool,
    pub shift: bool,
}

/// A step the front end takes for a key.
#[derive(Debug, Clone, Copy, PartialEq, Eq, Structural)]
pub enum ReplCommand {
    /// Put the selected completion into the input.
    AcceptSuggestion,
    /// Select the next completion.
    NextSuggestion,
    /// Select the previous completion.
    PreviousSuggestion,
    /// Close the completion popup.
    HideSuggestions,
    /// Look for completions of the input.
    TriggerSuggestions,
    /// Move the cursor to the start of the input.
    CursorHome,
    /// Move the cursor to the end of the input.
    CursorEnd,
    /// Insert a character at the cursor.
    Insert(char),
    /// Delete the character before the cursor.
    DeleteBackward,
    /// Delete the character at the cursor.
    DeleteForward,
    /// Move the cursor one character left.
    CursorLeft,
    /// Move the cursor one character right.
    CursorRight,
    /// Recall the previous history entry.
    HistoryUp,
    /// Recall the next history entry.
    HistoryDown,
    /// Scroll the output up by this many lines.
    ScrollUp(u16),
    /// Scroll the output down by this many lines.
    ScrollDown(u16),
    /// Insert a line break and enter multi-line mode.
    Newline,
    /// Run the input.
    Submit,
}

/// How many lines a page key scrolls.
pub const PAGE_LINES: u16 = 10;

/// The steps for a key once the completion popup has had its turn.
pub open spec fn editing_plan(k: KeyPress, visible: bool, continues: bool) -> Seq<ReplCommand> {
    match k.code {
        KeyCode::Char(c) => if c == 'a' && k.control {
            seq![ReplCommand::CursorHome, ReplCommand::HideSuggestions]
        } else if c == 'e' && k.control {
            seq![ReplCommand::CursorEnd, ReplCommand::HideSuggestions]
        } else if (c == 'j' && k.control) || (c == 'm' && k.alt) {
            seq![ReplCommand::Insert('\n')]
        } else {
            seq![ReplCommand::Insert(c)]
        },
        KeyCode::Backspace => seq![ReplCommand::DeleteBackward],
        KeyCode::Delete => seq![ReplCommand::DeleteForward],
        KeyCode::Left => seq![ReplCommand::CursorLeft, ReplCommand::HideSuggestions],
        KeyCode::Right => seq![ReplCommand::CursorRight, ReplCommand::HideSuggestions],
        KeyCode::Up => seq![ReplCommand::HistoryUp, ReplCommand::HideSuggestions],
        KeyCode::Down => seq![ReplCommand::HistoryDown, ReplCommand::HideSuggestions],
        KeyCode::PageUp => seq![ReplCommand::ScrollUp(PAGE_LINES), ReplCommand::HideSuggestions],
        KeyCode::PageDown => seq![ReplCommand::ScrollDown(PAGE_LINES), ReplCommand::HideSuggestions],
        KeyCode::Home => seq![ReplCommand::CursorHome, ReplCommand::HideSuggestions],
        KeyCode::End => seq![ReplCommand::CursorEnd, ReplCommand::HideSuggestions],
        KeyCode::Enter => if k.alt || k.shift || continues {
            seq![ReplCommand::HideSuggestions, ReplCommand::Newline]
        } else if !visible {
            seq![ReplCommand::Submit]
        } else {
            Seq::empty()
        },
        KeyCode::Esc => seq![ReplCommand::HideSuggestions],
        _ => Seq::empty(),
    }
}

/// The steps for key `k`: while the popup is shown, Tab and a plain Enter
/// (one that would run the input) accept the selected completion, the
/// arrows move through the completions and Esc closes it; otherwise Tab
/// without Shift looks for completions. Every other key edits, moves,
/// scrolls, recalls history or runs the input.
pub open spec fn repl_key_plan(k: KeyPress, visible: bool, continues: bool) -> Seq<ReplCommand> {
    if visible {
        match k.code {
            KeyCode::Tab => seq![ReplCommand::AcceptSuggestion],
            KeyCode::Down => seq![ReplCommand::NextSuggestion],
            KeyCode::Up => seq![ReplCommand::PreviousSuggestion],
            KeyCode::Esc => seq![ReplCommand::HideSuggestions],
            KeyCode::Enter => if !k.alt && !k.shift && !continues {
                seq![ReplCommand::AcceptSuggestion]
            } else {
                editing_plan(k, visible, continues)
            },
            _ => editing_plan(k, visible, continues),
        }
    } else if k.code == KeyCode::Tab && !k.shift {
        seq![ReplCommand::TriggerSuggestions]
    } else {
        editing_plan(k, visible, continues)
    }
}

fn one(c: ReplCommand) -> (r: Vec<ReplCommand>)
    ensures
        r@ == seq![c],
{
    let mut v: Vec<ReplCommand> = Vec::new();
    v.push(c);
    proof {
        assert(v@ =~= seq![c]);
    }
    v
}

fn two(a: ReplCommand, b: ReplCommand) -> (r: Vec<ReplCommand>)
    ensures
        r@ == seq![a, b],
{
    let mut v: Vec<ReplCommand> = Vec::new();
    v.push(a);
    v.push(b);
    proof {
        assert(v@ =~= seq![a, b]);
    }
    v
}

/// The steps for a key once the completion popup has had its turn.
fn editing_steps(key: KeyPress, visible: bool, continues: bool) -> (r: Vec<ReplCommand>)
    ensures
        r@ == editing_plan(key, visible, continues),
{
    match key.code {
        KeyCode::Char(c) => {
            if c == 'a' && key.control {
                two(ReplCommand::CursorHome, ReplCommand::HideSuggestions)
            } else if c == 'e' && key.control {
                two(ReplCommand::CursorEnd, ReplCommand::HideSuggestions)
            } else if (c == 'j' && key.control) || (c == 'm' && key.alt) {
                one(ReplCommand::Insert('\n'))
            } else {
                one(ReplCommand::Insert(c))
            }
        },
        KeyCode::Backspace => one(ReplCommand::DeleteBackward),
        KeyCode::Delete => one(ReplCommand::DeleteForward),
        KeyCode::Left => two(ReplCommand::CursorLeft, ReplCommand::HideSuggestions),
        KeyCode::Right => two(ReplCommand::CursorRight, ReplCommand::HideSuggestions),
        KeyCode::Up => two(ReplCommand::HistoryUp, ReplCommand::HideSuggestions),
        KeyCode::Down => two(ReplCommand::HistoryDown, ReplCommand::HideSuggestions),
        KeyCode::PageUp => two(ReplCommand::ScrollUp(PAGE_LINES), ReplCommand::HideSuggestions),
        KeyCode::PageDown => two(ReplCommand::ScrollDown(PAGE_LINES), ReplCommand::HideSuggestions),
        KeyCode::Home => two(ReplCommand::CursorHome, ReplCommand::HideSuggestions),
        KeyCode::End => two(ReplCommand::CursorEnd, ReplCommand::HideSuggestions),
        KeyCode::Enter => {
            if key.alt || key.shift || continues {
                two(ReplCommand::HideSuggestions, ReplCommand::Newline)
            } else if !visible {
                one(ReplCommand::Submit)
            } else {
                Vec::new()
            }
        },
        KeyCode::Esc => one(ReplCommand::HideSuggestions),
        _ => Vec::new(),
    }
}

/// The steps for `key`, given whether the completion popup is shown and
/// whether the input needs more lines.
pub fn repl_key_steps(key: KeyPress, suggestions_visible: bool, continues: bool) -> (r: Vec<ReplCommand>)
    ensures
        r@ == repl_key_plan(key, suggestions_visible, continues),
{
    if suggestions_visible {
        match key.code {
            KeyCode::Tab => one(ReplCommand::AcceptSuggestion),
            KeyCode::Down => one(ReplCommand::NextSuggestion),
            KeyCode::Up => one(ReplCommand::PreviousSuggestion),
            KeyCode::Esc => one(ReplCommand::HideSuggestions),
            KeyCode::Enter => {
                if !key.alt && !key.shift && !continues {
                    one(ReplCommand::AcceptSuggestion)
                } else {
                    editing_steps(key, suggestions_visible, continues)
                }
            },
            _ => editing_steps(key, suggestions_visible, continues),
        }
    } else if key.code == KeyCode::Tab && !key.shift {
        one(ReplCommand::TriggerSuggestions)
    } else {
        editing_steps(key, suggestions_visible, continues)
    }
}

/// What the REPL pane does with `key`: the steps, decided on the input as
/// it stands (whether it needs more lines) and on whether the completion
/// popup is shown.
pub fn handle_repl_input(app: &App, key: KeyPress, suggestions_visible: bool) -> (r: Vec<ReplCommand>)
    requires
        app.input@.len() <= i64::MAX,
    ensures
        r@ == repl_key_plan(key, suggestions_visible, unclosed(app.input@)),
{
    let continues = app.should_continue_multiline();
    repl_key_steps(key, suggestions_visible, continues)
}

/// A mouse button.
#[derive(Debug, Clone, Copy, PartialEq, Eq, Structural)]
pub enum MouseButton {
    Left,
    Right,
    Middle,
}

/// What the mouse did.
#[derive(Debug, Clone, Copy, PartialEq, Eq, Structural)]
pub enum MouseKind {
    ScrollUp,
    ScrollDown,
    Down(MouseButton),
    Drag(MouseButton),
    Up(MouseButton),
    Other,
}

/// A mouse event at a cell of the screen, with whether Shift was held.
#[derive(Debug, Clone, Copy, PartialEq, Eq, Structural)]
pub struct MouseEvent {
    pub kind: MouseKind,
    pub column: u16,
    pub row: u16,
    pub shift: bool,
}

/// A rectangle of the screen.
#[derive(Debug, Clone, Copy, PartialEq, Eq, Structural)]
pub struct Area {
    pub x: u16,
    pub y: u16,
    pub width: u16,
    pub height: u16,
}

/// A step the front end takes for an event.
#[derive(Debug, Clone, Copy, PartialEq, Eq, Structural)]
pub enum AppStep {
    /// Leave the program.
    Quit,
    /// Copy the selected output to the clipboard.
    CopySelection,
    /// Move to the next pane.
    NextPane,
    /// Save the editor's file.
    SaveFile,
    /// Send the editor's current line to the REPL.
    SendCurrentLine,
    /// Send the editor's whole text to the REPL.
    SendAll,
    /// Hand the key to the editor.
    EditorInput,
    /// A step of the REPL pane.
    Repl(ReplCommand),
    /// Scroll the output up by this many lines.
    ScrollUp(u16),
    /// Scroll the output down by this many lines.
    ScrollDown(u16),
    /// Start selecting at this output line.
    StartSelection(usize),
    /// Click this output line.
    ClickOutput(usize),
    /// Remove the selection.
    ClearSelection,
    /// Move the end of the selection to this output line.
    UpdateSelection(usize),
    /// Stop dragging the selection.
    EndSelection,
}

/// How many lines the mouse wheel scrolls.
pub const WHEEL_LINES: u16 = 3;

/// The REPL steps as front end steps.
pub open spec fn as_app_steps(cs: Seq<ReplCommand>) -> Seq<AppStep> {
    cs.map_values(|c: ReplCommand| AppStep::Repl(c))
}

/// The steps for a key in the workspace: Shift+Tab changes pane, Ctrl+S
/// saves, Ctrl+E and Ctrl+R send the current line or the whole text to the
/// REPL; any other key goes to the active pane.
pub open spec fn workspace_plan(k: KeyPress, pane: WorkspacePane, visible: bool, continues: bool) -> Seq<AppStep> {
    if k.code == KeyCode::BackTab {
        seq![AppStep::NextPane]
    } else if k.code == KeyCode::Char('s') && k.control {
        seq![AppStep::SaveFile]
    } else if k.code == KeyCode::Char('e') && k.control {
        seq![AppStep::SendCurrentLine]
    } else if k.code == KeyCode::Char('r') && k.control {
        seq![AppStep::SendAll]
    } else {
        match pane {
            WorkspacePane::Editor => seq![AppStep::EditorInput],
            WorkspacePane::Repl => as_app_steps(repl_key_plan(k, visible, continues)),
            WorkspacePane::Preview => Seq::empty(),
        }
    }
}

/// The steps for a key press: Ctrl+C quits; Ctrl+Shift+C copies the
/// selection and then goes on as any key; every key then goes to the
/// workspace.
pub open spec fn key_plan(k: KeyPress, pane: WorkspacePane, visible: bool, continues: bool) -> Seq<AppStep> {
    if k.code == KeyCode::Char('c') && k.control {
        seq![AppStep::Quit]
    } else if k.code == KeyCode::Char('C') && k.control {
        seq![AppStep::CopySelection] + workspace_plan(k, pane, visible, continues)
    } else {
        workspace_plan(k, pane, visible, continues)
    }
}

/// The mouse selects (rather than clicks) with the right button, or the
/// left one with Shift.
pub open spec fn selects(b: MouseButton, shift: bool) -> bool {
    b == MouseButton::Right || (b == MouseButton::Left && shift)
}

/// The steps for a mouse event over the output area `area` (framed, so
/// its first row of text is one below its top), the output scrolled by
/// `scroll` lines: the wheel scrolls; a press selects or clicks the output
/// line under the mouse (a click also clears the selection); a drag moves
/// the selection; a release ends it. Events outside the area do nothing.
pub open spec fn mouse_plan(m: MouseEvent, area: Area, scroll: u16, selecting: bool) -> Seq<AppStep> {
    let inside = area.x <= m.column < area.x + area.width && area.y <= m.row < area.y + area.height;
    let line = (if m.row >= area.y + 1 { m.row - area.y - 1 } else { 0 }) + scroll;
    if !inside {
        Seq::empty()
    } else {
        match m.kind {
            MouseKind::ScrollUp => seq![AppStep::ScrollUp(WHEEL_LINES)],
            MouseKind::ScrollDown => seq![AppStep::ScrollDown(WHEEL_LINES)],
            MouseKind::Down(b) => if selects(b, m.shift) {
                seq![AppStep::StartSelection(line as usize)]
            } else {
                seq![AppStep::ClickOutput(line as usize), AppStep::ClearSelection]
            },
            MouseKind::Drag(b) => if selects(b, m.shift) {
                seq![AppStep::UpdateSelection(line as usize)]
            } else {
                Seq::empty()
            },
            MouseKind::Up(_) => if selecting { seq![AppStep::EndSelection] } else { Seq::empty() },
            MouseKind::Other => Seq::empty(),
        }
    }
}

fn one_step(a: AppStep) -> (r: Vec<AppStep>)
    ensures
        r@ == seq![a],
{
    let mut v: Vec<AppStep> = Vec::new();
    v.push(a);
    proof {
        assert(v@ =~= seq![a]);
    }
    v
}

/// The steps for a key in the workspace.
pub fn handle_workspace_input(app: &App, key: KeyPress, suggestions_visible: bool) -> (r: Vec<AppStep>)
    requires
        app.input@.len() <= i64::MAX,
    ensures
        r@ == workspace_plan(key, app.active_pane, suggestions_visible, unclosed(app.input@)),
{
    if key.code == KeyCode::BackTab {
        return one_step(AppStep::NextPane);
    }
    if key.control {
        if key.code == KeyCode::Char('s') {
            return one_step(AppStep::SaveFile);
        } else if key.code == KeyCode::Char('e') {
            return one_step(AppStep::SendCurrentLine);
        } else if key.code == KeyCode::Char('r') {
            return one_step(AppStep::SendAll);
        }
    }
    match app.active_pane {
        WorkspacePane::Editor => one_step(AppStep::EditorInput),
        WorkspacePane::Repl => {
            let cs = handle_repl_input(app, key, suggestions_visible);
            let mut out: Vec<AppStep> = Vec::new();
            let mut i: usize = 0;
            while i < cs.len()
                invariant
                    i <= cs@.len(),
                    out@ == as_app_steps(cs@.take(i as int)),
                decreases cs@.len() - i,
            {
                out.push(AppStep::Repl(cs[i]));
                proof {
                    assert(as_app_steps(cs@.take(i + 1)) =~= as_app_steps(cs@.take(i as int)).push(AppStep::Repl(cs@[i as int])));
                }
                i = i + 1;
            }
            proof {
                assert(cs@.take(cs@.len() as int) =~= cs@);
            }
            out
        },
        WorkspacePane::Preview => Vec::new(),
    }
}

/// The steps for a key press in the front end.
pub fn handle_key_press(app: &App, key: KeyPress, suggestions_visible: bool) -> (r: Vec<AppStep>)
    requires
        app.input@.len() <= i64::MAX,
    ensures
        r@ == key_plan(key, app.active_pane, suggestions_visible, unclosed(app.input@)),
{
    if key.control && key.code == KeyCode::Char('c') {
        return one_step(AppStep::Quit);
    }
    let rest = handle_workspace_input(app, key, suggestions_visible);
    if key.control && key.code == KeyCode::Char('C') {
        let mut out = one_step(AppStep::CopySelection);
        let mut i: usize = 0;
        while i < rest.len()
            invariant
                i <= rest@.len(),
                out@ == seq![AppStep::CopySelection] + rest@.take(i as int),
            decreases rest@.len() - i,
        {
            out.push(rest[i]);
            proof {
                assert(rest@.take(i + 1) =~= rest@.take(i as int).push(rest@[i as int]));
            }
            i = i + 1;
        }
        proof {
            assert(rest@.take(rest@.len() as int) =~= rest@);
        }
        return out;
    }
    rest
}

/// The steps for a mouse event.
pub fn handle_mouse(app: &App, m: MouseEvent, area: Area) -> (r: Vec<AppStep>)
    requires
        area.x + area.width <= u16::MAX,
        area.y + area.height <= u16::MAX,
    ensures
        r@ == mouse_plan(m, area, app.output_scroll_offset, app.is_selecting),
{
    if !(m.column >= area.x && m.column < area.x + area.width && m.row >= area.y && m.row < area.y + area.height) {
        return Vec::new();
    }
    let click_row = m.row.saturating_sub(area.y + 1);
    let line: usize = click_row as usize + app.output_scroll_offset as usize;
    match m.kind {
        MouseKind::ScrollUp => one_step(AppStep::ScrollUp(WHEEL_LINES)),
        MouseKind::ScrollDown => one_step(AppStep::ScrollDown(WHEEL_LINES)),
        MouseKind::Down(b) => {
            if b == MouseButton::Right || (b == MouseButton::Left && m.shift) {
                one_step(AppStep::StartSelection(line))
            } else {
                let mut v = one_step(AppStep::ClickOutput(line));
                v.push(AppStep::ClearSelection);
                proof {
                    assert(v@ =~= seq![AppStep::ClickOutput(line), AppStep::ClearSelection]);
                }
                v
            }
        },
        MouseKind::Drag(b) => {
            if b == MouseButton::Right || (b == MouseButton::Left && m.shift) {
                one_step(AppStep::UpdateSelection(line))
            } else {
                Vec::new()
            }
        },
        MouseKind::Up(_) => {
            if app.is_selecting {
                one_step(AppStep::EndSelection)
            } else {
                Vec::new()
            }
        },
        MouseKind::Other => Vec::new(),
    }
}

} // verus!
