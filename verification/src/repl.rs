//! The editing state of the interactive front end: the input line with its
//! cursor, the history of submitted lines, the scroll state and the panes.
//!
//! The cursor is a byte offset into the UTF-8 encoding of the input and is
//! always at a character boundary, so multi-byte characters are inserted,
//! deleted and crossed whole.

use vstd::prelude::*;
use crate::text::{
    byte_len, char_index_at, char_width, chars_of, is_boundary, lemma_encode_concat, lemma_utf8_len_full,
    lemma_utf8_len_monotone, lemma_utf8_len_step, string_from_chars, trim_start_chars, utf8_len, utf8_width,
};
use crate::completion::AutocompleteState;
use crate::output::OutputItem;
use crate::delimiters::{has_unclosed_delimiters, unclosed, starts_with_chars};

verus! {

/// The layout of the front end.
#[derive(Debug, Clone, PartialEq, Eq, Structural)]
pub enum Mode {
    Repl,
    Workspace,
    TypeExplorer,
}

/// A pane of the workspace layout.
#[derive(Debug, Clone, PartialEq, Eq, Structural)]
pub enum WorkspacePane {
    Editor,
    Repl,
    Preview,
}

/// The state of a step of a workflow run.
#[derive(Debug, Clone)]
pub enum StepStatus {
    Pending,
    Running,
    Complete,
    Error(String),
}

/// The editing state of the front end.
pub struct App {
    pub mode: Mode,
    pub active_pane: WorkspacePane,
    pub input: String,
    pub output: Vec<OutputItem>,
    pub show_banner: bool,
    pub is_loading: bool,
    pub cursor_position: usize,
    pub output_scroll_offset: u16,
    pub auto_scroll_output: bool,
    pub multiline_mode: bool,
    pub history: Vec<String>,
    pub history_index: Option<usize>,
    pub history_temp: String,
    pub should_quit: bool,
    pub editor_lines: Vec<String>,
    pub editor_cursor_row: usize,
    pub editor_cursor_col: usize,
    pub editor_scroll_offset: usize,
    pub editor_file_path: Option<String>,
    pub selection_start: Option<usize>,
    pub selection_end: Option<usize>,
    pub is_selecting: bool,
    pub last_render_width: usize,
    pub focused_output_index: Option<usize>,
    pub autocomplete: AutocompleteState,
}

/// `s` with `c` inserted before its `k`-th character.
pub open spec fn with_char(s: Seq<char>, k: int, c: char) -> Seq<char> {
    s.take(k) + seq![c] + s.skip(k)
}

/// `s` without its `k`-th character.
pub open spec fn without_char(s: Seq<char>, k: int) -> Seq<char> {
    s.take(k) + s.skip(k + 1)
}

/// The pane that `next_pane` moves to from `p`.
pub open spec fn pane_after(p: WorkspacePane) -> WorkspacePane {
    match p {
        WorkspacePane::Editor => WorkspacePane::Repl,
        WorkspacePane::Repl => WorkspacePane::Editor,
        WorkspacePane::Preview => WorkspacePane::Editor,
    }
}

/// The scroll offset after scrolling up by `lines` from `offset`.
pub open spec fn scrolled_up(offset: u16, lines: u16) -> u16 {
    if offset >= lines { (offset - lines) as u16 } else { 0 }
}

/// The character index of the cursor: the number of characters before it.
pub open spec fn cursor_chars(s: Seq<char>, pos: int) -> int {
    choose|k: int| 0 <= k <= s.len() && #[trigger] utf8_len(s.take(k)) == pos
}

impl App {
    /// The cursor is at a character boundary of the input and a history
    /// position names an entry.
    pub open spec fn wf(&self) -> bool {
        &&& is_boundary(self.input@, self.cursor_position as int)
        &&& (self.history_index matches Some(i) ==> i < self.history@.len())
    }

    /// The number of characters before the cursor.
    pub open spec fn cursor_index(&self) -> int {
        cursor_chars(self.input@, self.cursor_position as int)
    }

    /// A new front end with empty input and history, in REPL mode.
    pub fn new() -> (r: Self)
        ensures
            r.wf(),
            r.input@.len() == 0,
            r.cursor_position == 0,
            r.history@.len() == 0,
            r.history_index is None,
            r.mode == Mode::Repl,
            r.active_pane == WorkspacePane::Repl,
            r.show_banner,
            r.auto_scroll_output,
            !r.multiline_mode,
            r.editor_lines@.len() == 1,
            r.editor_lines@[0]@.len() == 0,
            r.editor_cursor_row == 0,
            r.editor_cursor_col == 0,
            r.editor_file_path is None,
            r.selection_start is None,
            r.selection_end is None,
            !r.is_selecting,
            r.output@.len() == 0,
            r.output_scroll_offset == 0,
            r.last_render_width == 80,
            r.focused_output_index is None,
            r.autocomplete.suggestions@.len() == 0,
            !r.autocomplete.show_popup,
    {
        let mut editor_lines: Vec<String> = Vec::new();
        editor_lines.push(String::new());
        let r = App {
            mode: Mode::Repl,
            active_pane: WorkspacePane::Repl,
            input: String::new(),
            output: Vec::new(),
            show_banner: true,
            is_loading: false,
            cursor_position: 0,
            output_scroll_offset: 0,
            auto_scroll_output: true,
            multiline_mode: false,
            history: Vec::new(),
            history_index: None,
            history_temp: String::new(),
            should_quit: false,
            editor_lines,
            editor_cursor_row: 0,
            editor_cursor_col: 0,
            editor_scroll_offset: 0,
            editor_file_path: None,
            selection_start: None,
            selection_end: None,
            is_selecting: false,
            last_render_width: 80,
            focused_output_index: None,
            autocomplete: AutocompleteState::new(),
        };
        proof {
            lemma_utf8_len_full(r.input@);
            assert(utf8_len(r.input@.take(0)) == 0);
        }
        r
    }

    /// The input has an unclosed brace, bracket, parenthesis or string.
    pub fn has_unclosed_delimiters(&self) -> (r: bool)
        requires
            self.input@.len() <= i64::MAX,
        ensures
            r == unclosed(self.input@),
    {
        has_unclosed_delimiters(self.input.as_str())
    }

    /// More lines are needed before the input can be submitted.
    pub fn should_continue_multiline(&self) -> (r: bool)
        requires
            self.input@.len() <= i64::MAX,
        ensures
            r == unclosed(self.input@),
    {
        if self.has_unclosed_delimiters() {
            return true;
        }
        let trimmed = trim_start_chars(self.input.as_str());
        if starts_with_chars(trimmed.as_slice(), "def ") || starts_with_chars(trimmed.as_slice(), "type ")
            || starts_with_chars(trimmed.as_slice(), "enum ")
            || starts_with_chars(trimmed.as_slice(), "workflow ") {
            return self.has_unclosed_delimiters();
        }
        false
    }

    /// The cursor position and the input's characters.
    pub(crate) fn cursor_and_chars(&self) -> (r: (Vec<char>, usize))
        requires
            self.wf(),
        ensures
            r.0@ == self.input@,
            r.1 == self.cursor_index(),
            0 <= r.1 <= self.input@.len(),
            utf8_len(self.input@.take(r.1 as int)) == self.cursor_position,
    {
        let chars = chars_of(self.input.as_str());
        let k = char_index_at(&chars, self.cursor_position);
        proof { lemma_cursor_unique(self.input@, self.cursor_position as int, k as int); }
        (chars, k)
    }

    /// Inserts `c` before the cursor and moves the cursor past it.
    pub fn insert_char(&mut self, c: char)
        requires
            old(self).wf(),
            utf8_len(old(self).input@) + char_width(c) <= usize::MAX,
        ensures
            final(self).wf(),
            final(self).input@ == with_char(old(self).input@, old(self).cursor_index(), c),
            final(self).cursor_position == old(self).cursor_position + char_width(c),
            final(self).cursor_index() == old(self).cursor_index() + 1,
            final(self).history_index is None,
            final(self).history@ == old(self).history@,
    {
        let (chars, k) = self.cursor_and_chars();
        let ghost old_input = self.input@;
        let mut v: Vec<char> = Vec::new();
        let mut i: usize = 0;
        while i < k
            invariant
                i <= k <= chars@.len(),
                v@ == chars@.take(i as int),
            decreases k - i,
        {
            v.push(chars[i]);
            proof { assert(chars@.take(i + 1) =~= chars@.take(i as int).push(chars@[i as int])); }
            i = i + 1;
        }
        v.push(c);
        while i < chars.len()
            invariant
                k <= i <= chars@.len(),
                v@ == chars@.take(k as int) + seq![c] + chars@.subrange(k as int, i as int),
            decreases chars@.len() - i,
        {
            v.push(chars[i]);
            proof {
                assert(chars@.subrange(k as int, i + 1) =~= chars@.subrange(k as int, i as int).push(chars@[i as int]));
            }
            i = i + 1;
        }
        let w = utf8_width(c);
        proof {
            assert(chars@.subrange(k as int, chars@.len() as int) =~= chars@.skip(k as int));
            let nv = v@;
            assert(nv.take(k + 1) =~= chars@.take(k as int).push(c));
            lemma_utf8_len_step(nv, k as int);
            assert(nv.take(k as int) =~= chars@.take(k as int));
            assert(nv[k as int] == c);
            lemma_encode_concat(chars@.take(k as int) + seq![c], chars@.skip(k as int));
            lemma_encode_concat(chars@.take(k as int), seq![c]);
            lemma_encode_concat(chars@.take(k as int), chars@.skip(k as int));
            assert(chars@.take(k as int) + chars@.skip(k as int) =~= chars@);
            assert(utf8_len(seq![c]) == char_width(c)) by {
                assert(seq![c].take(1) =~= seq![c]);
                lemma_utf8_len_step(seq![c], 0);
                lemma_utf8_len_full(seq![c]);
            }
            lemma_cursor_unique(nv, (self.cursor_position + w) as int, k + 1);
        }
        self.input = string_from_chars(v.as_slice());
        self.cursor_position = self.cursor_position + w;
        self.history_index = None;
    }

    /// Deletes the character before the cursor.
    pub fn delete_char(&mut self)
        requires
            old(self).wf(),
        ensures
            final(self).wf(),
            old(self).cursor_position == 0 ==> final(self).input@ == old(self).input@
                && final(self).cursor_position == 0,
            old(self).cursor_position > 0 ==> {
                &&& final(self).input@ == without_char(old(self).input@, old(self).cursor_index() - 1)
                &&& final(self).cursor_index() == old(self).cursor_index() - 1
                &&& final(self).cursor_position == utf8_len(old(self).input@.take(old(self).cursor_index() - 1))
            },
            final(self).history_index is None,
            final(self).history@ == old(self).history@,
    {
        self.history_index = None;
        if self.cursor_position == 0 {
            return;
        }
        let (chars, k) = self.cursor_and_chars();
        proof {
            if k == 0 {
                lemma_utf8_len_full(chars@);
            }
        }
        let v = remove_at(&chars, k - 1);
        let w = utf8_width(chars[k - 1]);
        proof {
            lemma_utf8_len_step(chars@, k - 1);
            lemma_remove_prefix(chars@, (k - 1) as int);
            lemma_cursor_unique(v@, (self.cursor_position - w) as int, k - 1);
            lemma_utf8_len_shrink(chars@, (k - 1) as int);
        }
        self.input = string_from_chars(v.as_slice());
        self.cursor_position = self.cursor_position - w;
    }

    /// Deletes the character after the cursor.
    pub fn delete_char_forward(&mut self)
        requires
            old(self).wf(),
        ensures
            final(self).wf(),
            old(self).cursor_index() == old(self).input@.len() ==> final(self).input@ == old(self).input@,
            old(self).cursor_index() < old(self).input@.len() ==> final(self).input@
                == without_char(old(self).input@, old(self).cursor_index()),
            final(self).cursor_position == old(self).cursor_position,
            final(self).cursor_index() == old(self).cursor_index(),
            final(self).history_index is None,
            final(self).history@ == old(self).history@,
    {
        self.history_index = None;
        let (chars, k) = self.cursor_and_chars();
        if k >= chars.len() {
            return;
        }
        let v = remove_at(&chars, k);
        proof {
            lemma_remove_prefix(chars@, k as int);
            lemma_cursor_unique(v@, self.cursor_position as int, k as int);
            lemma_utf8_len_shrink(chars@, k as int);
        }
        self.input = string_from_chars(v.as_slice());
    }

    /// Moves the cursor one character to the left.
    pub fn move_cursor_left(&mut self)
        requires
            old(self).wf(),
        ensures
            final(self).wf(),
            final(self).input@ == old(self).input@,
            final(self).cursor_index() == if old(self).cursor_index() > 0 { old(self).cursor_index() - 1 } else { 0 },
            final(self).history_index == old(self).history_index,
            final(self).history@ == old(self).history@,
    {
        if self.cursor_position == 0 {
            proof { lemma_cursor_unique(self.input@, 0, 0); lemma_utf8_len_full(self.input@); }
            return;
        }
        let (chars, k) = self.cursor_and_chars();
        proof {
            if k == 0 { lemma_utf8_len_full(chars@); }
            lemma_utf8_len_step(chars@, k - 1);
            lemma_cursor_unique(chars@, (self.cursor_position - char_width(chars@[k - 1])) as int, k - 1);
        }
        let w = utf8_width(chars[k - 1]);
        self.cursor_position = self.cursor_position - w;
    }

    /// Moves the cursor one character to the right.
    pub fn move_cursor_right(&mut self)
        requires
            old(self).wf(),
        ensures
            final(self).wf(),
            final(self).input@ == old(self).input@,
            final(self).cursor_index() == if old(self).cursor_index() < old(self).input@.len() {
                old(self).cursor_index() + 1 } else { old(self).cursor_index() },
            final(self).history_index == old(self).history_index,
            final(self).history@ == old(self).history@,
    {
        let (chars, k) = self.cursor_and_chars();
        if k >= chars.len() {
            return;
        }
        let total = byte_len(self.input.as_str());
        proof {
            lemma_utf8_len_step(chars@, k as int);
            lemma_utf8_len_monotone(chars@, k + 1, chars@.len() as int);
            lemma_utf8_len_full(chars@);
            lemma_cursor_unique(chars@, (self.cursor_position + char_width(chars@[k as int])) as int, k + 1);
        }
        let w = utf8_width(chars[k]);
        self.cursor_position = self.cursor_position + w;
    }

    /// Moves the cursor to the start of the input.
    pub fn move_cursor_home(&mut self)
        requires
            old(self).wf(),
        ensures
            final(self).wf(),
            final(self).input@ == old(self).input@,
            final(self).cursor_position == 0,
            final(self).cursor_index() == 0,
            final(self).history_index == old(self).history_index,
            final(self).history@ == old(self).history@,
    {
        proof { lemma_utf8_len_full(self.input@); lemma_cursor_unique(self.input@, 0, 0); }
        self.cursor_position = 0;
    }

    /// Moves the cursor to the end of the input.
    pub fn move_cursor_end(&mut self)
        requires
            old(self).wf(),
        ensures
            final(self).wf(),
            final(self).input@ == old(self).input@,
            final(self).cursor_position == utf8_len(old(self).input@),
            final(self).cursor_index() == old(self).input@.len(),
            final(self).history_index == old(self).history_index,
            final(self).history@ == old(self).history@,
    {
        let n = byte_len(self.input.as_str());
        proof {
            lemma_utf8_len_full(self.input@);
            lemma_cursor_unique(self.input@, n as int, self.input@.len() as int);
        }
        self.cursor_position = n;
    }

    /// Inserts a line break at the cursor and enters multi-line mode.
    pub fn insert_newline(&mut self)
        requires
            old(self).wf(),
            utf8_len(old(self).input@) + 1 <= usize::MAX,
        ensures
            final(self).wf(),
            final(self).input@ == with_char(old(self).input@, old(self).cursor_index(), '\n'),
            final(self).cursor_position == old(self).cursor_position + 1,
            final(self).multiline_mode,
    {
        self.insert_char('\n');
        self.multiline_mode = true;
    }

    /// Scrolls the output up by `lines`, stopping at the top, and stops
    /// following new output.
    pub fn scroll_up(&mut self, lines: u16)
        ensures
            final(self).output_scroll_offset == scrolled_up(old(self).output_scroll_offset, lines),
            !final(self).auto_scroll_output,
            final(self).input == old(self).input,
            final(self).cursor_position == old(self).cursor_position,
            final(self).history == old(self).history,
            final(self).history_index == old(self).history_index,
    {
        self.auto_scroll_output = false;
        self.output_scroll_offset = if self.output_scroll_offset >= lines { self.output_scroll_offset - lines } else { 0 };
    }

    /// Scrolls the output down by `lines` and stops following new output.
    pub fn scroll_down(&mut self, lines: u16)
        requires
            old(self).output_scroll_offset + lines <= u16::MAX,
        ensures
            final(self).output_scroll_offset == old(self).output_scroll_offset + lines,
            !final(self).auto_scroll_output,
            final(self).input == old(self).input,
            final(self).cursor_position == old(self).cursor_position,
            final(self).history == old(self).history,
            final(self).history_index == old(self).history_index,
    {
        self.auto_scroll_output = false;
        self.output_scroll_offset = self.output_scroll_offset + lines;
    }

    /// Follows new output again.
    pub fn enable_auto_scroll(&mut self)
        ensures
            final(self).auto_scroll_output,
            final(self).output_scroll_offset == old(self).output_scroll_offset,
            final(self).input == old(self).input,
            final(self).cursor_position == old(self).cursor_position,
            final(self).history == old(self).history,
            final(self).history_index == old(self).history_index,
    {
        self.auto_scroll_output = true;
    }

    /// Shows the previous history entry; the first step back keeps the
    /// current input so that stepping forward past the end restores it.
    pub fn history_up(&mut self)
        requires
            old(self).wf(),
        ensures
            final(self).wf(),
            final(self).history@ == old(self).history@,
            old(self).history@.len() == 0 ==> final(self).input@ == old(self).input@
                && final(self).history_index == old(self).history_index
                && final(self).cursor_position == old(self).cursor_position,
            old(self).history@.len() > 0 ==> match old(self).history_index {
                None => {
                    &&& final(self).history_index == Some((old(self).history@.len() - 1) as usize)
                    &&& final(self).history_temp@ == old(self).input@
                    &&& final(self).input@ == old(self).history@.last()@
                    &&& final(self).cursor_position == utf8_len(final(self).input@)
                },
                Some(i) => if i > 0 {
                    &&& final(self).history_index == Some((i - 1) as usize)
                    &&& final(self).history_temp@ == old(self).history_temp@
                    &&& final(self).input@ == old(self).history@[i - 1]@
                    &&& final(self).cursor_position == utf8_len(final(self).input@)
                } else {
                    &&& final(self).history_index == old(self).history_index
                    &&& final(self).history_temp@ == old(self).history_temp@
                    &&& final(self).input@ == old(self).input@
                    &&& final(self).cursor_position == old(self).cursor_position
                },
            },
    {
        if self.history.len() == 0 {
            return;
        }
        match self.history_index {
            None => {
                self.history_temp = self.input.clone();
                let last = self.history.len() - 1;
                self.history_index = Some(last);
                let entry = self.history[last].clone();
                self.set_input_at_end(entry);
            },
            Some(index) => {
                if index > 0 {
                    self.history_index = Some(index - 1);
                    let entry = self.history[index - 1].clone();
                    self.set_input_at_end(entry);
                }
            },
        }
    }

    /// Shows the next history entry, or the input that was there before
    /// history browsing began once the newest entry is passed.
    pub fn history_down(&mut self)
        requires
            old(self).wf(),
        ensures
            final(self).wf(),
            final(self).history@ == old(self).history@,
            match old(self).history_index {
                None => final(self).input@ == old(self).input@
                    && final(self).history_index is None
                    && final(self).cursor_position == old(self).cursor_position,
                Some(i) => if i + 1 < old(self).history@.len() {
                    &&& final(self).history_index == Some((i + 1) as usize)
                    &&& final(self).input@ == old(self).history@[i + 1]@
                    &&& final(self).cursor_position == utf8_len(final(self).input@)
                    &&& final(self).history_temp@ == old(self).history_temp@
                } else {
                    &&& final(self).history_index is None
                    &&& final(self).input@ == old(self).history_temp@
                    &&& final(self).cursor_position == utf8_len(final(self).input@)
                    &&& final(self).history_temp@.len() == 0
                },
            },
    {
        match self.history_index {
            None => {},
            Some(index) => {
                let n = self.history.len();
                if index + 1 < n {
                    self.history_index = Some(index + 1);
                    let entry = self.history[index + 1].clone();
                    self.set_input_at_end(entry);
                } else {
                    self.history_index = None;
                    let temp = self.history_temp.clone();
                    self.set_input_at_end(temp);
                    self.history_temp = String::new();
                }
            },
        }
    }

    /// Replaces the input and puts the cursor at its end.
    fn set_input_at_end(&mut self, s: String)
        requires
            old(self).history_index matches Some(i) ==> i < old(self).history@.len(),
        ensures
            final(self).wf(),
            final(self).input@ == s@,
            final(self).cursor_position == utf8_len(s@),
            final(self).history == old(self).history,
            final(self).history_index == old(self).history_index,
            final(self).history_temp == old(self).history_temp,
    {
        let n = byte_len(s.as_str());
        proof {
            lemma_utf8_len_full(s@);
        }
        self.input = s;
        self.cursor_position = n;
    }

    /// Makes `pane` the active pane.
    pub fn switch_pane(&mut self, pane: WorkspacePane)
        ensures
            final(self).active_pane == pane,
            final(self).input == old(self).input,
            final(self).cursor_position == old(self).cursor_position,
    {
        self.active_pane = pane;
    }

    /// Moves between the editor and the REPL pane (the preview pane is
    /// never made active this way).
    pub fn next_pane(&mut self)
        ensures
            final(self).active_pane == pane_after(old(self).active_pane),
            final(self).input == old(self).input,
            final(self).cursor_position == old(self).cursor_position,
    {
        self.active_pane = match self.active_pane {
            WorkspacePane::Editor => WorkspacePane::Repl,
            WorkspacePane::Repl => WorkspacePane::Editor,
            WorkspacePane::Preview => WorkspacePane::Editor,
        };
    }
}

/// The cursor's character index is the unique prefix length whose encoding
/// ends at the cursor.
pub(crate) proof fn lemma_cursor_unique(s: Seq<char>, pos: int, k: int)
    requires
        0 <= k <= s.len(),
        utf8_len(s.take(k)) == pos,
    ensures
        is_boundary(s, pos),
        cursor_chars(s, pos) == k,
{
    assert(is_boundary(s, pos));
    let j = cursor_chars(s, pos);
    if j < k {
        lemma_utf8_len_monotone(s, j, k);
    } else if j > k {
        lemma_utf8_len_monotone(s, k, j);
    }
}

/// `v` without its character at `at`.
pub(crate) fn remove_at(v: &Vec<char>, at: usize) -> (r: Vec<char>)
    requires
        at < v@.len(),
    ensures
        r@ == v@.take(at as int) + v@.skip(at + 1),
{
    let mut r: Vec<char> = Vec::new();
    let mut i: usize = 0;
    while i < v.len()
        invariant
            i <= v@.len(),
            at < v@.len(),
            r@ == if i <= at { v@.take(i as int) } else { v@.take(at as int) + v@.subrange(at + 1, i as int) },
        decreases v@.len() - i,
    {
        if i != at {
            r.push(v[i]);
        }
        proof {
            if i < at {
                assert(v@.take(i + 1) =~= v@.take(i as int).push(v@[i as int]));
            } else if i == at {
                assert(v@.subrange(at + 1, at + 1) =~= Seq::<char>::empty());
                assert(r@ =~= v@.take(at as int) + v@.subrange(at + 1, i + 1));
            } else {
                assert(v@.subrange(at + 1, i + 1) =~= v@.subrange(at + 1, i as int).push(v@[i as int]));
            }
        }
        i = i + 1;
    }
    proof { assert(v@.subrange(at + 1, v@.len() as int) =~= v@.skip(at + 1)); }
    r
}

/// Removing a character after position `k` keeps the first `k` characters.
pub(crate) proof fn lemma_remove_prefix(s: Seq<char>, k: int)
    requires
        0 <= k < s.len(),
    ensures
        (s.take(k) + s.skip(k + 1)).take(k) == s.take(k),
{
    assert((s.take(k) + s.skip(k + 1)).take(k) =~= s.take(k));
}

/// Removing a character shrinks the encoding by its width.
pub(crate) proof fn lemma_utf8_len_shrink(s: Seq<char>, k: int)
    requires
        0 <= k < s.len(),
    ensures
        utf8_len(s.take(k) + s.skip(k + 1)) + char_width(s[k]) == utf8_len(s),
{
    lemma_encode_concat(s.take(k), s.skip(k + 1));
    lemma_encode_concat(s.take(k + 1), s.skip(k + 1));
    assert(s.take(k + 1) + s.skip(k + 1) =~= s);
    lemma_utf8_len_step(s, k);
}

/// Backspace right after typing a character gives back the text and the
/// cursor from before: `b` is `a` after `insert_char`, `c` is `b` after
/// `delete_char`.
pub proof fn law_backspace_undoes_typing(a: App, b: App, c: App, ch: char)
    requires
        a.wf(),
        b.input@ == with_char(a.input@, a.cursor_index(), ch),
        b.cursor_index() == a.cursor_index() + 1,
        c.input@ == without_char(b.input@, b.cursor_index() - 1),
        c.cursor_position == utf8_len(b.input@.take(b.cursor_index() - 1)),
    ensures
        c.input@ == a.input@,
        c.cursor_position == a.cursor_position,
{
    let s = a.input@;
    let k = a.cursor_index();
    assert(with_char(s, k, ch).take(k) =~= s.take(k));
    assert(without_char(with_char(s, k, ch), k) =~= s);
}

/// Moving left and then right puts the cursor back where it was, unless it
/// was at the start: `b` is `a` after `move_cursor_left`, `c` is `b` after
/// `move_cursor_right`.
pub proof fn law_left_then_right(a: App, b: App, c: App)
    requires
        a.wf(),
        c.wf(),
        a.cursor_index() > 0,
        b.input@ == a.input@,
        b.cursor_index() == a.cursor_index() - 1,
        c.input@ == b.input@,
        c.cursor_index() == if b.cursor_index() < b.input@.len() { b.cursor_index() + 1 } else { b.cursor_index() },
    ensures
        c.cursor_position == a.cursor_position,
{
}

/// Moving right and then left puts the cursor back where it was, unless it
/// was at the end: `b` is `a` after `move_cursor_right`, `c` is `b` after
/// `move_cursor_left`.
pub proof fn law_right_then_left(a: App, b: App, c: App)
    requires
        a.wf(),
        c.wf(),
        a.cursor_index() < a.input@.len(),
        b.input@ == a.input@,
        b.cursor_index() == a.cursor_index() + 1,
        c.input@ == b.input@,
        c.cursor_index() == if b.cursor_index() > 0 { b.cursor_index() - 1 } else { 0 },
    ensures
        c.cursor_position == a.cursor_position,
{
}

/// Stepping back into the history and straight forward again gives back
/// the line that was being edited: `b` is `a` after `history_up`, `c` is
/// `b` after `history_down`.
pub proof fn law_history_round_trip(a: App, b: App, c: App)
    requires
        a.wf(),
        0 < a.history@.len() <= usize::MAX,
        a.history_index is None,
        b.history@ == a.history@,
        b.history_index == Some((a.history@.len() - 1) as usize),
        b.history_temp@ == a.input@,
        c.history@ == b.history@,
        (match b.history_index {
            Some(i) => i + 1 >= b.history@.len() ==> c.input@ == b.history_temp@ && c.history_index is None,
            None => true,
        }),
    ensures
        c.input@ == a.input@,
        c.history_index is None,
{
}

/// Switching panes twice from the editor or the REPL pane comes back to
/// it.
pub proof fn law_next_pane_twice(p: WorkspacePane)
    requires
        p != WorkspacePane::Preview,
    ensures
        pane_after(pane_after(p)) == p,
{
}

/// Scrolling up and then down by the same number of lines comes back to
/// the same offset when the top was not reached, and down then up always
/// does.
pub proof fn law_scroll_round_trip(offset: u16, lines: u16)
    ensures
        offset >= lines ==> scrolled_up(offset, lines) + lines == offset,
        offset + lines <= u16::MAX ==> scrolled_up((offset + lines) as u16, lines) == offset,
{
}

} // verus!
