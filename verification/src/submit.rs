//! Submitting the input of the REPL pane: it is echoed into the output and
//! recorded in the history; the front end's own commands (`:help`,
//! `:clear`, `:q`) are carried out at once; anything else is handed on to
//! be evaluated, and its result is shown when it comes back.

use vstd::prelude::*;
use crate::blocks::{lines_of, texts_of};
use crate::builtins::{join, joined, string_views};
use crate::ir::str_eq;
use crate::output::OutputItem;
use crate::repl::App;
use crate::repl_pane::split_lines;
use crate::text::{string_from_chars, trim, trim_chars};

verus! {

/// What submitting the input led to.
#[derive(Debug)]
pub enum SubmitStep {
    /// Nothing was typed: nothing happened.
    Empty,
    /// A command of the front end was carried out.
    Handled {
        /// The history gained an entry and is to be saved.
        save_history: bool,
    },
    /// The input is to be evaluated; the front end shows it is busy.
    Evaluate {
        text: String,
        /// The history gained an entry and is to be saved.
        save_history: bool,
    },
}

/// What an evaluation gave back.
#[derive(Debug)]
pub enum EvalResult {
    /// A value of type `value_type`, bound to `bound` if it was named, shown
    /// as `item`.
    Value { value_type: String, bound: Option<String>, item: OutputItem },
    /// An error, with its message.
    Failure(String),
}

/// The input lines, each indented and ended by a line break.
pub open spec fn indented_lines(ls: Seq<Seq<char>>) -> Seq<char>
    decreases ls.len(),
{
    if ls.len() == 0 {
        Seq::empty()
    } else {
        indented_lines(ls.drop_last()) + "  "@ + ls.last() + "\n"@
    }
}

/// How submitted input is echoed: after the prompt, or, for several
/// lines, on lines of their own below it.
pub open spec fn echo_text(text: Seq<char>) -> Seq<char> {
    if text.contains('\n') {
        "flow> \n"@ + indented_lines(lines_of(text))
    } else {
        "flow> "@ + text
    }
}

/// `after` is `before` with text items of `texts` added.
pub open spec fn texts_pushed(before: Seq<OutputItem>, after: Seq<OutputItem>, texts: Seq<Seq<char>>) -> bool {
    &&& after.len() == before.len() + texts.len()
    &&& after.take(before.len() as int) == before
    &&& forall|i: int| 0 <= i < texts.len() ==> (#[trigger] after[before.len() + i] matches OutputItem::Text(s)
        && s@ == texts[i])
}

/// The history gains the submitted text unless it repeats the last entry.
pub open spec fn adds_to_history(history: Seq<String>, text: Seq<char>) -> bool {
    history.len() == 0 || history.last()@ != text
}

/// The history views after submitting `text`.
pub open spec fn history_after(history: Seq<String>, text: Seq<char>) -> Seq<Seq<char>> {
    if adds_to_history(history, text) {
        string_views(history).push(text)
    } else {
        string_views(history)
    }
}

/// The header shown above a value: its binding and type.
pub open spec fn result_header(value_type: Seq<char>, bound: Option<Seq<char>>) -> Seq<char> {
    match bound {
        Some(n) => "✓ Bound '"@ + n + "' : "@ + value_type,
        None => "✓ "@ + value_type,
    }
}

fn text_item(s: String) -> (r: OutputItem)
    ensures
        r matches OutputItem::Text(t) && t@ == s@,
{
    OutputItem::Text(s)
}

/// The echo of submitted input.
fn echo_string(text: &str) -> (r: String)
    ensures
        r@ == echo_text(text@),
{
    let v = crate::text::chars_of(text);
    let mut has_break = false;
    let mut i: usize = 0;
    while i < v.len()
        invariant
            i <= v@.len(),
            v@ == text@,
            has_break == exists|k: int| 0 <= k < i && v@[k] == '\n',
        decreases v@.len() - i,
    {
        if v[i] == '\n' {
            has_break = true;
        }
        i = i + 1;
    }
    proof {
        if has_break {
            let k = choose|k: int| 0 <= k < v@.len() && v@[k] == '\n';
            assert(text@.contains('\n')) by {
                assert(text@[k] == '\n');
            }
        } else {
            assert(!text@.contains('\n'));
        }
    }
    if has_break {
        let ls = split_lines(text);
        let mut r = String::from_str("flow> \n");
        let mut j: usize = 0;
        proof {
            assert(texts_of(ls@).take(0) =~= Seq::<Seq<char>>::empty());
        }
        while j < ls.len()
            invariant
                j <= ls@.len(),
                texts_of(ls@) == lines_of(text@),
                r@ == "flow> \n"@ + indented_lines(texts_of(ls@).take(j as int)),
            decreases ls@.len() - j,
        {
            r.append("  ");
            r.append(ls[j].as_str());
            r.append("\n");
            proof {
                let t = texts_of(ls@);
                assert(t.len() == ls@.len());
                assert(t.take(j + 1).drop_last() =~= t.take(j as int));
                assert(t.take(j + 1).last() == ls@[j as int]@);
                assert(r@ =~= "flow> \n"@ + indented_lines(t.take(j + 1)));
            }
            j = j + 1;
        }
        proof {
            assert(texts_of(ls@).len() == ls@.len());
            assert(texts_of(ls@).take(ls@.len() as int) =~= texts_of(ls@));
        }
        r
    } else {
        let mut r = String::from_str("flow> ");
        r.append(text);
        r
    }
}

impl App {
    /// Submits the input: with nothing typed nothing happens. Otherwise
    /// the banner goes, the output follows new lines again, the input is
    /// added to the history (unless it repeats the last entry), history
    /// browsing ends and the input is echoed into the output. `:help`
    /// shows `help`, `:clear` empties the output and `:q` or `:quit` asks
    /// to quit; anything else is handed on for evaluation while the front
    /// end shows it is busy.
    pub fn submit_input(&mut self, help: &Vec<String>) -> (r: SubmitStep)
        requires
            old(self).input@.len() <= usize::MAX,
        ensures
            ({
                let o = *old(self);
                let f = *final(self);
                let text = o.input@;
                let cmd = trim(text);
                if text.len() == 0 {
                    r is Empty && f == o
                } else {
                    let saved = adds_to_history(o.history@, text);
                    &&& string_views(f.history@) == history_after(o.history@, text)
                    &&& f.history_temp@.len() == 0
                    &&& if cmd == ":help"@ {
                        &&& r == (SubmitStep::Handled { save_history: saved })
                        &&& texts_pushed(o.output@, f.output@, seq![echo_text(text), joined(string_views(help@), "\n"@), Seq::empty()])
                        &&& f.input@.len() == 0
                        &&& f == (App { output: f.output, input: f.input, history: f.history, history_temp: f.history_temp,
                            show_banner: false, auto_scroll_output: true, history_index: None, multiline_mode: false, ..o })
                    } else if cmd == ":clear"@ {
                        &&& r == (SubmitStep::Handled { save_history: saved })
                        &&& f.output@.len() == 0
                        &&& f.input@.len() == 0
                        &&& f == (App { output: f.output, input: f.input, history: f.history, history_temp: f.history_temp,
                            show_banner: false, auto_scroll_output: true, history_index: None, multiline_mode: false,
                            cursor_position: 0, output_scroll_offset: 0, ..o })
                    } else if cmd == ":q"@ || cmd == ":quit"@ {
                        &&& r == (SubmitStep::Handled { save_history: saved })
                        &&& texts_pushed(o.output@, f.output@, seq![echo_text(text)])
                        &&& f.input@.len() == 0
                        &&& f == (App { output: f.output, input: f.input, history: f.history, history_temp: f.history_temp,
                            show_banner: false, auto_scroll_output: true, history_index: None, multiline_mode: false,
                            cursor_position: 0, should_quit: true, ..o })
                    } else {
                        &&& r matches SubmitStep::Evaluate { text: t, save_history: s } && t@ == text && s == saved
                        &&& texts_pushed(o.output@, f.output@, seq![echo_text(text)])
                        &&& f == (App { output: f.output, history: f.history, history_temp: f.history_temp,
                            show_banner: false, auto_scroll_output: true, history_index: None, is_loading: true, ..o })
                    }
                }
            }),
    {
        if self.input.unicode_len() == 0 {
            return SubmitStep::Empty;
        }
        let ghost o = *self;
        self.show_banner = false;
        self.auto_scroll_output = true;
        let input_text = String::from_str(self.input.as_str());
        let n = self.history.len();
        let save = n == 0 || !str_eq(self.history[n - 1].as_str(), input_text.as_str());
        if save {
            let ghost before = self.history@;
            self.history.push(String::from_str(input_text.as_str()));
            proof {
                assert(string_views(self.history@) =~= string_views(before).push(input_text@));
            }
        }
        self.history_index = None;
        self.history_temp = String::new();
        let ghost base = self.output@;
        let echo = echo_string(input_text.as_str());
        self.output.push(text_item(echo));
        let cmd_chars = trim_chars(input_text.as_str());
        let cmd = string_from_chars(cmd_chars.as_slice());
        if str_eq(cmd.as_str(), ":help") {
            let help_text = join(help.clone(), "\n");
            self.output.push(text_item(help_text));
            self.output.push(text_item(String::new()));
            self.input = String::new();
            self.multiline_mode = false;
            proof {
                assert(self.output@.take(base.len() as int) =~= base);
            }
            return SubmitStep::Handled { save_history: save };
        }
        if str_eq(cmd.as_str(), ":clear") {
            self.output = Vec::new();
            self.input = String::new();
            self.cursor_position = 0;
            self.multiline_mode = false;
            self.output_scroll_offset = 0;
            self.auto_scroll_output = true;
            return SubmitStep::Handled { save_history: save };
        }
        if str_eq(cmd.as_str(), ":q") || str_eq(cmd.as_str(), ":quit") {
            self.should_quit = true;
            self.input = String::new();
            self.cursor_position = 0;
            self.multiline_mode = false;
            proof {
                assert(self.output@.take(base.len() as int) =~= base);
            }
            return SubmitStep::Handled { save_history: save };
        }
        self.is_loading = true;
        proof {
            assert(self.output@.take(base.len() as int) =~= base);
        }
        SubmitStep::Evaluate { text: input_text, save_history: save }
    }

    /// Shows what an evaluation gave back: for a value, a header with its
    /// type (and the name it was bound to) and the value itself; for an
    /// error, its message. Then a blank line; the input is cleared and the
    /// front end is no longer busy.
    pub fn show_result(&mut self, result: EvalResult)
        ensures
            ({
                let o = *old(self);
                let f = *final(self);
                &&& match result {
                    EvalResult::Value { value_type, bound, item } => {
                        let header = result_header(value_type@, match bound { Some(b) => Some(b@), None => None });
                        &&& f.output@.len() == o.output@.len() + 3
                        &&& f.output@.take(o.output@.len() as int) == o.output@
                        &&& f.output@[o.output@.len() as int] matches OutputItem::Text(s) && s@ == header
                        &&& f.output@[o.output@.len() + 1int] == item
                        &&& f.output@[o.output@.len() + 2int] matches OutputItem::Text(s) && s@.len() == 0
                    },
                    EvalResult::Failure(message) => {
                        &&& f.output@.len() == o.output@.len() + 2
                        &&& f.output@.take(o.output@.len() as int) == o.output@
                        &&& f.output@[o.output@.len() as int] matches OutputItem::Error(s) && s@ == message@
                        &&& f.output@[o.output@.len() + 1int] matches OutputItem::Text(s) && s@.len() == 0
                    },
                }
                &&& f.input@.len() == 0
                &&& f == (App { output: f.output, input: f.input, is_loading: false, cursor_position: 0,
                    multiline_mode: false, ..o })
            }),
    {
        let ghost base = self.output@;
        match result {
            EvalResult::Value { value_type, bound, item } => {
                let mut header = String::new();
                match bound {
                    Some(name) => {
                        header.append("✓ Bound '");
                        header.append(name.as_str());
                        header.append("' : ");
                        header.append(value_type.as_str());
                    },
                    None => {
                        header.append("✓ ");
                        header.append(value_type.as_str());
                    },
                }
                self.output.push(text_item(header));
                self.output.push(item);
            },
            EvalResult::Failure(message) => {
                self.output.push(OutputItem::Error(message));
            },
        }
        self.is_loading = false;
        self.output.push(text_item(String::new()));
        self.input = String::new();
        self.cursor_position = 0;
        self.multiline_mode = false;
        proof {
            assert(self.output@.take(base.len() as int) =~= base);
        }
    }
}

/// No entry of a history repeats the one before it.
pub open spec fn no_repeats(h: Seq<Seq<char>>) -> bool {
    forall|i: int| 0 < i < h.len() ==> #[trigger] h[i] != h[i - 1]
}

/// Submitting keeps a history free of consecutive repeats: `after` is the
/// history once `text` was submitted to a front end whose history was
/// `before`.
pub proof fn law_history_has_no_repeats(before: Seq<String>, text: Seq<char>, after: Seq<Seq<char>>)
    requires
        no_repeats(string_views(before)),
        after == history_after(before, text),
    ensures
        no_repeats(after),
{
    let b = string_views(before);
    if adds_to_history(before, text) {
        assert forall|i: int| 0 < i < after.len() implies #[trigger] after[i] != after[i - 1] by {
            if i == b.len() {
                assert(after[i - 1] == before.last()@);
            } else {
                assert(after[i] == b[i] && after[i - 1] == b[i - 1]);
            }
        }
    }
}

} // verus!
