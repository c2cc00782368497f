//! The completion popup of the REPL pane: the suggestions found for the
//! word being typed, which one is selected, and putting it into the input
//! in place of the word.
//!
//! Finding the suggestions is the completion engine's work; the popup
//! takes what it found.

use vstd::prelude::*;
use crate::repl::{cursor_chars, App};
use crate::text::{char_width, chars_of, is_boundary, lemma_encode_concat, string_from_range, utf8_len};

verus! {

/// A suggestion: what the popup shows and what accepting it inserts.
#[derive(Debug, Clone)]
pub struct Suggestion {
    pub label: String,
    pub insert_text: String,
}

/// The state of the popup.
pub struct AutocompleteState {
    pub suggestions: Vec<Suggestion>,
    pub selected_index: usize,
    pub show_popup: bool,
}

/// Whether `char::is_alphanumeric` holds of `c` (the Unicode `Alphabetic`
/// and `Numeric` properties).
pub uninterp spec fn alphanumeric(c: char) -> bool;

/// Calls `char::is_alphanumeric`; the contract names its result.
#[verifier::external_body]
fn is_alphanumeric(c: char) -> (r: bool)
    ensures
        r == alphanumeric(c),
{
    c.is_alphanumeric()
}

/// A character that belongs to the word being completed.
pub open spec fn is_word_char(c: char) -> bool {
    alphanumeric(c) || c == '_' || c == ':'
}

/// The index of the first character of the word that ends before the
/// `k`-th character of `s`.
pub open spec fn word_start(s: Seq<char>, k: int) -> int
    decreases k,
{
    if k <= 0 {
        0
    } else if !is_word_char(s[k - 1]) {
        k
    } else {
        word_start(s, k - 1)
    }
}

proof fn lemma_word_start(s: Seq<char>, k: int)
    requires
        0 <= k <= s.len(),
    ensures
        0 <= word_start(s, k) <= k,
        word_start(s, k) > 0 ==> !is_word_char(s[word_start(s, k) - 1]),
    decreases k,
{
    if k > 0 && is_word_char(s[k - 1]) {
        lemma_word_start(s, k - 1);
    }
}

impl AutocompleteState {
    /// No suggestions, popup hidden.
    pub fn new() -> (r: Self)
        ensures
            r.suggestions@.len() == 0,
            r.selected_index == 0,
            !r.show_popup,
    {
        AutocompleteState { suggestions: Vec::new(), selected_index: 0, show_popup: false }
    }

    /// Takes the suggestions found for the input: the first is selected,
    /// and the popup shows when there are any.
    pub fn update(&mut self, suggestions: Vec<Suggestion>)
        ensures
            final(self).suggestions@ == suggestions@,
            final(self).selected_index == 0,
            final(self).show_popup == (suggestions@.len() > 0),
    {
        let any = suggestions.len() > 0;
        self.suggestions = suggestions;
        self.selected_index = 0;
        self.show_popup = any;
    }

    /// Selects the next suggestion, from the last back to the first.
    pub fn select_next(&mut self)
        requires
            old(self).selected_index < usize::MAX,
        ensures
            final(self).suggestions@ == old(self).suggestions@,
            final(self).show_popup == old(self).show_popup,
            final(self).selected_index == if old(self).suggestions@.len() == 0 {
                old(self).selected_index as int
            } else {
                (old(self).selected_index + 1) % (old(self).suggestions@.len() as int)
            },
    {
        let n = self.suggestions.len();
        if n > 0 {
            self.selected_index = (self.selected_index + 1) % n;
        }
    }

    /// Selects the previous suggestion, from the first round to the last.
    pub fn select_previous(&mut self)
        ensures
            final(self).suggestions@ == old(self).suggestions@,
            final(self).show_popup == old(self).show_popup,
            final(self).selected_index == if old(self).suggestions@.len() == 0 {
                old(self).selected_index as int
            } else if old(self).selected_index == 0 {
                old(self).suggestions@.len() - 1
            } else {
                old(self).selected_index - 1
            },
    {
        let n = self.suggestions.len();
        if n > 0 {
            if self.selected_index == 0 {
                self.selected_index = n - 1;
            } else {
                self.selected_index = self.selected_index - 1;
            }
        }
    }

    /// The selected suggestion, if the selection names one.
    pub fn get_selected(&self) -> (r: Option<&Suggestion>)
        ensures
            r == if self.selected_index < self.suggestions@.len() {
                Some(&self.suggestions@[self.selected_index as int])
            } else {
                None
            },
    {
        if self.selected_index < self.suggestions.len() {
            Some(&self.suggestions[self.selected_index])
        } else {
            None
        }
    }

    /// Closes the popup and forgets the suggestions.
    pub fn hide_popup(&mut self)
        ensures
            final(self).suggestions@.len() == 0,
            final(self).selected_index == 0,
            !final(self).show_popup,
    {
        self.show_popup = false;
        self.suggestions = Vec::new();
        self.selected_index = 0;
    }

    /// The popup is shown: it is open and has suggestions.
    pub fn is_visible(&self) -> (r: bool)
        ensures
            r == (self.show_popup && self.suggestions@.len() > 0),
    {
        self.show_popup && self.suggestions.len() > 0
    }

    /// Puts the selected suggestion into `input` in place of the word
    /// before the cursor (its letters, digits, `_` and `:`), moves the
    /// cursor after it and closes the popup. Without a selected suggestion
    /// nothing changes. The character before the word is a one-byte one.
    pub fn accept_selected(&mut self, input: &mut String, cursor_position: &mut usize)
        requires
            is_boundary(old(input)@, *old(cursor_position) as int),
            ({
                let k = cursor_chars(old(input)@, *old(cursor_position) as int);
                let ws = word_start(old(input)@, k);
                ws > 0 ==> char_width(old(input)@[ws - 1]) == 1
            }),
            utf8_len(old(input)@) + (if old(self).selected_index < old(self).suggestions@.len() {
                utf8_len(old(self).suggestions@[old(self).selected_index as int].insert_text@)
            } else {
                0
            }) <= usize::MAX,
        ensures
            if old(self).selected_index < old(self).suggestions@.len() {
                let k = cursor_chars(old(input)@, *old(cursor_position) as int);
                let ws = word_start(old(input)@, k);
                let ins = old(self).suggestions@[old(self).selected_index as int].insert_text@;
                &&& final(input)@ == old(input)@.take(ws) + ins + old(input)@.skip(k)
                &&& *final(cursor_position) == utf8_len(old(input)@.take(ws)) + utf8_len(ins)
                &&& is_boundary(final(input)@, *final(cursor_position) as int)
                &&& final(self).suggestions@.len() == 0
                &&& final(self).selected_index == 0
                &&& !final(self).show_popup
            } else {
                &&& final(input)@ == old(input)@
                &&& *final(cursor_position) == *old(cursor_position)
                &&& final(self).suggestions@ == old(self).suggestions@
                &&& final(self).selected_index == old(self).selected_index
                &&& final(self).show_popup == old(self).show_popup
            },
    {
        if self.selected_index >= self.suggestions.len() {
            return;
        }
        let ins = self.suggestions[self.selected_index].insert_text.clone();
        let v = chars_of(input.as_str());
        let k = crate::text::char_index_at(&v, *cursor_position);
        let ghost s = v@;
        proof {
            crate::repl::lemma_cursor_unique(s, *cursor_position as int, k as int);
        }
        let mut ws = k;
        while ws > 0 && (is_alphanumeric(v[ws - 1]) || v[ws - 1] == '_' || v[ws - 1] == ':')
            invariant
                ws <= k <= v@.len(),
                v@ == s,
                word_start(s, k as int) == word_start(s, ws as int),
            decreases ws,
        {
            ws = ws - 1;
        }
        proof {
            lemma_word_start(s, k as int);
        }
        let mut out = string_from_range(v.as_slice(), 0, ws);
        let before_len = crate::text::utf8_len_of_prefix(&v, ws);
        out.append(ins.as_str());
        let tail = string_from_range(v.as_slice(), k, v.len());
        out.append(tail.as_str());
        proof {
            assert(v@.subrange(0, ws as int) =~= s.take(ws as int));
            assert(v@.subrange(k as int, v@.len() as int) =~= s.skip(k as int));
            lemma_encode_concat(s.take(ws as int), ins@);
            lemma_encode_concat(s.take(ws as int), s.skip(ws as int));
            assert(s.take(ws as int) + s.skip(ws as int) =~= s);
            crate::text::lemma_utf8_len_monotone(s, ws as int, s.len() as int);
            crate::text::lemma_utf8_len_full(s);
            let pre = s.take(ws as int) + ins@;
            assert(out@ =~= pre + s.skip(k as int));
            assert(out@.take(pre.len() as int) =~= pre);
            assert(crate::text::is_boundary(out@, (utf8_len(s.take(ws as int)) + utf8_len(ins@)) as int)) by {
                assert(utf8_len(out@.take(pre.len() as int)) == utf8_len(s.take(ws as int)) + utf8_len(ins@));
            }
        }
        let ins_str = ins.as_str();
        proof {
            crate::text::lemma_spec_bytes_len(ins_str);
        }
        let ins_len = crate::text::byte_len(ins_str);
        *input = out;
        *cursor_position = before_len + ins_len;
        self.hide_popup();
    }
}

impl App {
    /// Takes the completions `found` for the input, except in multi-line
    /// mode, where the popup closes instead.
    pub fn trigger_autocomplete(&mut self, found: Vec<Suggestion>)
        ensures
            old(self).multiline_mode ==> final(self).autocomplete.suggestions@.len() == 0
                && !final(self).autocomplete.show_popup && final(self).autocomplete.selected_index == 0,
            !old(self).multiline_mode ==> final(self).autocomplete.suggestions@ == found@
                && final(self).autocomplete.show_popup == (found@.len() > 0)
                && final(self).autocomplete.selected_index == 0,
            *final(self) == (App { autocomplete: final(self).autocomplete, ..*old(self) }),
    {
        if self.multiline_mode {
            self.autocomplete.hide_popup();
            return;
        }
        self.autocomplete.update(found);
    }

    /// Puts the selected completion into the input in place of the word
    /// before the cursor.
    pub fn accept_autocomplete(&mut self)
        requires
            old(self).wf(),
            ({
                let ws = word_start(old(self).input@, old(self).cursor_index());
                ws > 0 ==> char_width(old(self).input@[ws - 1]) == 1
            }),
            utf8_len(old(self).input@) + (if old(self).autocomplete.selected_index < old(self).autocomplete.suggestions@.len() {
                utf8_len(old(self).autocomplete.suggestions@[old(self).autocomplete.selected_index as int].insert_text@)
            } else {
                0
            }) <= usize::MAX,
        ensures
            final(self).wf(),
            ({
                let a = old(self).autocomplete;
                if a.selected_index < a.suggestions@.len() {
                    let k = old(self).cursor_index();
                    let ws = word_start(old(self).input@, k);
                    let ins = a.suggestions@[a.selected_index as int].insert_text@;
                    &&& final(self).input@ == old(self).input@.take(ws) + ins + old(self).input@.skip(k)
                    &&& final(self).cursor_position == utf8_len(old(self).input@.take(ws)) + utf8_len(ins)
                    &&& final(self).autocomplete.suggestions@.len() == 0
                    &&& !final(self).autocomplete.show_popup
                } else {
                    final(self).input@ == old(self).input@ && final(self).cursor_position == old(self).cursor_position
                }
            }),
            final(self).history == old(self).history,
            final(self).history_index == old(self).history_index,
            final(self).output == old(self).output,
    {
        self.autocomplete.accept_selected(&mut self.input, &mut self.cursor_position);
    }

    /// Selects the next completion.
    pub fn autocomplete_next(&mut self)
        requires
            old(self).autocomplete.selected_index < usize::MAX,
        ensures
            *final(self) == (App { autocomplete: final(self).autocomplete, ..*old(self) }),
            final(self).autocomplete.suggestions@ == old(self).autocomplete.suggestions@,
            final(self).autocomplete.selected_index == if old(self).autocomplete.suggestions@.len() == 0 {
                old(self).autocomplete.selected_index as int
            } else {
                (old(self).autocomplete.selected_index + 1) % (old(self).autocomplete.suggestions@.len() as int)
            },
    {
        self.autocomplete.select_next();
    }

    /// Selects the previous completion.
    pub fn autocomplete_previous(&mut self)
        ensures
            *final(self) == (App { autocomplete: final(self).autocomplete, ..*old(self) }),
            final(self).autocomplete.suggestions@ == old(self).autocomplete.suggestions@,
            final(self).autocomplete.selected_index == if old(self).autocomplete.suggestions@.len() == 0 {
                old(self).autocomplete.selected_index as int
            } else if old(self).autocomplete.selected_index == 0 {
                old(self).autocomplete.suggestions@.len() - 1
            } else {
                old(self).autocomplete.selected_index - 1
            },
    {
        self.autocomplete.select_previous();
    }

    /// Closes the completion popup.
    pub fn hide_autocomplete(&mut self)
        ensures
            *final(self) == (App { autocomplete: final(self).autocomplete, ..*old(self) }),
            final(self).autocomplete.suggestions@.len() == 0,
            !final(self).autocomplete.show_popup,
    {
        self.autocomplete.hide_popup();
    }

    /// The completion popup is shown.
    pub fn is_autocomplete_visible(&self) -> (r: bool)
        ensures
            r == (self.autocomplete.show_popup && self.autocomplete.suggestions@.len() > 0),
    {
        self.autocomplete.is_visible()
    }
}

} // verus!
