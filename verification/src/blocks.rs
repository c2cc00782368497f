//! Splitting the editor's text into the pieces that are sent to the REPL
//! one at a time: each definition (`type`, `enum`, `def`) with its braced
//! body, and each other non-empty, non-comment line.

use vstd::prelude::*;
use crate::delimiters::{starts_with, starts_with_chars};
use crate::repl::App;
use crate::builtins::joined;
use crate::editor::line_texts;
use crate::repl::cursor_chars;
use crate::tree_render::{decimal_string, decimal_text};
use crate::text::{
    byte_len, char_index_at, chars_of, is_boundary, lemma_spec_bytes_len, push_char, string_from_chars, string_from_range,
    trim, trim_chars, utf8_len,
};

verus! {

/// The position of the first line break in `s` at or after `from`, or the
/// end.
pub open spec fn newline_at(s: Seq<char>, from: int) -> int
    decreases s.len() - from,
{
    if from >= s.len() {
        s.len() as int
    } else if s[from] == '\n' {
        from
    } else {
        newline_at(s, from + 1)
    }
}

/// The next line break lies between `from` and the end.
pub proof fn lemma_newline_at(s: Seq<char>, from: int)
    requires
        0 <= from <= s.len(),
    ensures
        from <= newline_at(s, from) <= s.len(),
        newline_at(s, from) < s.len() ==> s[newline_at(s, from)] == '\n',
    decreases s.len() - from,
{
    if from < s.len() && s[from] != '\n' {
        lemma_newline_at(s, from + 1);
    }
}

/// A line without the `\r` of a `\r\n` line end.
pub open spec fn strip_cr(l: Seq<char>) -> Seq<char> {
    if l.len() > 0 && l.last() == '\r' { l.drop_last() } else { l }
}

/// The lines of `s`, as `str::lines` gives them: split at `\n`, without a
/// final empty line after a trailing line break, each without a trailing
/// `\r`.
pub open spec fn lines_of(s: Seq<char>) -> Seq<Seq<char>>
    decreases s.len(),
{
    if s.len() == 0 {
        Seq::empty()
    } else {
        let j = newline_at(s, 0);
        proof {
            lemma_newline_at(s, 0);
        }
        let rest = if j < s.len() { s.skip(j + 1) } else { Seq::empty() };
        seq![strip_cr(s.take(j))] + lines_of(rest)
    }
}

/// The state of the splitter: the blocks found, the block being read, the
/// depth of braces in it and whether one is being read.
pub struct BlockState {
    pub blocks: Seq<Seq<char>>,
    pub current: Seq<char>,
    pub depth: int,
    pub in_block: bool,
}

/// One character of a line of a block: braces count, and the block ends
/// when the depth comes back to 0.
pub open spec fn brace_step(st: BlockState, c: char) -> BlockState {
    if c == '{' {
        BlockState { depth: st.depth + 1, ..st }
    } else if c == '}' {
        if st.depth - 1 == 0 {
            BlockState { blocks: st.blocks.push(trim(st.current)), current: Seq::empty(), depth: 0, in_block: false }
        } else {
            BlockState { depth: st.depth - 1, ..st }
        }
    } else {
        st
    }
}

/// The characters of a line, one after the other.
pub open spec fn brace_fold(st: BlockState, cs: Seq<char>) -> BlockState
    decreases cs.len(),
{
    if cs.len() == 0 {
        st
    } else {
        brace_fold(brace_step(st, cs[0]), cs.drop_first())
    }
}

/// A line starts a definition.
pub open spec fn starts_definition(t: Seq<char>) -> bool {
    starts_with(t, "type "@) || starts_with(t, "enum "@) || starts_with(t, "def "@)
}

/// One line: blank and comment lines are skipped; a definition starts a
/// new block (ending the one being read); a line of a block is added to it;
/// any other line is a block of its own.
pub open spec fn line_step(st: BlockState, line: Seq<char>) -> BlockState {
    let t = trim(line);
    if starts_with(t, "//"@) || t.len() == 0 {
        st
    } else {
        let st1 = if starts_definition(t) {
            let blocks = if st.in_block && trim(st.current).len() > 0 { st.blocks.push(trim(st.current)) } else { st.blocks };
            let current = if st.in_block && trim(st.current).len() > 0 { Seq::empty() } else { st.current };
            BlockState { blocks, current, depth: 0, in_block: true }
        } else {
            st
        };
        if st1.in_block {
            let current = if st1.current.len() > 0 { st1.current + seq!['\n'] + line } else { st1.current + line };
            brace_fold(BlockState { current, ..st1 }, line)
        } else {
            BlockState { blocks: st1.blocks.push(t), ..st1 }
        }
    }
}

/// The lines, one after the other.
pub open spec fn line_fold(st: BlockState, ls: Seq<Seq<char>>) -> BlockState
    decreases ls.len(),
{
    if ls.len() == 0 {
        st
    } else {
        line_fold(line_step(st, ls[0]), ls.drop_first())
    }
}

/// The blocks of `content`: the lines folded from an empty state, and the
/// block left open at the end, if it is not blank.
pub open spec fn blocks_of(content: Seq<char>) -> Seq<Seq<char>> {
    let st = line_fold(BlockState { blocks: Seq::empty(), current: Seq::empty(), depth: 0, in_block: false },
        lines_of(content));
    if trim(st.current).len() > 0 { st.blocks.push(trim(st.current)) } else { st.blocks }
}

/// The characters of each string.
pub open spec fn texts_of(v: Seq<String>) -> Seq<Seq<char>> {
    v.map_values(|s: String| s@)
}

/// Appends the trimmed text of `current` to `blocks`.
fn push_trimmed(blocks: &mut Vec<String>, current: &String)
    ensures
        texts_of(final(blocks)@) == texts_of(old(blocks)@).push(trim(current@)),
{
    let t = trim_chars(current.as_str());
    let s = string_from_chars(t.as_slice());
    let ghost before = blocks@;
    blocks.push(s);
    proof {
        assert(texts_of(blocks@) =~= texts_of(before).push(trim(current@)));
    }
}

impl App {
    /// Splits editor text into the pieces sent to the REPL: each `type`,
    /// `enum` or `def` block up to the brace that closes it, and each other
    /// line that is neither blank nor a comment, all trimmed.
    pub fn split_into_blocks(&self, content: &str) -> (r: Vec<String>)
        requires
            content@.len() <= i64::MAX,
        ensures
            texts_of(r@) == blocks_of(content@),
    {
        let v = chars_of(content);
        let n = v.len();
        let mut blocks: Vec<String> = Vec::new();
        let mut current = String::new();
        let mut depth: i64 = 0;
        let mut in_block = false;
        let ghost init = BlockState { blocks: Seq::empty(), current: Seq::empty(), depth: 0, in_block: false };
        let mut i: usize = 0;
        proof {
            assert(v@.skip(0) =~= v@);
            assert(texts_of(blocks@) =~= Seq::<Seq<char>>::empty());
        }
        while i < n
            invariant
                i <= n == v@.len() <= i64::MAX,
                v@ == content@,
                -(i as int) <= depth <= i,
                line_fold(BlockState { blocks: texts_of(blocks@), current: current@, depth: depth as int, in_block },
                    lines_of(v@.skip(i as int))) == line_fold(init, lines_of(v@)),
            decreases n - i,
        {
            let mut j = i;
            while j < n && v[j] != '\n'
                invariant
                    i <= j <= n == v@.len(),
                    newline_at(v@, i as int) == newline_at(v@, j as int),
                decreases n - j,
            {
                j = j + 1;
            }
            let ghost s = v@.skip(i as int);
            proof {
                lemma_newline_at(v@, i as int);
                assert(newline_at(v@, j as int) == j);
                lemma_newline_shift(v@, i as int, i as int);
                assert(s.take(j - i) =~= v@.subrange(i as int, j as int));
            }
            let end = if j > i && v[j - 1] == '\r' { j - 1 } else { j };
            let line = string_from_range(v.as_slice(), i, end);
            proof {
                assert(line@ == strip_cr(s.take(j - i)));
            }
            let ghost st = BlockState { blocks: texts_of(blocks@), current: current@, depth: depth as int, in_block };
            let t = trim_chars(line.as_str());
            let skip = t.len() == 0 || starts_with_chars(t.as_slice(), "//");
            if !skip {
                if starts_with_chars(t.as_slice(), "type ") || starts_with_chars(t.as_slice(), "enum ")
                    || starts_with_chars(t.as_slice(), "def ") {
                    if in_block {
                        let ct = trim_chars(current.as_str());
                        if ct.len() > 0 {
                            push_trimmed(&mut blocks, &current);
                            current = String::new();
                        }
                    }
                    in_block = true;
                    depth = 0;
                }
                let ghost st1 = BlockState { blocks: texts_of(blocks@), current: current@, depth: depth as int, in_block };
                proof {
                    let tt = trim(line@);
                    assert(t@ == tt);
                    let e1 = if starts_definition(tt) {
                        let bl = if st.in_block && trim(st.current).len() > 0 { st.blocks.push(trim(st.current)) } else { st.blocks };
                        let cu = if st.in_block && trim(st.current).len() > 0 { Seq::empty() } else { st.current };
                        BlockState { blocks: bl, current: cu, depth: 0, in_block: true }
                    } else {
                        st
                    };
                    assert(st1 == e1);
                }
                if in_block {
                    if current.as_str().unicode_len() > 0 {
                        push_char(&mut current, '\n');
                    }
                    current.append(line.as_str());
                    let lc = chars_of(line.as_str());
                    let mut k: usize = 0;
                    let ghost st2 = BlockState { blocks: texts_of(blocks@), current: current@, depth: depth as int, in_block };
                    proof {
                        assert(lc@.skip(0) =~= lc@);
                    }
                    while k < lc.len()
                        invariant
                            k <= lc@.len() <= j - i,
                            -(i as int) - (k as int) <= depth <= i + k,
                            j <= n <= i64::MAX,
                            brace_fold(BlockState { blocks: texts_of(blocks@), current: current@, depth: depth as int, in_block },
                                lc@.skip(k as int)) == brace_fold(st2, lc@),
                        decreases lc@.len() - k,
                    {
                        let c = lc[k];
                        proof {
                            assert(lc@.skip(k as int).drop_first() =~= lc@.skip(k + 1));
                            assert(lc@.skip(k as int)[0] == c);
                        }
                        if c == '{' {
                            depth = depth + 1;
                        } else if c == '}' {
                            depth = depth - 1;
                            if depth == 0 {
                                push_trimmed(&mut blocks, &current);
                                current = String::new();
                                in_block = false;
                            }
                        }
                        k = k + 1;
                    }
                    proof {
                        assert(lc@.skip(lc@.len() as int) =~= Seq::<char>::empty());
                        let cur2 = if st1.current.len() > 0 { st1.current + seq!['\n'] + line@ } else { st1.current + line@ };
                        assert(st2.current =~= cur2);
                        assert(st2 == BlockState { current: cur2, ..st1 });
                    }
                } else {
                    let ghost before = blocks@;
                    let tb = string_from_chars(t.as_slice());
                    blocks.push(tb);
                    proof {
                        assert(texts_of(blocks@) =~= texts_of(before).push(trim(line@)));
                    }
                }
            }
            proof {
                let now = BlockState { blocks: texts_of(blocks@), current: current@, depth: depth as int, in_block };
                assert(now == line_step(st, line@));
                let rest = if j < n { v@.skip(j + 1) } else { Seq::<char>::empty() };
                if j < n {
                    assert(s.skip(j - i + 1) =~= v@.skip(j + 1));
                }
                assert(lines_of(s) == seq![strip_cr(s.take(newline_at(s, 0)))] + lines_of(
                    if newline_at(s, 0) < s.len() { s.skip(newline_at(s, 0) + 1) } else { Seq::empty() }));
                assert(lines_of(s).drop_first() =~= lines_of(rest));
            }
            i = if j < n { j + 1 } else { n };
        }
        proof {
            assert(v@.skip(n as int) =~= Seq::<char>::empty());
        }
        let ct = trim_chars(current.as_str());
        if ct.len() > 0 {
            push_trimmed(&mut blocks, &current);
        }
        blocks
    }
}

/// Where the next line break is, seen from the text from `i` on.
pub(crate) proof fn lemma_newline_shift(s: Seq<char>, i: int, from: int)
    requires
        0 <= i <= from <= s.len(),
    ensures
        newline_at(s.skip(i), from - i) == newline_at(s, from) - i,
    decreases s.len() - from,
{
    if from < s.len() && s[from] != '\n' {
        lemma_newline_shift(s, i, from + 1);
    }
}

/// A piece of editor text worth sending to the REPL: not blank and not a
/// comment.
pub open spec fn worth_sending(t: Seq<char>) -> bool {
    trim(t).len() > 0 && !starts_with(trim(t), "//"@)
}

/// The pieces of `bs` worth sending, in order.
pub open spec fn worth_sending_all(bs: Seq<Seq<char>>) -> Seq<Seq<char>>
    decreases bs.len(),
{
    if bs.len() == 0 {
        Seq::empty()
    } else {
        let rest = worth_sending_all(bs.drop_last());
        if worth_sending(bs.last()) { rest.push(bs.last()) } else { rest }
    }
}

/// The blocks sent for editor text `content`: none if it is blank, else
/// its blocks that are worth sending.
pub open spec fn blocks_sent(content: Seq<char>) -> Seq<Seq<char>> {
    if trim(content).len() == 0 {
        Seq::empty()
    } else {
        worth_sending_all(blocks_of(content))
    }
}

fn is_worth_sending(t: &str) -> (r: bool)
    ensures
        r == worth_sending(t@),
{
    let tc = trim_chars(t);
    tc.len() > 0 && !starts_with_chars(tc.as_slice(), "//")
}

impl App {
    /// Puts the editor's current line into the REPL input, cursor at its
    /// end, when it is worth sending; says whether it did. The line is
    /// then submitted and the editor moves down a line.
    pub fn load_current_line(&mut self) -> (r: bool)
        ensures
            r == (old(self).editor_cursor_row < old(self).editor_lines@.len()
                && worth_sending(old(self).editor_lines@[old(self).editor_cursor_row as int]@)),
            r ==> final(self).input@ == old(self).editor_lines@[old(self).editor_cursor_row as int]@
                && final(self).cursor_position == utf8_len(final(self).input@)
                && *final(self) == (App { input: final(self).input, cursor_position: final(self).cursor_position, ..*old(self) }),
            !r ==> *final(self) == *old(self),
    {
        if self.editor_cursor_row < self.editor_lines.len() {
            let row = self.editor_cursor_row;
            if is_worth_sending(self.editor_lines[row].as_str()) {
                let line = self.editor_lines[row].clone();
                let t = line.as_str();
                proof {
                    lemma_spec_bytes_len(t);
                }
                let n = byte_len(t);
                self.input = line;
                self.cursor_position = n;
                return true;
            }
        }
        false
    }

    /// The blocks of the editor's text to send to the REPL one after the
    /// other.
    pub fn blocks_to_send(&self) -> (r: Vec<String>)
        requires
            joined(line_texts(self.editor_lines@), "\n"@).len() <= i64::MAX,
        ensures
            texts_of(r@) == blocks_sent(joined(line_texts(self.editor_lines@), "\n"@)),
    {
        let content = self.editor_get_content();
        let t = trim_chars(content.as_str());
        if t.len() == 0 {
            let r: Vec<String> = Vec::new();
            proof {
                assert(texts_of(r@) =~= Seq::<Seq<char>>::empty());
            }
            return r;
        }
        let blocks = self.split_into_blocks(content.as_str());
        let ghost all = texts_of(blocks@);
        let mut out: Vec<String> = Vec::new();
        let mut i: usize = 0;
        proof {
            assert(all.take(0) =~= Seq::<Seq<char>>::empty());
        }
        while i < blocks.len()
            invariant
                i <= blocks@.len(),
                all == texts_of(blocks@),
                texts_of(out@) == worth_sending_all(all.take(i as int)),
            decreases blocks@.len() - i,
        {
            let ghost before = out@;
            if is_worth_sending(blocks[i].as_str()) {
                out.push(blocks[i].clone());
            }
            proof {
                assert(all.take(i + 1).drop_last() =~= all.take(i as int));
                assert(all[i as int] == blocks@[i as int]@);
                assert(all.take(i + 1).last() == all[i as int]);
                if worth_sending(all[i as int]) {
                    assert(texts_of(out@) =~= texts_of(before).push(blocks@[i as int]@));
                } else {
                    assert(texts_of(out@) =~= texts_of(before));
                }
            }
            i = i + 1;
        }
        proof {
            assert(all.take(blocks@.len() as int) =~= all);
        }
        out
    }
}

/// The lines a workflow runs: the lines of `content`, trimmed, that are
/// neither blank nor comments.
pub open spec fn workflow_lines(ls: Seq<Seq<char>>) -> Seq<Seq<char>>
    decreases ls.len(),
{
    if ls.len() == 0 {
        Seq::empty()
    } else {
        let rest = workflow_lines(ls.drop_last());
        let t = trim(ls.last());
        if t.len() > 0 && !starts_with(t, "//"@) { rest.push(t) } else { rest }
    }
}

/// How a workflow step running `line` is named: its number (from 1) and
/// the line, cut after its first 47 bytes with an ellipsis when it is
/// longer than 50 bytes.
pub open spec fn step_name(number: nat, line: Seq<char>) -> Seq<char> {
    "Step "@ + decimal_text(number) + ": "@ + if utf8_len(line) > 50 {
        line.take(cursor_chars(line, 47)) + "..."@
    } else {
        line
    }
}

/// A step of a workflow run: its name and the line it runs.
#[derive(Debug)]
pub struct WorkflowStep {
    pub name: String,
    pub line: String,
}

/// The steps of running the editor's text `content` as a workflow, one per
/// line that is neither blank nor a comment; an error when the text is
/// blank. Each line longer than 50 bytes has a character boundary at byte
/// 47, where its name is cut.
pub fn workflow_steps(content: &str) -> (r: Result<Vec<WorkflowStep>, String>)
    requires
        forall|i: int| 0 <= i < workflow_lines(lines_of(content@)).len()
            && utf8_len(#[trigger] workflow_lines(lines_of(content@))[i]) > 50
            ==> is_boundary(workflow_lines(lines_of(content@))[i], 47),
    ensures
        match r {
            Err(e) => trim(content@).len() == 0 && e@ == "Editor is empty"@,
            Ok(steps) => {
                let ws = workflow_lines(lines_of(content@));
                &&& trim(content@).len() > 0
                &&& steps@.len() == ws.len()
                &&& forall|i: int| 0 <= i < ws.len() ==> (#[trigger] steps@[i]).line@ == ws[i]
                    && steps@[i].name@ == step_name((i + 1) as nat, ws[i])
            },
        },
{
    let t = trim_chars(content);
    if t.len() == 0 {
        return Err(String::from_str("Editor is empty"));
    }
    let ls = crate::repl_pane::split_lines(content);
    let ghost all = texts_of(ls@);
    let ghost ws = workflow_lines(all);
    let mut steps: Vec<WorkflowStep> = Vec::new();
    let mut i: usize = 0;
    proof {
        assert(all.take(0) =~= Seq::<Seq<char>>::empty());
    }
    while i < ls.len()
        invariant
            i <= ls@.len(),
            all == texts_of(ls@),
            all == lines_of(content@),
            ws == workflow_lines(all),
            forall|j: int| 0 <= j < ws.len() && utf8_len(#[trigger] ws[j]) > 50 ==> is_boundary(ws[j], 47),
            steps@.len() == workflow_lines(all.take(i as int)).len(),
            forall|j: int| 0 <= j < steps@.len() ==> (#[trigger] steps@[j]).line@ == workflow_lines(all.take(i as int))[j]
                && steps@[j].name@ == step_name((j + 1) as nat, workflow_lines(all.take(i as int))[j]),
            workflow_lines(all.take(i as int)).len() <= i,
        decreases ls@.len() - i,
    {
        let tc = trim_chars(ls[i].as_str());
        proof {
            assert(all.take(i + 1).drop_last() =~= all.take(i as int));
            assert(all.take(i + 1).last() == ls@[i as int]@);
            lemma_workflow_prefix(all, i as int + 1);
        }
        if tc.len() > 0 && !starts_with_chars(tc.as_slice(), "//") {
            let line = string_from_chars(tc.as_slice());
            let k = steps.len();
            proof {
                let now = workflow_lines(all.take(i + 1));
                assert(now == workflow_lines(all.take(i as int)).push(tc@));
                assert(now[k as int] == ws[k as int]);
                assert(ws[k as int] == line@);
            }
            let name = step_name_string(k + 1, &line);
            let ghost before = steps@;
            steps.push(WorkflowStep { name, line });
            proof {
                let prev = workflow_lines(all.take(i as int));
                let now = workflow_lines(all.take(i + 1));
                assert(now == prev.push(tc@));
                assert forall|j: int| 0 <= j < steps@.len() implies (#[trigger] steps@[j]).line@ == now[j]
                    && steps@[j].name@ == step_name((j + 1) as nat, now[j]) by {
                    if j < before.len() {
                        assert(steps@[j] == before[j]);
                    }
                }
            }
        }
        i = i + 1;
    }
    proof {
        assert(all.take(ls@.len() as int) =~= all);
    }
    Ok(steps)
}

/// The lines a workflow runs from the first `n` lines are among those it
/// runs from all of them, in the same places.
proof fn lemma_workflow_prefix(all: Seq<Seq<char>>, n: int)
    requires
        0 <= n <= all.len(),
    ensures
        workflow_lines(all.take(n)).len() <= workflow_lines(all).len(),
        forall|j: int| 0 <= j < workflow_lines(all.take(n)).len() ==> #[trigger] workflow_lines(all.take(n))[j]
            == workflow_lines(all)[j],
    decreases all.len() - n,
{
    if n < all.len() {
        lemma_workflow_prefix(all, n + 1);
        assert(all.take(n + 1).drop_last() =~= all.take(n));
        let a = workflow_lines(all.take(n));
        let b = workflow_lines(all.take(n + 1));
        assert forall|j: int| 0 <= j < a.len() implies #[trigger] a[j] == workflow_lines(all)[j] by {
            assert(a[j] == b[j]);
        }
    } else {
        assert(all.take(n) =~= all);
    }
}

/// The name of step `number` running `line`.
fn step_name_string(number: usize, line: &String) -> (r: String)
    requires
        utf8_len(line@) > 50 ==> is_boundary(line@, 47),
    ensures
        r@ == step_name(number as nat, line@),
{
    let mut r = String::from_str("Step ");
    let d = decimal_string(number);
    r.append(d.as_str());
    r.append(": ");
    let t = line.as_str();
    proof {
        lemma_spec_bytes_len(t);
    }
    if byte_len(t) > 50 {
        let v = chars_of(t);
        let k = char_index_at(&v, 47);
        proof {
            crate::repl::lemma_cursor_unique(v@, 47, k as int);
        }
        let head = string_from_range(v.as_slice(), 0, k);
        r.append(head.as_str());
        r.append("...");
        proof {
            assert(v@.subrange(0, k as int) =~= line@.take(k as int));
        }
    } else {
        r.append(t);
    }
    r
}

} // verus!
