//! Laying out the REPL pane: the artwork shown before any output, the
//! output lines (those in the selection marked), the prompt with the input,
//! how far the pane is scrolled and on which visible line the cursor is.

use vstd::prelude::*;
use crate::blocks::{lemma_newline_at, lemma_newline_shift, lines_of, newline_at, strip_cr, texts_of};
use crate::output::{item_lines, minus, OutputItem};
use crate::repl::{App, WorkspacePane};
use crate::text::{chars_of, string_from_range};
use crate::tree_render::{lines_view, piece_view, pieces_view, Piece, PieceView, Tone};

verus! {

/// The lines of `s`, as `str::lines` gives them.
pub fn split_lines(s: &str) -> (r: Vec<String>)
    ensures
        texts_of(r@) == lines_of(s@),
{
    let v = chars_of(s);
    let n = v.len();
    let mut out: Vec<String> = Vec::new();
    let mut i: usize = 0;
    proof {
        assert(v@.skip(0) =~= v@);
        assert(texts_of(out@) + lines_of(v@.skip(0)) =~= lines_of(v@));
    }
    while i < n
        invariant
            i <= n == v@.len(),
            v@ == s@,
            texts_of(out@) + lines_of(v@.skip(i as int)) == lines_of(v@),
        decreases n - i,
    {
        let mut j = i;
        while j < n && v[j] != '\n'
            invariant
                i <= j <= n == v@.len(),
                newline_at(v@, i as int) == newline_at(v@, j as int),
            decreases n - j,
        {
            j = j + 1;
        }
        let ghost t = v@.skip(i as int);
        proof {
            lemma_newline_at(v@, i as int);
            assert(newline_at(v@, j as int) == j);
            lemma_newline_shift(v@, i as int, i as int);
            assert(t.take(j - i) =~= v@.subrange(i as int, j as int));
        }
        let end = if j > i && v[j - 1] == '\r' { j - 1 } else { j };
        let line = string_from_range(v.as_slice(), i, end);
        let ghost before = out@;
        out.push(line);
        proof {
            assert(line@ == strip_cr(t.take(j - i)));
            let rest = if j < n { v@.skip(j + 1) } else { Seq::<char>::empty() };
            if j < n {
                assert(t.skip(j - i + 1) =~= v@.skip(j + 1));
            }
            assert(lines_of(t) == seq![strip_cr(t.take(newline_at(t, 0)))] + lines_of(
                if newline_at(t, 0) < t.len() { t.skip(newline_at(t, 0) + 1) } else { Seq::empty() }));
            assert(texts_of(out@) =~= texts_of(before).push(line@));
            assert(texts_of(out@) + lines_of(rest) =~= texts_of(before) + lines_of(t));
            if j >= n {
                assert(v@.skip(n as int) =~= Seq::<char>::empty());
            }
        }
        i = if j < n { j + 1 } else { n };
    }
    proof {
        assert(v@.skip(n as int) =~= Seq::<char>::empty());
        assert(texts_of(out@) =~= texts_of(out@) + lines_of(v@.skip(n as int)));
    }
    out
}

/// The prompt lines for `input`: a bare prompt while it is empty, else one
/// line per input line, the first after the main prompt and the others
/// after the continuation prompt.
pub open spec fn prompt_view(input: Seq<char>) -> Seq<Seq<PieceView>> {
    if input.len() == 0 {
        seq![seq![PieceView { text: "flow> "@, tone: Tone::Prompt }]]
    } else {
        let ls = lines_of(input);
        Seq::new(
            ls.len(),
            |i: int|
                seq![
                    PieceView { text: if i == 0 { "flow> "@ } else { "...> "@ }, tone: Tone::Prompt },
                    PieceView { text: ls[i], tone: Tone::Input },
                ],
        )
    }
}

/// The prompt and the input, as drawn.
pub fn prompt_lines(input: &str) -> (r: Vec<Vec<Piece>>)
    ensures
        lines_view(r@) == prompt_view(input@),
{
    let mut out: Vec<Vec<Piece>> = Vec::new();
    if input.unicode_len() == 0 {
        let mut l: Vec<Piece> = Vec::new();
        l.push(Piece { text: String::from_str("flow> "), tone: Tone::Prompt });
        proof {
            assert(pieces_view(l@) =~= seq![PieceView { text: "flow> "@, tone: Tone::Prompt }]);
        }
        out.push(l);
        proof {
            assert(lines_view(out@) =~= prompt_view(input@));
        }
        return out;
    }
    let ls = split_lines(input);
    let ghost want = prompt_view(input@);
    let mut i: usize = 0;
    while i < ls.len()
        invariant
            i <= ls@.len(),
            input@.len() > 0,
            texts_of(ls@) == lines_of(input@),
            want == prompt_view(input@),
            lines_view(out@) == want.take(i as int),
        decreases ls@.len() - i,
    {
        let mut l: Vec<Piece> = Vec::new();
        let p = if i == 0 { String::from_str("flow> ") } else { String::from_str("...> ") };
        l.push(Piece { text: p, tone: Tone::Prompt });
        l.push(Piece { text: ls[i].clone(), tone: Tone::Input });
        let ghost before = out@;
        proof {
            assert(texts_of(ls@)[i as int] == ls@[i as int]@);
            assert(pieces_view(l@) =~= want[i as int]);
        }
        out.push(l);
        proof {
            assert(texts_of(ls@).len() == ls@.len());
            assert(want.len() == ls@.len());
            assert(lines_view(out@) =~= lines_view(before).push(pieces_view(l@)));
            assert(lines_view(out@) =~= want.take(i + 1));
        }
        i = i + 1;
    }
    proof {
        assert(texts_of(ls@).len() == ls@.len());
        assert(want.take(ls@.len() as int) =~= want);
    }
    out
}

/// The number of line breaks in `s`.
pub open spec fn count_breaks(s: Seq<char>) -> nat
    decreases s.len(),
{
    if s.len() == 0 {
        0
    } else {
        count_breaks(s.drop_last()) + if s.last() == '\n' { 1nat } else { 0nat }
    }
}

proof fn lemma_breaks_concat(a: Seq<char>, b: Seq<char>)
    ensures
        count_breaks(a + b) == count_breaks(a) + count_breaks(b),
    decreases b.len(),
{
    if b.len() == 0 {
        assert(a + b =~= a);
    } else {
        assert((a + b).drop_last() =~= a + b.drop_last());
        lemma_breaks_concat(a, b.drop_last());
    }
}

proof fn lemma_no_breaks(s: Seq<char>, j: int)
    requires
        0 <= j <= s.len(),
        forall|k: int| 0 <= k < j ==> s[k] != '\n',
    ensures
        count_breaks(s.take(j)) == 0,
    decreases j,
{
    if j > 0 {
        assert(s.take(j).drop_last() =~= s.take(j - 1));
        lemma_no_breaks(s, j - 1);
    }
}

proof fn lemma_newline_at_clear(s: Seq<char>, from: int, k: int)
    requires
        0 <= from <= k < newline_at(s, from),
    ensures
        s[k] != '\n',
    decreases s.len() - from,
{
    if from < k {
        lemma_newline_at_clear(s, from + 1, k);
    }
}

/// There are no more line breaks in a text than it has lines.
proof fn lemma_breaks_le_lines(s: Seq<char>)
    ensures
        count_breaks(s) <= lines_of(s).len(),
    decreases s.len(),
{
    if s.len() > 0 {
        let j = newline_at(s, 0);
        lemma_newline_at(s, 0);
        assert forall|k: int| 0 <= k < j implies s[k] != '\n' by {
            lemma_newline_at_clear(s, 0, k);
        }
        lemma_no_breaks(s, j);
        if j < s.len() {
            let rest = s.skip(j + 1);
            assert(s =~= s.take(j) + seq!['\n'] + rest);
            lemma_breaks_concat(s.take(j) + seq!['\n'], rest);
            lemma_breaks_concat(s.take(j), seq!['\n']);
            assert(seq!['\n'].drop_last() =~= Seq::<char>::empty());
            assert(count_breaks(Seq::<char>::empty()) == 0);
            assert(seq!['\n'].last() == '\n');
            assert(count_breaks(seq!['\n']) == 1);
            lemma_breaks_le_lines(rest);
            assert(lines_of(s) == seq![strip_cr(s.take(j))] + lines_of(rest));
            assert(lines_of(s).len() == 1 + lines_of(rest).len());
        } else {
            assert(s.take(j) =~= s);
            assert(lines_of(s) == seq![strip_cr(s.take(j))] + lines_of(Seq::<char>::empty()));
            assert(lines_of(s).len() >= 1);
        }
    }
}

/// The line breaks before position `k`, counted.
fn breaks_before(v: &Vec<char>, k: usize) -> (n: usize)
    requires
        k <= v@.len(),
    ensures
        n == count_breaks(v@.take(k as int)),
        n <= k,
{
    let mut n: usize = 0;
    let mut i: usize = 0;
    while i < k
        invariant
            i <= k <= v@.len(),
            n == count_breaks(v@.take(i as int)),
            n <= i,
        decreases k - i,
    {
        proof {
            assert(v@.take(i + 1).drop_last() =~= v@.take(i as int));
        }
        if v[i] == '\n' {
            n = n + 1;
        }
        i = i + 1;
    }
    n
}

/// A line of the pane, marked when it lies in the selection.
pub struct PaneLine {
    pub pieces: Vec<Piece>,
    pub selected: bool,
}

/// The REPL pane as laid out: its lines, how many lines it is scrolled by,
/// whether it needs a scroll bar, and the visible line of the cursor when
/// the cursor is shown.
pub struct ReplPane {
    pub lines: Vec<PaneLine>,
    pub scroll: u16,
    pub scrollbar: bool,
    pub cursor_line: Option<usize>,
}

/// The lines of a pane, by their pieces and marks.
pub open spec fn pane_lines_view(ls: Seq<PaneLine>) -> Seq<(Seq<PieceView>, bool)> {
    ls.map_values(|l: PaneLine| (pieces_view(l.pieces@), l.selected))
}

/// The lines of all output items in turn.
pub open spec fn output_lines(items: Seq<OutputItem>, width: nat) -> Seq<Seq<PieceView>>
    decreases items.len(),
{
    if items.len() == 0 {
        Seq::empty()
    } else {
        output_lines(items.drop_last(), width) + item_lines(items.last(), width)
    }
}

/// The first and last selected output line, in order; far past any line
/// when nothing is selected.
pub open spec fn selection_bounds(start: Option<usize>, end: Option<usize>) -> (int, int) {
    match (start, end) {
        (Some(a), Some(b)) => if a <= b { (a as int, b as int) } else { (b as int, a as int) },
        _ => (usize::MAX as int, usize::MAX as int),
    }
}

/// Lines none of which is marked.
pub open spec fn unmarked(ls: Seq<Seq<PieceView>>) -> Seq<(Seq<PieceView>, bool)> {
    ls.map_values(|l: Seq<PieceView>| (l, false))
}

/// The lines of the pane: the artwork and a blank line while there is no
/// output yet, then the output lines (those from the first to the last
/// selected line marked), then, while the REPL pane is active, the prompt
/// with the input.
pub open spec fn pane_view(
    artwork: Seq<Seq<PieceView>>,
    items: Seq<OutputItem>,
    start: Option<usize>,
    end: Option<usize>,
    active: bool,
    input: Seq<char>,
    width: nat,
) -> Seq<(Seq<PieceView>, bool)> {
    let ol = output_lines(items, width);
    let (lo, hi) = selection_bounds(start, end);
    (if items.len() == 0 {
        unmarked(artwork) + seq![(seq![PieceView { text: Seq::empty(), tone: Tone::Plain }], false)]
    } else {
        Seq::empty()
    }) + Seq::new(ol.len(), |k: int| (ol[k], lo <= k <= hi)) + if active {
        unmarked(prompt_view(input))
    } else {
        Seq::empty()
    }
}

/// How far the pane is scrolled: to the end while it follows the output,
/// else where it was but no further than the end. The end is the number of
/// lines beyond those that fit, cut to 16 bits.
pub open spec fn clamped_scroll(follow: bool, offset: u16, total: nat, visible: nat) -> u16 {
    let last = minus(total, visible) as u16;
    if follow { last } else if offset < last { offset } else { last }
}

/// The visible line of the cursor: the line of the pane where the input's
/// cursor line is, less the scroll.
pub open spec fn cursor_row(input: Seq<char>, k: int, total: nat, scroll: u16) -> nat {
    let n = lines_of(input).len();
    let count = if n > 0 { n } else { 1 };
    minus(minus(total, count) + count_breaks(input.take(k)), scroll as nat)
}

/// Output lines, each marked when it lies from `lo` to `hi`.
pub open spec fn marked(ls: Seq<Seq<PieceView>>, lo: int, hi: int) -> Seq<(Seq<PieceView>, bool)> {
    Seq::new(ls.len(), |k: int| (ls[k], lo <= k <= hi))
}

fn copy_line(l: &Vec<Piece>) -> (r: Vec<Piece>)
    ensures
        pieces_view(r@) == pieces_view(l@),
{
    let mut r: Vec<Piece> = Vec::new();
    let mut i: usize = 0;
    while i < l.len()
        invariant
            i <= l@.len(),
            pieces_view(r@) == pieces_view(l@).take(i as int),
        decreases l@.len() - i,
    {
        let p = Piece { text: l[i].text.clone(), tone: l[i].tone };
        let ghost before = r@;
        r.push(p);
        proof {
            assert(pieces_view(r@) =~= pieces_view(before).push(piece_view(p)));
            assert(pieces_view(l@).take(i + 1) =~= pieces_view(l@).take(i as int).push(piece_view(l@[i as int])));
        }
        i = i + 1;
    }
    proof {
        assert(pieces_view(l@).take(l@.len() as int) =~= pieces_view(l@));
    }
    r
}

/// Appends `ls` to `lines`, none of them marked.
fn push_unmarked(lines: &mut Vec<PaneLine>, ls: &Vec<Vec<Piece>>)
    ensures
        pane_lines_view(final(lines)@) == pane_lines_view(old(lines)@) + unmarked(lines_view(ls@)),
{
    let ghost start = pane_lines_view(lines@);
    let mut i: usize = 0;
    while i < ls.len()
        invariant
            i <= ls@.len(),
            pane_lines_view(lines@) == start + unmarked(lines_view(ls@)).take(i as int),
        decreases ls@.len() - i,
    {
        let l = copy_line(&ls[i]);
        let ghost before = lines@;
        lines.push(PaneLine { pieces: l, selected: false });
        proof {
            assert(pane_lines_view(lines@) =~= pane_lines_view(before).push((pieces_view(l@), false)));
            assert(unmarked(lines_view(ls@)).take(i + 1) =~= unmarked(lines_view(ls@)).take(i as int).push(
                (pieces_view(ls@[i as int]@), false)));
        }
        i = i + 1;
    }
    proof {
        assert(unmarked(lines_view(ls@)).take(ls@.len() as int) =~= unmarked(lines_view(ls@)));
    }
}

/// Appends the lines of `items` drawn at `width`, marking those from the
/// `lo`-th to the `hi`-th output line.
fn push_output(lines: &mut Vec<PaneLine>, items: &Vec<OutputItem>, width: usize, lo: usize, hi: usize)
    ensures
        pane_lines_view(final(lines)@) == pane_lines_view(old(lines)@) + marked(
            output_lines(items@, width as nat),
            lo as int,
            hi as int,
        ),
{
    let ghost head = pane_lines_view(lines@);
    let ghost w = width as nat;
    let base = lines.len();
    proof {
        assert(items@.take(0) =~= Seq::<OutputItem>::empty());
        assert(marked(output_lines(items@.take(0), w), lo as int, hi as int) =~= Seq::empty());
        assert(pane_lines_view(lines@) =~= head + marked(output_lines(items@.take(0), w), lo as int, hi as int));
    }
    let mut i: usize = 0;
    while i < items.len()
        invariant
            i <= items@.len(),
            w == width as nat,
            base == head.len(),
            base <= lines@.len(),
            pane_lines_view(lines@) == head + marked(output_lines(items@.take(i as int), w), lo as int, hi as int),
        decreases items@.len() - i,
    {
        let ls = items[i].to_lines(width);
        let ghost prev = output_lines(items@.take(i as int), w);
        let mut j: usize = 0;
        proof {
            assert(lines_view(ls@).take(0) =~= Seq::<Seq<PieceView>>::empty());
            assert(prev + lines_view(ls@).take(0) =~= prev);
        }
        while j < ls.len()
            invariant
                j <= ls@.len(),
                base == head.len(),
                base <= lines@.len(),
                lines_view(ls@) == item_lines(items@[i as int], w),
                pane_lines_view(lines@) == head + marked(prev + lines_view(ls@).take(j as int), lo as int, hi as int),
            decreases ls@.len() - j,
        {
            let k = lines.len() - base;
            let sel = k >= lo && k <= hi;
            let l = copy_line(&ls[j]);
            let ghost before = lines@;
            lines.push(PaneLine { pieces: l, selected: sel });
            proof {
                let a = prev + lines_view(ls@).take(j as int);
                let b = prev + lines_view(ls@).take(j + 1);
                assert(b =~= a.push(pieces_view(ls@[j as int]@)));
                assert(pane_lines_view(before).len() == before.len());
                assert(marked(a, lo as int, hi as int).len() == a.len());
                assert(k == a.len());
                assert(marked(b, lo as int, hi as int) =~= marked(a, lo as int, hi as int).push(
                    (pieces_view(ls@[j as int]@), sel)));
                assert(pane_lines_view(lines@) =~= pane_lines_view(before).push((pieces_view(l@), sel)));
            }
            j = j + 1;
        }
        proof {
            assert(lines_view(ls@).take(ls@.len() as int) =~= lines_view(ls@));
            assert(items@.take(i + 1).drop_last() =~= items@.take(i as int));
            assert(items@.take(i + 1).last() == items@[i as int]);
        }
        i = i + 1;
    }
    proof {
        assert(items@.take(items@.len() as int) =~= items@);
    }
}

/// The visible line of the cursor, when it falls inside the pane.
fn cursor_visible_line(app: &App, total: usize, scroll: u16, visible: usize) -> (r: Option<usize>)
    requires
        app.wf(),
    ensures
        r == {
            let row = cursor_row(app.input@, app.cursor_index(), total as nat, scroll);
            if row < visible { Some(row as usize) } else { None::<usize> }
        },
{
    let (chars, k) = app.cursor_and_chars();
    let breaks = breaks_before(&chars, k);
    let n = split_lines(app.input.as_str()).len();
    let count = if n > 0 { n } else { 1 };
    proof {
        let s = app.input@;
        assert(s =~= s.take(k as int) + s.skip(k as int));
        lemma_breaks_concat(s.take(k as int), s.skip(k as int));
        lemma_breaks_le_lines(s);
    }
    let global = total.saturating_sub(count) + breaks;
    let row = global.saturating_sub(scroll as usize);
    if row < visible { Some(row) } else { None }
}

impl App {
    /// Lays out the REPL pane in an area `width` by `height` (frame
    /// included), with `artwork` above the output while there is none.
    /// Records the width the output is drawn at and the scroll, clamped to
    /// the content. Where on the screen the area lies is the caller's
    /// business.
    pub fn draw_repl_pane(&mut self, artwork: &Vec<Vec<Piece>>, width: u16, height: u16) -> (r: ReplPane)
        requires
            old(self).wf(),
        ensures
            pane_lines_view(r.lines@) == pane_view(
                lines_view(artwork@),
                old(self).output@,
                old(self).selection_start,
                old(self).selection_end,
                old(self).active_pane == WorkspacePane::Repl,
                old(self).input@,
                minus(width as nat, 2),
            ),
            r.scroll == clamped_scroll(
                old(self).auto_scroll_output,
                old(self).output_scroll_offset,
                r.lines@.len(),
                minus(height as nat, 2),
            ),
            r.scrollbar == (r.lines@.len() > minus(height as nat, 2)),
            r.cursor_line == if old(self).active_pane == WorkspacePane::Repl && old(self).input@.len() > 0 {
                let row = cursor_row(old(self).input@, old(self).cursor_index(), r.lines@.len(), r.scroll);
                if row < minus(height as nat, 2) { Some(row as usize) } else { None }
            } else {
                None
            },
            *final(self) == (App {
                output_scroll_offset: r.scroll,
                last_render_width: minus(width as nat, 2) as usize,
                ..*old(self)
            }),
    {
        let ghost app0 = *self;
        let repl_width: usize = width.saturating_sub(2) as usize;
        self.last_render_width = repl_width;
        let (lo, hi) = match (self.selection_start, self.selection_end) {
            (Some(a), Some(b)) => if a <= b { (a, b) } else { (b, a) },
            _ => (usize::MAX, usize::MAX),
        };
        let ghost items = self.output@;
        let ghost w = repl_width as nat;
        let mut lines: Vec<PaneLine> = Vec::new();
        if self.output.len() == 0 {
            push_unmarked(&mut lines, artwork);
            let mut blank: Vec<Piece> = Vec::new();
            blank.push(Piece { text: String::new(), tone: Tone::Plain });
            proof {
                assert(pieces_view(blank@) =~= seq![PieceView { text: Seq::empty(), tone: Tone::Plain }]);
            }
            lines.push(PaneLine { pieces: blank, selected: false });
        }
        let ghost head = pane_lines_view(lines@);
        proof {
            assert(head =~= if items.len() == 0 {
                unmarked(lines_view(artwork@)) + seq![(seq![PieceView { text: Seq::empty(), tone: Tone::Plain }], false)]
            } else {
                Seq::empty()
            });
        }
        push_output(&mut lines, &self.output, repl_width, lo, hi);
        let active = self.active_pane == WorkspacePane::Repl;
        if active {
            let ps = prompt_lines(self.input.as_str());
            push_unmarked(&mut lines, &ps);
        }
        proof {
            assert(pane_lines_view(lines@) =~= pane_view(
                lines_view(artwork@),
                items,
                app0.selection_start,
                app0.selection_end,
                app0.active_pane == WorkspacePane::Repl,
                app0.input@,
                w,
            ));
        }
        let total = lines.len();
        let visible: usize = height.saturating_sub(2) as usize;
        let last: u16 = total.saturating_sub(visible) as u16;
        let scroll = if self.auto_scroll_output {
            last
        } else if self.output_scroll_offset < last {
            self.output_scroll_offset
        } else {
            last
        };
        self.output_scroll_offset = scroll;
        let cursor_line = if active && self.input.unicode_len() > 0 {
            cursor_visible_line(self, total, scroll, visible)
        } else {
            None
        };
        ReplPane { lines, scroll, scrollbar: total > visible, cursor_line }
    }
}

/// The pane is never scrolled past its content: the scroll is at most the
/// number of lines that do not fit (as cut to 16 bits), and a pane that
/// follows the output is scrolled exactly that far.
pub proof fn law_scroll_stays_within_content(follow: bool, offset: u16, total: nat, visible: nat)
    ensures
        clamped_scroll(follow, offset, total, visible) <= minus(total, visible) as u16,
        follow ==> clamped_scroll(follow, offset, total, visible) == minus(total, visible) as u16,
        !follow && offset <= minus(total, visible) as u16 ==> clamped_scroll(follow, offset, total, visible) == offset,
{
}

} // verus!
