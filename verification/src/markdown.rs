//! Drawing markdown as styled lines: headings with a mark and their own
//! colour, emphasis and strong text, framed code blocks, bulleted lists,
//! inline code, rules, and text wrapped to the width.
//!
//! The drawing is a walk over the markdown's events (the starts and ends
//! of its elements, its text, code and breaks); reading the events out of
//! the source is left to a markdown parser.

use vstd::prelude::*;
use crate::blocks::{lines_of, texts_of};
use crate::output::{corner_rule, minus};
use crate::repl_pane::split_lines;
use crate::table_render::repeated;
use crate::text::{is_space, is_space_char, push_char};
use crate::wrapping::{string_views, wrap_text, wrapped};
use crate::markdown::MdTag as G;
use crate::markdown::MdTag::{CodeBlock, Emphasis, Heading, Item, List, Paragraph, Strong};
use crate::markdown::MdEvent::{Code, End, HardBreak, Rule, SoftBreak, Start, Text};
use pulldown_cmark::{Event as Ev, Options, Parser, TagEnd as Te};

verus! {

/// A colour of styled text.
#[derive(Debug, Clone, Copy, PartialEq, Eq, Structural)]
pub enum MdColor {
    Cyan,
    Blue,
    Magenta,
    Yellow,
    Green,
    DarkGray,
    White,
    Red,
    /// The terminal's own colour, set back explicitly.
    Reset,
}

/// Whether a text attribute (bold, italic, underlined) is switched on,
/// switched off, or left to what the text is drawn over.
#[derive(Debug, Clone, Copy, PartialEq, Eq, Structural)]
pub enum Attr {
    Unset,
    On,
    Off,
}

/// The style of a piece of text.
#[derive(Debug, Clone, Copy, PartialEq, Eq)]
pub struct MdStyle {
    pub fg: Option<MdColor>,
    pub bold: Attr,
    pub italic: Attr,
    pub underlined: Attr,
}

/// A piece of styled text.
#[derive(Debug, Clone)]
pub struct StyledPiece {
    pub text: String,
    pub style: MdStyle,
}

/// An element of markdown that starts and ends.
#[derive(Debug, Clone, Copy, PartialEq, Eq, Structural)]
pub enum MdTag {
    /// A heading of the given level (1 to 6).
    Heading(u8),
    Emphasis,
    Strong,
    CodeBlock,
    List,
    Item,
    Paragraph,
    /// Any other element (links, tables, quotes and so on).
    Other,
}

/// An event of a markdown walk.
#[derive(Debug, Clone)]
pub enum MdEvent {
    Start(MdTag),
    End(MdTag),
    Text(String),
    Code(String),
    SoftBreak,
    HardBreak,
    Rule,
    /// Anything else (HTML, footnotes, task markers and so on).
    Other,
}

/// A styled piece, by its characters.
pub struct StyledView {
    pub text: Seq<char>,
    pub style: MdStyle,
}

pub open spec fn styled_view(p: StyledPiece) -> StyledView {
    StyledView { text: p.text@, style: p.style }
}

pub open spec fn styled_line(ps: Seq<StyledPiece>) -> Seq<StyledView> {
    ps.map_values(|p: StyledPiece| styled_view(p))
}

pub open spec fn styled_lines(ls: Seq<Vec<StyledPiece>>) -> Seq<Seq<StyledView>> {
    ls.map_values(|l: Vec<StyledPiece>| styled_line(l@))
}

/// No colour and no attribute.
pub open spec fn plain_style() -> MdStyle {
    MdStyle { fg: None, bold: Attr::Unset, italic: Attr::Unset, underlined: Attr::Unset }
}

/// Just a colour.
pub open spec fn colored(c: MdColor) -> MdStyle {
    MdStyle { fg: Some(c), ..plain_style() }
}

/// The style of a heading of level `level`.
pub open spec fn heading_style(level: u8) -> MdStyle {
    if level == 1 {
        MdStyle { fg: Some(MdColor::Cyan), bold: Attr::On, italic: Attr::Unset, underlined: Attr::On }
    } else if level == 2 {
        MdStyle { bold: Attr::On, ..colored(MdColor::Blue) }
    } else if level == 3 {
        MdStyle { bold: Attr::On, ..colored(MdColor::Magenta) }
    } else {
        MdStyle { bold: Attr::On, ..colored(MdColor::Yellow) }
    }
}

/// The mark before a heading of level `level`.
pub open spec fn heading_mark(level: u8) -> Seq<char> {
    if level == 1 {
        "█ "@
    } else if level == 2 {
        "▓ "@
    } else if level == 3 {
        "▒ "@
    } else {
        "░ "@
    }
}

/// An empty line.
pub open spec fn blank_line() -> Seq<StyledView> {
    seq![StyledView { text: Seq::empty(), style: plain_style() }]
}

/// A rule across the width between two corner marks.
pub open spec fn frame_line(left: char, right: char, width: nat) -> Seq<StyledView> {
    seq![StyledView { text: seq![left] + repeated('─', minus(width, 2)) + seq![right], style: colored(MdColor::DarkGray) }]
}

/// The state of the walk: the lines drawn, the pieces waiting to start
/// the next line, the text waiting to be wrapped, the current style, and
/// whether a code block and a list are open (and how deep the lists are).
pub struct MdState {
    pub lines: Seq<Seq<StyledView>>,
    pub spans: Seq<StyledView>,
    pub text: Seq<char>,
    pub style: MdStyle,
    pub in_code: bool,
    pub in_list: bool,
    pub indent: nat,
}

/// The state a walk starts in.
pub open spec fn md_start() -> MdState {
    MdState {
        lines: Seq::empty(),
        spans: Seq::empty(),
        text: Seq::empty(),
        style: plain_style(),
        in_code: false,
        in_list: false,
        indent: 0,
    }
}

/// The space kept before the waiting text where it follows pieces on its
/// line and starts with white space.
pub open spec fn lead(st: MdState) -> Seq<char> {
    if st.spans.len() > 0 && st.text.len() > 0 && is_space(st.text[0]) { seq![' '] } else { Seq::empty() }
}

/// The first line's piece of text gets the lead where it has words; the
/// other pieces do not.
pub open spec fn led(st: MdState, ws: Seq<Seq<char>>, i: int) -> Seq<char> {
    if i == 0 && ws[i].len() > 0 { lead(st) + ws[i] } else { ws[i] }
}

/// The waiting text and pieces drawn: the text wrapped to `width` in the
/// current style, the waiting pieces starting its first line; pieces with
/// no text make a line of their own.
pub open spec fn flush(st: MdState, width: nat) -> MdState {
    if st.text.len() == 0 && st.spans.len() == 0 {
        st
    } else if st.text.len() > 0 {
        let ws = wrapped(st.text, width);
        MdState {
            lines: st.lines + Seq::new(
                ws.len(),
                |i: int|
                    (if i == 0 { st.spans } else { Seq::empty() }) + seq![StyledView { text: led(st, ws, i), style: st.style }],
            ),
            spans: if ws.len() > 0 { Seq::empty() } else { st.spans },
            text: Seq::empty(),
            ..st
        }
    } else {
        MdState { lines: st.lines.push(st.spans), spans: Seq::empty(), ..st }
    }
}

/// The lines of a code block's text: each after a bar.
pub open spec fn code_lines(text: Seq<char>) -> Seq<Seq<StyledView>> {
    let ls = lines_of(text);
    Seq::new(
        ls.len(),
        |i: int|
            seq![
                StyledView { text: "│ "@, style: colored(MdColor::DarkGray) },
                StyledView { text: ls[i], style: colored(MdColor::Green) },
            ],
    )
}

/// One event of the walk.
pub open spec fn md_step(st: MdState, ev: MdEvent, width: nat) -> MdState {
    match ev {
        MdEvent::Start(tag) => match tag {
            MdTag::Heading(level) => {
                let s1 = flush(st, width);
                MdState {
                    spans: s1.spans.push(StyledView { text: heading_mark(level), style: heading_style(level) }),
                    style: heading_style(level),
                    ..s1
                }
            },
            MdTag::Emphasis => {
                let s1 = text_to_span(st);
                MdState { style: MdStyle { italic: Attr::On, ..s1.style }, ..s1 }
            },
            MdTag::Strong => {
                let s1 = text_to_span(st);
                MdState { style: MdStyle { bold: Attr::On, fg: Some(MdColor::Yellow), ..s1.style }, ..s1 }
            },
            MdTag::CodeBlock => {
                let s1 = flush(st, width);
                MdState {
                    lines: s1.lines.push(frame_line('┌', '┐', width)),
                    in_code: true,
                    style: colored(MdColor::Green),
                    ..s1
                }
            },
            MdTag::List => MdState { in_list: true, indent: st.indent + 1, ..st },
            MdTag::Item => {
                let s1 = flush(st, width);
                let bullet = repeated(' ', 2 * minus(st.indent, 1)) + "• "@;
                MdState { spans: s1.spans.push(StyledView { text: bullet, style: colored(MdColor::Cyan) }), ..s1 }
            },
            MdTag::Paragraph => flush(st, width),
            MdTag::Other => st,
        },
        MdEvent::End(tag) => match tag {
            MdTag::Heading(_) => {
                let s1 = flush(st, width);
                MdState { lines: s1.lines.push(blank_line()), style: plain_style(), ..s1 }
            },
            MdTag::Emphasis => {
                let s1 = text_to_span(st);
                MdState { style: MdStyle { italic: Attr::Off, ..s1.style }, ..s1 }
            },
            MdTag::Strong => {
                let s1 = text_to_span(st);
                MdState { style: MdStyle { bold: Attr::Off, fg: Some(MdColor::Reset), ..s1.style }, ..s1 }
            },
            MdTag::CodeBlock => {
                let s1 = flush(st, width);
                MdState {
                    lines: s1.lines.push(frame_line('└', '┘', width)).push(blank_line()),
                    in_code: false,
                    style: plain_style(),
                    ..s1
                }
            },
            MdTag::List => {
                let s1 = flush(st, width);
                let indent = minus(st.indent, 1);
                if indent == 0 {
                    MdState { lines: s1.lines.push(blank_line()), in_list: false, indent, ..s1 }
                } else {
                    MdState { indent, ..s1 }
                }
            },
            MdTag::Paragraph => {
                let s1 = flush(st, width);
                if st.in_list { s1 } else { MdState { lines: s1.lines.push(blank_line()), ..s1 } }
            },
            _ => st,
        },
        MdEvent::Text(t) => if st.in_code {
            MdState { lines: st.lines + code_lines(t@), ..st }
        } else {
            MdState { text: st.text + t@, ..st }
        },
        MdEvent::Code(c) => {
            let s1 = flush_text(st, width);
            let piece = StyledView { text: seq!['`'] + c@ + seq!['`'], style: MdStyle { bold: Attr::On, ..colored(MdColor::Green) } };
            MdState { spans: s1.spans.push(piece), ..s1 }
        },
        MdEvent::SoftBreak => if st.in_code { st } else { MdState { text: st.text.push(' '), ..st } },
        MdEvent::HardBreak => flush(st, width),
        MdEvent::Rule => {
            let s1 = flush(st, width);
            let rule = seq![StyledView { text: repeated('─', width), style: colored(MdColor::DarkGray) }];
            MdState { lines: s1.lines.push(rule).push(blank_line()), ..s1 }
        },
        MdEvent::Other => st,
    }
}

/// The waiting text drawn in the style it was written in, before the
/// style changes or a piece follows it.
pub open spec fn flush_text(st: MdState, width: nat) -> MdState {
    if st.text.len() > 0 { flush(st, width) } else { st }
}

/// The waiting text kept as one piece of the current line, in the style
/// it was written in, before the style changes.
pub open spec fn text_to_span(st: MdState) -> MdState {
    if st.text.len() > 0 {
        MdState { spans: st.spans.push(StyledView { text: st.text, style: st.style }), text: Seq::empty(), ..st }
    } else {
        st
    }
}

/// Strong text is drawn bold, on the line it stands in: the end of a strong
/// element leaves the text inside it as the last piece of the current line,
/// bold, and draws no line.
pub proof fn law_strong_text_is_bold(st: MdState, t: String, width: nat)
    requires
        !st.in_code,
        t@.len() > 0,
    ensures
        ({
            let s1 = md_step(st, MdEvent::Start(MdTag::Strong), width);
            let s3 = md_step(md_step(s1, MdEvent::Text(t), width), MdEvent::End(MdTag::Strong), width);
            &&& s3.spans.last() == (StyledView { text: t@, style: s1.style })
            &&& s3.spans.last().style.bold == Attr::On
            &&& s3.lines == st.lines
            &&& s3.text.len() == 0
        }),
{
    let s1 = md_step(st, MdEvent::Start(MdTag::Strong), width);
    assert(s1.text.len() == 0);
    let s2 = md_step(s1, MdEvent::Text(t), width);
    assert(s2.text =~= t@);
}

/// The walk over `events`, in order.
pub open spec fn md_fold(events: Seq<MdEvent>, width: nat) -> MdState
    decreases events.len(),
{
    if events.len() == 0 {
        md_start()
    } else {
        md_step(md_fold(events.drop_last(), width), events.last(), width)
    }
}

/// The walk over `events` with one more event after them.
proof fn lemma_fold_push(events: Seq<MdEvent>, ev: MdEvent, width: nat)
    ensures
        md_fold(events.push(ev), width) == md_step(md_fold(events, width), ev, width),
{
    assert(events.push(ev).drop_last() =~= events);
}

/// A soft break between two pieces of text outside a code block is drawn
/// as one space: after any events, the text `a`, a soft break and the text
/// `b` draw exactly what the one text `a b` draws.
pub proof fn law_soft_break_is_a_space(events: Seq<MdEvent>, a: String, b: String, ab: String, width: nat)
    requires
        !md_fold(events, width).in_code,
        ab@ == a@ + seq![' '] + b@,
    ensures
        md_fold(events + seq![MdEvent::Text(a), MdEvent::SoftBreak, MdEvent::Text(b)], width)
            == md_fold(events.push(MdEvent::Text(ab)), width),
        md_lines(events + seq![MdEvent::Text(a), MdEvent::SoftBreak, MdEvent::Text(b)], width)
            == md_lines(events.push(MdEvent::Text(ab)), width),
{
    let e1 = events.push(MdEvent::Text(a));
    let e2 = e1.push(MdEvent::SoftBreak);
    let e3 = e2.push(MdEvent::Text(b));
    assert(e3 =~= events + seq![MdEvent::Text(a), MdEvent::SoftBreak, MdEvent::Text(b)]);
    lemma_fold_push(events, MdEvent::Text(a), width);
    lemma_fold_push(e1, MdEvent::SoftBreak, width);
    lemma_fold_push(e2, MdEvent::Text(b), width);
    lemma_fold_push(events, MdEvent::Text(ab), width);
    let st = md_fold(events, width);
    assert(md_fold(e3, width).text =~= st.text + ab@);
    assert(md_fold(e3, width) =~= md_fold(events.push(MdEvent::Text(ab)), width));
}

/// The lines drawn for `events`: what the walk drew, the waiting text
/// drawn last; one empty line if that is nothing.
pub open spec fn md_lines(events: Seq<MdEvent>, width: nat) -> Seq<Seq<StyledView>> {
    let last = flush(md_fold(events, width), width);
    if last.lines.len() == 0 { seq![blank_line()] } else { last.lines }
}

/// The walk, as it runs.
struct Walk {
    lines: Vec<Vec<StyledPiece>>,
    spans: Vec<StyledPiece>,
    text: String,
    style: MdStyle,
    in_code: bool,
    in_list: bool,
    indent: usize,
}

impl Walk {
    spec fn view(&self) -> MdState {
        MdState {
            lines: styled_lines(self.lines@),
            spans: styled_line(self.spans@),
            text: self.text@,
            style: self.style,
            in_code: self.in_code,
            in_list: self.in_list,
            indent: self.indent as nat,
        }
    }

    /// Draws the waiting text and pieces.
    fn flush(&mut self, width: usize)
        ensures
            final(self).view() == flush(old(self).view(), width as nat),
            final(self).indent == old(self).indent,
    {
        let ghost st = self.view();
        if self.text.unicode_len() == 0 && self.spans.len() == 0 {
            return;
        }
        if self.text.unicode_len() > 0 {
            let lead_space = self.spans.len() > 0 && is_space_char(self.text.as_str().get_char(0));
            let ws = wrap_text(self.text.as_str(), width);
            let ghost wv = wrapped(st.text, width as nat);
            let ghost added = Seq::new(
                wv.len(),
                |i: int|
                    (if i == 0 { st.spans } else { Seq::empty() }) + seq![StyledView { text: led(st, wv, i), style: st.style }],
            );
            let mut i: usize = 0;
            while i < ws.len()
                invariant
                    i <= ws@.len(),
                    string_views(ws@) == wv,
                    self.style == st.style,
                    self.text@ == st.text,
                    self.in_code == st.in_code,
                    self.in_list == st.in_list,
                    self.indent as nat == st.indent,
                    styled_lines(self.lines@) == st.lines + added.take(i as int),
                    styled_line(self.spans@) == if i == 0 { st.spans } else { Seq::empty() },
                    lead_space == (lead(st).len() > 0),
                    added == Seq::new(
                        wv.len(),
                        |i: int|
                            (if i == 0 { st.spans } else { Seq::empty() }) + seq![StyledView { text: led(st, wv, i), style: st.style }],
                    ),
                decreases ws@.len() - i,
            {
                let mut line: Vec<StyledPiece> = Vec::new();
                std::mem::swap(&mut line, &mut self.spans);
                let mut t = String::new();
                if i == 0 && lead_space && ws[i].unicode_len() > 0 {
                    t.append(" ");
                }
                t.append(ws[i].as_str());
                let piece = StyledPiece { text: t, style: self.style };
                let ghost before_line = line@;
                line.push(piece);
                let ghost before = self.lines@;
                proof {
                    assert(string_views(ws@).len() == ws@.len());
                    assert(wv[i as int] == ws@[i as int]@);
                    reveal_strlit(" ");
                    assert(piece.text@ =~= led(st, wv, i as int));
                    assert(styled_line(line@) =~= styled_line(before_line).push(styled_view(piece)));
                    assert(styled_line(line@) =~= added[i as int]);
                }
                self.lines.push(line);
                proof {
                    assert(styled_lines(self.lines@) =~= styled_lines(before).push(styled_line(line@)));
                    assert(added.take(i + 1) =~= added.take(i as int).push(added[i as int]));
                    assert(styled_line(self.spans@) =~= Seq::<StyledView>::empty());
                }
                i = i + 1;
            }
            self.text = String::new();
            proof {
                assert(string_views(ws@).len() == ws@.len());
                assert(added.take(ws@.len() as int) =~= added);
                if ws@.len() == 0 {
                    assert(styled_line(self.spans@) == st.spans);
                }
                assert(self.view() =~= flush(st, width as nat));
            }
        } else {
            let mut sp: Vec<StyledPiece> = Vec::new();
            std::mem::swap(&mut sp, &mut self.spans);
            let ghost before = self.lines@;
            self.lines.push(sp);
            proof {
                assert(styled_lines(self.lines@) =~= styled_lines(before).push(styled_line(sp@)));
                assert(styled_line(self.spans@) =~= Seq::<StyledView>::empty());
                assert(self.view() =~= flush(st, width as nat));
            }
        }
    }
}

fn plain() -> (r: MdStyle)
    ensures
        r == plain_style(),
{
    MdStyle { fg: None, bold: Attr::Unset, italic: Attr::Unset, underlined: Attr::Unset }
}

fn color(c: MdColor) -> (r: MdStyle)
    ensures
        r == colored(c),
{
    MdStyle { fg: Some(c), bold: Attr::Unset, italic: Attr::Unset, underlined: Attr::Unset }
}

fn heading_style_of(level: u8) -> (r: MdStyle)
    ensures
        r == heading_style(level),
{
    if level == 1 {
        MdStyle { fg: Some(MdColor::Cyan), bold: Attr::On, italic: Attr::Unset, underlined: Attr::On }
    } else if level == 2 {
        MdStyle { bold: Attr::On, ..color(MdColor::Blue) }
    } else if level == 3 {
        MdStyle { bold: Attr::On, ..color(MdColor::Magenta) }
    } else {
        MdStyle { bold: Attr::On, ..color(MdColor::Yellow) }
    }
}

fn heading_mark_of(level: u8) -> (r: String)
    ensures
        r@ == heading_mark(level),
{
    if level == 1 {
        String::from_str("█ ")
    } else if level == 2 {
        String::from_str("▓ ")
    } else if level == 3 {
        String::from_str("▒ ")
    } else {
        String::from_str("░ ")
    }
}

fn blank() -> (r: Vec<StyledPiece>)
    ensures
        styled_line(r@) == blank_line(),
{
    let mut v: Vec<StyledPiece> = Vec::new();
    v.push(StyledPiece { text: String::new(), style: plain() });
    proof {
        assert(styled_line(v@) =~= blank_line());
    }
    v
}

fn repeat_char(c: char, n: usize) -> (r: String)
    ensures
        r@ == repeated(c, n as nat),
{
    let mut s = String::new();
    let mut i: usize = 0;
    proof {
        assert(s@ =~= repeated(c, 0));
    }
    while i < n
        invariant
            i <= n,
            s@ == repeated(c, i as nat),
        decreases n - i,
    {
        push_char(&mut s, c);
        proof {
            assert(repeated(c, (i + 1) as nat) =~= repeated(c, i as nat).push(c));
        }
        i = i + 1;
    }
    s
}

fn one_piece(text: String, style: MdStyle) -> (r: Vec<StyledPiece>)
    ensures
        styled_line(r@) == seq![StyledView { text: text@, style }],
{
    let mut v: Vec<StyledPiece> = Vec::new();
    v.push(StyledPiece { text, style });
    proof {
        assert(styled_line(v@) =~= seq![StyledView { text: text@, style }]);
    }
    v
}

fn frame(left: char, right: char, width: usize) -> (r: Vec<StyledPiece>)
    ensures
        styled_line(r@) == frame_line(left, right, width as nat),
{
    let t = corner_rule(left, width.saturating_sub(2), right);
    one_piece(t, color(MdColor::DarkGray))
}

impl Walk {
    fn push_line(&mut self, l: Vec<StyledPiece>)
        ensures
            final(self).view() == (MdState { lines: old(self).view().lines.push(styled_line(l@)), ..old(self).view() }),
            final(self).indent == old(self).indent,
    {
        let ghost before = self.lines@;
        self.lines.push(l);
        proof {
            assert(styled_lines(self.lines@) =~= styled_lines(before).push(styled_line(l@)));
        }
    }

    fn push_span(&mut self, p: StyledPiece)
        ensures
            final(self).view() == (MdState { spans: old(self).view().spans.push(styled_view(p)), ..old(self).view() }),
            final(self).indent == old(self).indent,
    {
        let ghost before = self.spans@;
        self.spans.push(p);
        proof {
            assert(styled_line(self.spans@) =~= styled_line(before).push(styled_view(p)));
        }
    }

    /// Keeps the waiting text as a piece of the current line.
    fn text_to_span(&mut self)
        ensures
            final(self).view() == text_to_span(old(self).view()),
            final(self).indent == old(self).indent,
    {
        if self.text.unicode_len() > 0 {
            let mut t = String::new();
            std::mem::swap(&mut t, &mut self.text);
            let p = StyledPiece { text: t, style: self.style };
            self.push_span(p);
            proof {
                assert(self.view() =~= text_to_span(old(self).view()));
            }
        }
    }

    /// The start of an element.
    fn start(&mut self, tag: MdTag, width: usize)
        requires
            old(self).indent < usize::MAX,
        ensures
            final(self).view() == md_step(old(self).view(), MdEvent::Start(tag), width as nat),
            final(self).indent <= old(self).indent + 1,
    {
        match tag {
            MdTag::Heading(level) => {
                self.flush(width);
                let hs = heading_style_of(level);
                let mark = heading_mark_of(level);
                self.push_span(StyledPiece { text: mark, style: hs });
                self.style = hs;
            },
            MdTag::Emphasis => {
                self.text_to_span();
                self.style = MdStyle { italic: Attr::On, ..self.style };
            },
            MdTag::Strong => {
                self.text_to_span();
                self.style = MdStyle { bold: Attr::On, fg: Some(MdColor::Yellow), ..self.style };
            },
            MdTag::CodeBlock => {
                self.flush(width);
                let f = frame('┌', '┐', width);
                self.push_line(f);
                self.in_code = true;
                self.style = color(MdColor::Green);
            },
            MdTag::List => {
                self.in_list = true;
                self.indent = self.indent + 1;
            },
            MdTag::Item => {
                let ghost ind = self.indent;
                self.flush(width);
                let n = if self.indent > 0 { self.indent - 1 } else { 0 };
                let mut bullet = String::new();
                let mut k: usize = 0;
                proof {
                    assert(bullet@ =~= repeated(' ', 0));
                }
                while k < n
                    invariant
                        k <= n,
                        bullet@ == repeated(' ', 2 * k as nat),
                    decreases n - k,
                {
                    push_char(&mut bullet, ' ');
                    push_char(&mut bullet, ' ');
                    proof {
                        assert(repeated(' ', 2 * (k + 1) as nat) =~= repeated(' ', 2 * k as nat).push(' ').push(' '));
                    }
                    k = k + 1;
                }
                bullet.append("• ");
                self.push_span(StyledPiece { text: bullet, style: color(MdColor::Cyan) });
                proof {
                    assert(ind == self.indent);
                }
            },
            MdTag::Paragraph => {
                self.flush(width);
            },
            MdTag::Other => {},
        }
    }

    /// The end of an element.
    fn end(&mut self, tag: MdTag, width: usize)
        ensures
            final(self).view() == md_step(old(self).view(), MdEvent::End(tag), width as nat),
            final(self).indent <= old(self).indent,
    {
        match tag {
            MdTag::Heading(_) => {
                self.flush(width);
                self.push_line(blank());
                self.style = plain();
            },
            MdTag::Emphasis => {
                self.text_to_span();
                self.style = MdStyle { italic: Attr::Off, ..self.style };
            },
            MdTag::Strong => {
                self.text_to_span();
                self.style = MdStyle { bold: Attr::Off, fg: Some(MdColor::Reset), ..self.style };
            },
            MdTag::CodeBlock => {
                self.flush(width);
                let f = frame('└', '┘', width);
                self.push_line(f);
                self.push_line(blank());
                self.in_code = false;
                self.style = plain();
            },
            MdTag::List => {
                self.flush(width);
                self.indent = if self.indent > 0 { self.indent - 1 } else { 0 };
                if self.indent == 0 {
                    self.in_list = false;
                    self.push_line(blank());
                }
            },
            MdTag::Paragraph => {
                self.flush(width);
                if !self.in_list {
                    self.push_line(blank());
                }
            },
            _ => {},
        }
    }

    /// One event.
    fn step(&mut self, ev: &MdEvent, width: usize)
        requires
            old(self).indent < usize::MAX,
        ensures
            final(self).view() == md_step(old(self).view(), *ev, width as nat),
            final(self).indent <= old(self).indent + 1,
    {
        match ev {
            MdEvent::Start(tag) => {
                let t = *tag;
                proof {
                    assert(*ev == MdEvent::Start(t));
                }
                self.start(t, width);
            },
            MdEvent::End(tag) => {
                let t = *tag;
                proof {
                    assert(*ev == MdEvent::End(t));
                }
                self.end(t, width);
            },
            MdEvent::Text(t) => {
                if self.in_code {
                    let ghost st = self.view();
                    let ls = split_lines(t.as_str());
                    let ghost cl = code_lines(t@);
                    let mut i: usize = 0;
                    while i < ls.len()
                        invariant
                            i <= ls@.len(),
                            texts_of(ls@) == lines_of(t@),
                            cl == code_lines(t@),
                            self.view() == (MdState { lines: st.lines + cl.take(i as int), ..st }),
                            self.indent as nat == st.indent,
                        decreases ls@.len() - i,
                    {
                        let mut l: Vec<StyledPiece> = Vec::new();
                        l.push(StyledPiece { text: String::from_str("│ "), style: color(MdColor::DarkGray) });
                        l.push(StyledPiece { text: ls[i].clone(), style: color(MdColor::Green) });
                        proof {
                            assert(texts_of(ls@).len() == ls@.len());
                            assert(texts_of(ls@)[i as int] == ls@[i as int]@);
                            assert(styled_line(l@) =~= cl[i as int]);
                            assert(cl.take(i + 1) =~= cl.take(i as int).push(cl[i as int]));
                        }
                        self.push_line(l);
                        i = i + 1;
                    }
                    proof {
                        assert(texts_of(ls@).len() == ls@.len());
                        assert(cl.take(ls@.len() as int) =~= cl);
                    }
                } else {
                    self.text.append(t.as_str());
                }
            },
            MdEvent::Code(c) => {
                if self.text.unicode_len() > 0 {
                    self.flush(width);
                }
                let mut t = String::new();
                push_char(&mut t, '`');
                t.append(c.as_str());
                push_char(&mut t, '`');
                assert(t@ =~= seq!['`'] + c@ + seq!['`']);
                self.push_span(StyledPiece { text: t, style: MdStyle { bold: Attr::On, ..color(MdColor::Green) } });
            },
            MdEvent::SoftBreak => {
                if !self.in_code {
                    push_char(&mut self.text, ' ');
                }
            },
            MdEvent::HardBreak => {
                self.flush(width);
            },
            MdEvent::Rule => {
                self.flush(width);
                let r = repeat_char('─', width);
                self.push_line(one_piece(r, color(MdColor::DarkGray)));
                self.push_line(blank());
            },
            MdEvent::Other => {},
        }
    }
}

/// Draws the markdown walk `events` at `width`: each event in turn, then
/// the text still waiting; one empty line if nothing was drawn.
pub fn markdown_lines(events: &Vec<MdEvent>, width: usize) -> (r: Vec<Vec<StyledPiece>>)
    ensures
        styled_lines(r@) == md_lines(events@, width as nat),
{
    let mut w = Walk {
        lines: Vec::new(),
        spans: Vec::new(),
        text: String::new(),
        style: plain(),
        in_code: false,
        in_list: false,
        indent: 0,
    };
    proof {
        assert(styled_lines(w.lines@) =~= Seq::<Seq<StyledView>>::empty());
        assert(styled_line(w.spans@) =~= Seq::<StyledView>::empty());
        assert(w.text@ =~= Seq::<char>::empty());
        assert(w.view() == md_start());
        assert(events@.take(0) =~= Seq::<MdEvent>::empty());
    }
    let mut i: usize = 0;
    while i < events.len()
        invariant
            i <= events@.len(),
            w.view() == md_fold(events@.take(i as int), width as nat),
            w.indent <= i,
        decreases events@.len() - i,
    {
        w.step(&events[i], width);
        proof {
            assert(events@.take(i + 1).drop_last() =~= events@.take(i as int));
            assert(events@.take(i + 1).last() == events@[i as int]);
        }
        i = i + 1;
    }
    proof {
        assert(events@.take(events@.len() as int) =~= events@);
    }
    w.flush(width);
    if w.lines.len() == 0 {
        let mut out: Vec<Vec<StyledPiece>> = Vec::new();
        out.push(blank());
        proof {
            assert(styled_lines(out@) =~= seq![blank_line()]);
        }
        out
    } else {
        w.lines
    }
}

/// The events a CommonMark parser reads out of `text`, all extensions on.
pub uninterp spec fn markdown_events(text: Seq<char>) -> Seq<MdEvent>;

/// Reads the events of `text` with `pulldown_cmark::Parser::new_ext`, all
/// options on, converting each one for one: the start and end of an
/// element with its kind (the kinds drawn told apart, headings with their
/// level, every other kind as `Other`), text and inline code with their
/// text, soft and hard breaks, rules, and every other event as `Other`.
/// The contract gives the result a name and says nothing more of it.
#[verifier::external_body]
fn parse_markdown(text: &str) -> (r: Vec<MdEvent>)
    ensures
        r@ == markdown_events(text@),
{
    let tag = |t| match t {
        Te::Heading(l) => Heading(l as u8), Te::Emphasis => Emphasis, Te::Strong => Strong,
        Te::CodeBlock => CodeBlock, Te::List(_) => List, Te::Item => Item, Te::Paragraph => Paragraph,
        _ => G::Other,
    };
    Parser::new_ext(text, Options::all()).map(|e| match e {
        Ev::Start(t) => Start(tag(t.to_end())), Ev::End(t) => End(tag(t)),
        Ev::Text(s) => Text(s.to_string()), Ev::Code(s) => Code(s.to_string()),
        Ev::SoftBreak => SoftBreak, Ev::HardBreak => HardBreak, Ev::Rule => Rule, _ => MdEvent::Other,
    }).collect()
}

/// Draws markdown text at `width`: the walk over the events its parser
/// reads out of it, or one empty line for empty text.
pub fn markdown_to_lines(markdown: &str, width: usize) -> (r: Vec<Vec<StyledPiece>>)
    ensures
        styled_lines(r@) == if markdown@.len() == 0 {
            seq![blank_line()]
        } else {
            md_lines(markdown_events(markdown@), width as nat)
        },
{
    if markdown.unicode_len() == 0 {
        let mut out: Vec<Vec<StyledPiece>> = Vec::new();
        out.push(blank());
        proof {
            assert(styled_lines(out@) =~= seq![blank_line()]);
        }
        return out;
    }
    let events = parse_markdown(markdown);
    markdown_lines(&events, width)
}

} // verus!
