//! The items shown in the output pane and the lines each is drawn as:
//! wrapped text, a framed error, a table or a tree.

use vstd::prelude::*;
use crate::table_render::{columns_view, padded, repeated, rows_view, table_lines, table_to_lines};
use crate::text::push_char;
use crate::tree::{expanded, flag_of, ExpandedPaths, TreeNode};
use crate::tree_render::{
    drawn, drawn_lines, hint_lines, lines_view, pieces_view, tree_to_lines, Piece, PieceView, Tone,
};
use crate::wrapping::{string_views, wrap_text, wrapped};

verus! {

/// An item of output.
#[derive(Debug)]
pub enum OutputItem {
    /// Plain text.
    Text(String),
    /// Rows of cells under column headings, one row possibly selected.
    Table { columns: Vec<String>, rows: Vec<Vec<String>>, selected: Option<usize> },
    /// A tree of values, with the paths of the nodes shown expanded.
    Tree { root: TreeNode, expanded_paths: ExpandedPaths },
    /// An error message.
    Error(String),
}

/// `a - b`, or 0 where `b` is larger.
pub open spec fn minus(a: nat, b: nat) -> nat {
    if a >= b { (a - b) as nat } else { 0 }
}

/// Plain text, wrapped to `width`; empty text is one empty line.
pub open spec fn text_view(text: Seq<char>, width: nat) -> Seq<Seq<PieceView>> {
    if text.len() == 0 {
        seq![seq![PieceView { text: Seq::empty(), tone: Tone::Plain }]]
    } else {
        let w = wrapped(text, width);
        Seq::new(w.len(), |i: int| seq![PieceView { text: w[i], tone: Tone::Plain }])
    }
}

/// An error, framed: a top rule, each line of the message wrapped to four
/// less than `width` and padded to it between side bars, and a bottom
/// rule.
pub open spec fn error_view(text: Seq<char>, width: nat) -> Seq<Seq<PieceView>> {
    let inner = minus(width, 4);
    let w = wrapped(text, inner);
    seq![seq![PieceView { text: seq!['┌'] + repeated('─', minus(width, 2)) + seq!['┐'], tone: Tone::Error }]]
        + Seq::new(
        w.len(),
        |i: int|
            seq![
                PieceView { text: "│ "@, tone: Tone::Error },
                PieceView { text: padded(w[i], inner), tone: Tone::Error },
                PieceView { text: " │"@, tone: Tone::Error },
            ],
    ) + seq![seq![PieceView { text: seq!['└'] + repeated('─', minus(width, 2)) + seq!['┘'], tone: Tone::Error }]]
}

/// The lines an item is drawn as at `width`.
pub open spec fn item_lines(item: OutputItem, width: nat) -> Seq<Seq<PieceView>> {
    match item {
        OutputItem::Text(s) => text_view(s@, width),
        OutputItem::Table { columns, rows, selected } => table_lines(
            columns_view(columns@),
            rows_view(rows@),
            selected,
        ),
        OutputItem::Tree { root, expanded_paths } => hint_lines(root) + drawn_lines(
            drawn(root, expanded_paths.entries@, Seq::empty(), true),
            expanded_paths.entries@,
        ),
        OutputItem::Error(s) => error_view(s@, width),
    }
}

/// Plain text as lines wrapped to `width`.
pub fn text_to_lines(text: &str, width: usize) -> (r: Vec<Vec<Piece>>)
    ensures
        lines_view(r@) == text_view(text@, width as nat),
{
    let mut out: Vec<Vec<Piece>> = Vec::new();
    if text.unicode_len() == 0 {
        let mut l: Vec<Piece> = Vec::new();
        l.push(Piece { text: String::new(), tone: Tone::Plain });
        proof {
            assert(pieces_view(l@) =~= seq![PieceView { text: Seq::empty(), tone: Tone::Plain }]);
        }
        out.push(l);
        proof {
            assert(lines_view(out@) =~= text_view(text@, width as nat));
        }
        return out;
    }
    let w = wrap_text(text, width);
    let ghost want = text_view(text@, width as nat);
    let mut i: usize = 0;
    while i < w.len()
        invariant
            i <= w@.len(),
            text@.len() > 0,
            string_views(w@) == wrapped(text@, width as nat),
            want == text_view(text@, width as nat),
            lines_view(out@) == want.take(i as int),
        decreases w@.len() - i,
    {
        let mut l: Vec<Piece> = Vec::new();
        l.push(Piece { text: w[i].clone(), tone: Tone::Plain });
        let ghost before = out@;
        proof {
            assert(string_views(w@).len() == w@.len());
            assert(string_views(w@)[i as int] == w@[i as int]@);
            assert(pieces_view(l@) =~= want[i as int]);
        }
        out.push(l);
        proof {
            assert(lines_view(out@) =~= lines_view(before).push(pieces_view(l@)));
            assert(lines_view(out@) =~= want.take(i + 1));
        }
        i = i + 1;
    }
    proof {
        assert(string_views(w@).len() == w@.len());
        assert(want.take(w@.len() as int) =~= want);
    }
    out
}

/// A rule of `n` dashes between two corner marks.
pub(crate) fn corner_rule(left: char, n: usize, right: char) -> (r: String)
    ensures
        r@ == seq![left] + repeated('─', n as nat) + seq![right],
{
    let mut s = String::new();
    push_char(&mut s, left);
    let mut i: usize = 0;
    while i < n
        invariant
            i <= n,
            s@ == seq![left] + repeated('─', i as nat),
        decreases n - i,
    {
        push_char(&mut s, '─');
        proof {
            assert(seq![left] + repeated('─', (i + 1) as nat) =~= (seq![left] + repeated('─', i as nat)).push('─'));
        }
        i = i + 1;
    }
    push_char(&mut s, right);
    s
}

/// `text` padded with spaces to `w` characters.
fn pad_to(text: &str, w: usize) -> (r: String)
    ensures
        r@ == padded(text@, w as nat),
{
    let mut s = String::from_str(text);
    let n = text.unicode_len();
    if n < w {
        let mut i: usize = n;
        while i < w
            invariant
                n <= i <= w,
                n == text@.len(),
                s@ == text@ + repeated(' ', (i - n) as nat),
            decreases w - i,
        {
            push_char(&mut s, ' ');
            proof {
                assert(text@ + repeated(' ', (i + 1 - n) as nat) =~= (text@ + repeated(' ', (i - n) as nat)).push(' '));
            }
            i = i + 1;
        }
    }
    proof {
        if n >= w {
            assert(s@ == padded(text@, w as nat));
        }
    }
    s
}

/// An error message in a frame `width` wide.
pub fn error_to_lines(text: &str, width: usize) -> (r: Vec<Vec<Piece>>)
    ensures
        lines_view(r@) == error_view(text@, width as nat),
{
    let inner = width.saturating_sub(4);
    let dashes = width.saturating_sub(2);
    let ghost iv = inner as nat;
    let mut out: Vec<Vec<Piece>> = Vec::new();
    let mut top: Vec<Piece> = Vec::new();
    top.push(Piece { text: corner_rule('┌', dashes, '┐'), tone: Tone::Error });
    proof {
        assert(pieces_view(top@) =~= seq![PieceView { text: seq!['┌'] + repeated('─', minus(width as nat, 2)) + seq!['┐'], tone: Tone::Error }]);
    }
    out.push(top);
    let w = wrap_text(text, inner);
    let ghost ws = wrapped(text@, iv);
    let ghost body = Seq::new(
        ws.len(),
        |i: int|
            seq![
                PieceView { text: "│ "@, tone: Tone::Error },
                PieceView { text: padded(ws[i], iv), tone: Tone::Error },
                PieceView { text: " │"@, tone: Tone::Error },
            ],
    );
    let ghost head = lines_view(out@);
    let mut i: usize = 0;
    while i < w.len()
        invariant
            i <= w@.len(),
            string_views(w@) == ws,
            ws == wrapped(text@, iv),
            iv == inner as nat,
            body == Seq::new(
                ws.len(),
                |i: int|
                    seq![
                        PieceView { text: "│ "@, tone: Tone::Error },
                        PieceView { text: padded(ws[i], iv), tone: Tone::Error },
                        PieceView { text: " │"@, tone: Tone::Error },
                    ],
            ),
            lines_view(out@) == head + body.take(i as int),
        decreases w@.len() - i,
    {
        let mut l: Vec<Piece> = Vec::new();
        l.push(Piece { text: String::from_str("│ "), tone: Tone::Error });
        l.push(Piece { text: pad_to(w[i].as_str(), inner), tone: Tone::Error });
        l.push(Piece { text: String::from_str(" │"), tone: Tone::Error });
        let ghost before = out@;
        proof {
            assert(string_views(w@).len() == w@.len());
            assert(ws[i as int] == w@[i as int]@);
            assert(pieces_view(l@) =~= body[i as int]);
        }
        out.push(l);
        proof {
            assert(lines_view(out@) =~= lines_view(before).push(pieces_view(l@)));
            assert(lines_view(out@) =~= head + body.take(i + 1));
        }
        i = i + 1;
    }
    let mut bottom: Vec<Piece> = Vec::new();
    bottom.push(Piece { text: corner_rule('└', dashes, '┘'), tone: Tone::Error });
    proof {
        assert(string_views(w@).len() == w@.len());
        assert(body.take(w@.len() as int) =~= body);
        assert(pieces_view(bottom@) =~= seq![PieceView { text: seq!['└'] + repeated('─', minus(width as nat, 2)) + seq!['┘'], tone: Tone::Error }]);
    }
    let ghost mid = lines_view(out@);
    out.push(bottom);
    proof {
        assert(lines_view(out@) =~= mid.push(pieces_view(bottom@)));
        assert(lines_view(out@) =~= error_view(text@, width as nat));
    }
    out
}

impl OutputItem {
    /// A text item.
    pub fn text(s: String) -> (r: Self)
        ensures
            r == OutputItem::Text(s),
    {
        OutputItem::Text(s)
    }

    /// An error item.
    pub fn error(s: String) -> (r: Self)
        ensures
            r == OutputItem::Error(s),
    {
        OutputItem::Error(s)
    }

    /// Flips whether the node at `path` of a tree is shown expanded and
    /// returns the new state; other items are left alone and give `false`.
    pub fn toggle_expansion(&mut self, path: &str) -> (r: bool)
        ensures
            match *old(self) {
                OutputItem::Tree { root: r0, expanded_paths: e0 } => match *final(self) {
                    OutputItem::Tree { root: r1, expanded_paths: e1 } => {
                        &&& r1 == r0
                        &&& r == !expanded(e0.entries@, path@)
                        &&& expanded(e1.entries@, path@) == r
                        &&& forall|q: Seq<char>| q != path@ ==> flag_of(e1.entries@, q) == flag_of(e0.entries@, q)
                    },
                    _ => false,
                },
                _ => !r && *final(self) == *old(self),
            },
    {
        match self {
            OutputItem::Tree { root: _, expanded_paths } => expanded_paths.toggle(path),
            _ => false,
        }
    }

    /// Whether the node at `path` of a tree is shown expanded; `false` for
    /// other items.
    pub fn is_expanded(&self, path: &str) -> (r: bool)
        ensures
            r == match *self {
                OutputItem::Tree { root: _, expanded_paths } => expanded(expanded_paths.entries@, path@),
                _ => false,
            },
    {
        match self {
            OutputItem::Tree { root: _, expanded_paths } => expanded_paths.is_expanded(path),
            _ => false,
        }
    }

    /// The lines this item is drawn as at `width`.
    pub fn to_lines(&self, width: usize) -> (r: Vec<Vec<Piece>>)
        ensures
            lines_view(r@) == item_lines(*self, width as nat),
    {
        match self {
            OutputItem::Text(s) => text_to_lines(s.as_str(), width),
            OutputItem::Table { columns, rows, selected } => table_to_lines(columns, rows, *selected, width),
            OutputItem::Tree { root, expanded_paths } => tree_to_lines(root, expanded_paths, width),
            OutputItem::Error(s) => error_to_lines(s.as_str(), width),
        }
    }
}

} // verus!
