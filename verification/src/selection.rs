//! Selecting lines of the output with the mouse, the text selected, and
//! clicks on the output.

use vstd::prelude::*;
use crate::builtins::{join, joined, string_views};
use crate::output::{item_lines, OutputItem};
use crate::repl::App;
use crate::tree::{expanded, flag_of, visible_nodes};
use crate::tree_render::{lines_view, toggle_at_line};

verus! {

/// The lines from `a` to `b` (in either order), both included, as far as
/// there are lines.
pub open spec fn selected_lines(lines: Seq<Seq<char>>, a: int, b: int) -> Seq<Seq<char>> {
    let lo = if a <= b { a } else { b };
    let hi = if a <= b { b } else { a };
    if lo >= lines.len() {
        Seq::empty()
    } else {
        lines.subrange(lo, if hi + 1 < lines.len() { hi + 1 } else { lines.len() as int })
    }
}

impl App {
    /// Starts a selection at output line `line`.
    pub fn start_selection(&mut self, line: usize)
        ensures
            final(self).selection_start == Some(line),
            final(self).selection_end == Some(line),
            final(self).is_selecting,
            final(self).input == old(self).input,
            final(self).cursor_position == old(self).cursor_position,
    {
        self.selection_start = Some(line);
        self.selection_end = Some(line);
        self.is_selecting = true;
    }

    /// Moves the end of the selection to `line` while the mouse is held.
    pub fn update_selection(&mut self, line: usize)
        ensures
            final(self).selection_end == if old(self).is_selecting { Some(line) } else { old(self).selection_end },
            final(self).selection_start == old(self).selection_start,
            final(self).is_selecting == old(self).is_selecting,
            final(self).input == old(self).input,
            final(self).cursor_position == old(self).cursor_position,
    {
        if self.is_selecting {
            self.selection_end = Some(line);
        }
    }

    /// Ends the dragging; the selection stays.
    pub fn end_selection(&mut self)
        ensures
            !final(self).is_selecting,
            final(self).selection_start == old(self).selection_start,
            final(self).selection_end == old(self).selection_end,
            final(self).input == old(self).input,
            final(self).cursor_position == old(self).cursor_position,
    {
        self.is_selecting = false;
    }

    /// Removes the selection.
    pub fn clear_selection(&mut self)
        ensures
            final(self).selection_start is None,
            final(self).selection_end is None,
            !final(self).is_selecting,
            final(self).input == old(self).input,
            final(self).cursor_position == old(self).cursor_position,
    {
        self.selection_start = None;
        self.selection_end = None;
        self.is_selecting = false;
    }

    /// The selected lines of `lines` (the output as it is shown, one string
    /// per line), joined by line breaks; `None` without a selection or when
    /// it selects no line.
    pub fn get_selected_text(&self, lines: &Vec<String>) -> (r: Option<String>)
        ensures
            match (self.selection_start, self.selection_end) {
                (Some(a), Some(b)) => {
                    let sel = selected_lines(string_views(lines@), a as int, b as int);
                    if sel.len() == 0 { r is None } else { r matches Some(t) && t@ == joined(sel, "\n"@) }
                },
                _ => r is None,
            },
    {
        let (a, b) = match (self.selection_start, self.selection_end) {
            (Some(a), Some(b)) => (a, b),
            _ => return None,
        };
        let (lo, hi) = if a <= b { (a, b) } else { (b, a) };
        let n = lines.len();
        if lo >= n {
            return None;
        }
        let end = if hi < n - 1 { hi + 1 } else { n };
        let mut picked: Vec<String> = Vec::new();
        let mut i = lo;
        while i < end
            invariant
                lo <= i <= end <= n == lines@.len(),
                string_views(picked@) == string_views(lines@).subrange(lo as int, i as int),
            decreases end - i,
        {
            let ghost before = picked@;
            picked.push(lines[i].clone());
            proof {
                assert(string_views(picked@) =~= string_views(before).push(lines@[i as int]@));
                assert(string_views(lines@).subrange(lo as int, i + 1) =~= string_views(lines@).subrange(lo as int,
                    i as int).push(lines@[i as int]@));
            }
            i = i + 1;
        }
        Some(join(picked, "\n"))
    }
}

/// The total of the first `n` heights.
pub open spec fn heights_before(heights: Seq<usize>, n: int) -> int
    decreases n,
{
    if n <= 0 { 0 } else { heights_before(heights, n - 1) + heights[n - 1] }
}

/// The output item that line `line` of the output falls in, given the
/// height of each item, and the line within it.
pub fn locate_output_line(heights: &Vec<usize>, line: usize) -> (r: Option<(usize, usize)>)
    ensures
        match r {
            Some((i, within)) => i < heights@.len() && heights_before(heights@, i as int) <= line
                < heights_before(heights@, i + 1) && within == line - heights_before(heights@, i as int),
            None => line >= heights_before(heights@, heights@.len() as int),
        },
{
    let mut current: usize = 0;
    let mut i: usize = 0;
    while i < heights.len()
        invariant
            i <= heights@.len(),
            current == heights_before(heights@, i as int),
            current <= line,
        decreases heights@.len() - i,
    {
        if line - current < heights[i] {
            return Some((i, line - current));
        }
        current = current + heights[i];
        i = i + 1;
    }
    None
}

/// The number of lines shown above the output: the artwork and a blank
/// line, while there is no output and the banner is on.
pub open spec fn banner_height(app: App, artwork_lines: nat) -> nat {
    if app.show_banner && app.output@.len() == 0 { artwork_lines + 1 } else { 0 }
}

/// The height of each output item drawn at `width`.
pub open spec fn item_heights(items: Seq<OutputItem>, width: nat) -> Seq<usize> {
    Seq::new(items.len(), |k: int| item_lines(items[k], width).len() as usize)
}

/// A click on line `within` of an item flips a tree node: the item is a
/// tree and a node is drawn there (line 0 is the hint).
pub open spec fn click_toggles(item: OutputItem, within: int) -> bool {
    match item {
        OutputItem::Tree { root, expanded_paths } => 1 <= within <= visible_nodes(root, expanded_paths.entries@).len(),
        _ => false,
    }
}

/// `after` is `before` once line `within` of it was clicked: in a tree,
/// the node drawn there has its expansion flipped and every other flag is
/// kept (where no node is drawn there, the flags stay as they were); any
/// other item stays as it is.
pub open spec fn clicked(before: OutputItem, after: OutputItem, within: int) -> bool {
    match before {
        OutputItem::Tree { root: r0, expanded_paths: e0 } => match after {
            OutputItem::Tree { root: r1, expanded_paths: e1 } => {
                let vis = visible_nodes(r0, e0.entries@);
                &&& r1 == r0
                &&& if 1 <= within <= vis.len() {
                    let p = vis[within - 1].path@;
                    &&& expanded(e1.entries@, p) == !expanded(e0.entries@, p)
                    &&& forall|q: Seq<char>| q != p ==> flag_of(e1.entries@, q) == flag_of(e0.entries@, q)
                } else {
                    e1.entries@ == e0.entries@
                }
            },
            _ => false,
        },
        _ => after == before,
    }
}

/// Heights do not shrink as items are added.
proof fn lemma_heights_before_grow(hs: Seq<usize>, a: int, b: int)
    requires
        0 <= a <= b <= hs.len(),
    ensures
        heights_before(hs, a) <= heights_before(hs, b),
    decreases b - a,
{
    if a < b {
        lemma_heights_before_grow(hs, a, b - 1);
    }
}

/// The heights of the output items, as drawn.
fn output_heights(items: &Vec<OutputItem>, width: usize) -> (r: Vec<usize>)
    ensures
        r@ == item_heights(items@, width as nat),
{
    let mut hs: Vec<usize> = Vec::new();
    let mut i: usize = 0;
    while i < items.len()
        invariant
            i <= items@.len(),
            hs@ == item_heights(items@, width as nat).take(i as int),
        decreases items@.len() - i,
    {
        let ls = items[i].to_lines(width);
        proof {
            assert(lines_view(ls@).len() == ls@.len());
        }
        hs.push(ls.len());
        proof {
            assert(hs@ =~= item_heights(items@, width as nat).take(i + 1));
        }
        i = i + 1;
    }
    proof {
        assert(item_heights(items@, width as nat).take(items@.len() as int) =~= item_heights(items@, width as nat));
    }
    hs
}

impl App {
    /// A click on line `absolute_line` of the output pane, counted from the
    /// top of its content, with `artwork_lines` lines of artwork shown
    /// while there is no output: the item under the click gets the focus,
    /// and where it is a tree, the node drawn on that line has its
    /// expansion flipped and the pane stops following new output. Clicks on
    /// the artwork or below the output change nothing.
    pub fn handle_output_click(&mut self, absolute_line: usize, artwork_lines: usize)
        requires
            artwork_lines < usize::MAX,
        ensures
            ({
                let banner = banner_height(*old(self), artwork_lines as nat);
                let n = old(self).output@.len();
                let hs = item_heights(old(self).output@, old(self).last_render_width as nat);
                if absolute_line < banner || absolute_line - banner >= heights_before(hs, n as int) {
                    *final(self) == *old(self)
                } else {
                    let l = absolute_line - banner;
                    forall|i: int| 0 <= i < n && heights_before(hs, i) <= l < #[trigger] heights_before(hs, i + 1) ==> {
                        let within = l - heights_before(hs, i);
                        &&& final(self).output@.len() == n
                        &&& clicked(old(self).output@[i], final(self).output@[i], within)
                        &&& forall|j: int| 0 <= j < n && j != i ==> final(self).output@[j] == old(self).output@[j]
                        &&& *final(self) == (App {
                            output: final(self).output,
                            focused_output_index: Some(i as usize),
                            auto_scroll_output: old(self).auto_scroll_output && !click_toggles(old(self).output@[i], within),
                            ..*old(self)
                        })
                    }
                }
            }),
    {
        let ghost app0 = *self;
        let banner = if self.show_banner && self.output.len() == 0 { artwork_lines + 1 } else { 0 };
        if absolute_line < banner {
            return;
        }
        let line = absolute_line - banner;
        let hs = output_heights(&self.output, self.last_render_width);
        let (i, within) = match locate_output_line(&hs, line) {
            Some(x) => x,
            None => return,
        };
        let ghost old_items = self.output@;
        let ghost auto0 = self.auto_scroll_output;
        let item = self.output.remove(i);
        let ghost before_item = item;
        let item2 = match item {
            OutputItem::Tree { root, expanded_paths } => {
                let mut e = expanded_paths;
                let toggled = toggle_at_line(&root, &mut e, within);
                if toggled {
                    self.auto_scroll_output = false;
                }
                OutputItem::Tree { root, expanded_paths: e }
            },
            other => other,
        };
        self.output.insert(i, item2);
        self.focused_output_index = Some(i);
        proof {
            let hsv = hs@;
            lemma_heights_before_grow(hsv, i + 1, hsv.len() as int);
            assert forall|k: int| 0 <= k < old_items.len() && heights_before(hsv, k) <= line < #[trigger] heights_before(hsv, k + 1)
                implies k == i by {
                if k < i {
                    lemma_heights_before_grow(hsv, k + 1, i as int);
                } else if k > i {
                    lemma_heights_before_grow(hsv, i + 1, k);
                }
            }
            assert forall|j: int| 0 <= j < old_items.len() && j != i implies self.output@[j] == old_items[j] by {
                if j < i {
                    assert(self.output@[j] == old_items.remove(i as int)[j]);
                } else {
                    assert(self.output@[j] == old_items.remove(i as int)[j - 1]);
                }
            }
            assert(before_item == old_items[i as int]);
            assert(self.output@.len() == old_items.len());
            assert(self.output@[i as int] == item2);
            assert(clicked(old_items[i as int], item2, within as int));
            assert(self.auto_scroll_output == (auto0 && !click_toggles(old_items[i as int], within as int)));
            assert(banner == banner_height(app0, artwork_lines as nat));
            assert(hs@ == item_heights(app0.output@, app0.last_render_width as nat));
            assert(*self == (App {
                output: self.output,
                focused_output_index: Some(i),
                auto_scroll_output: app0.auto_scroll_output && !click_toggles(old_items[i as int], within as int),
                ..app0
            }));
        }
    }
}

} // verus!
