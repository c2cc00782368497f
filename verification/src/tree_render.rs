//! Drawing a tree of output as lines: one line per node shown, with branch
//! marks, an expand/collapse mark on containers, the key and the value.

use vstd::prelude::*;
use crate::text::push_char;
use crate::tree::{expanded, find_node_at_line, flag_of, visible_in, visible_nodes, ExpandedPaths, TreeNode, TreeValue};

verus! {

/// How a piece of a drawn line is shown.
#[derive(Debug, Clone, Copy, PartialEq, Eq, Structural)]
pub enum Tone {
    /// The hint above an interactive tree.
    Hint,
    /// Branch marks and indentation.
    Guide,
    /// The expand/collapse mark.
    Marker,
    /// A key.
    Key,
    /// Unstyled text.
    Plain,
    /// A shown value.
    Value,
    /// The size of a container.
    Container,
    /// The frame of a table.
    Border,
    /// A column heading.
    Heading,
    /// The cells of the selected row.
    Selected,
    /// A remark below a table.
    Note,
    /// The prompt before an input line.
    Prompt,
    /// The text being typed.
    Input,
    /// An error message and its frame.
    Error,
}

/// A piece of text of a drawn line.
#[derive(Debug, Clone)]
pub struct Piece {
    pub text: String,
    pub tone: Tone,
}

/// The decimal digits of `n`.
pub open spec fn decimal_text(n: nat) -> Seq<char>
    decreases n,
{
    if n < 10 {
        seq![(n + 48) as char]
    } else {
        decimal_text(n / 10) + seq![((n % 10) + 48) as char]
    }
}

/// The decimal text of `n`, as `usize::to_string` writes it.
pub fn decimal_string(n: usize) -> (r: String)
    ensures
        r@ == decimal_text(n as nat),
    decreases n,
{
    if n < 10 {
        let mut s = String::new();
        let c = char_of_digit(n);
        push_char(&mut s, c);
        proof {
            assert(s@ =~= seq![c]);
        }
        s
    } else {
        let mut s = decimal_string(n / 10);
        let c = char_of_digit(n % 10);
        push_char(&mut s, c);
        s
    }
}

fn char_of_digit(d: usize) -> (c: char)
    requires
        d < 10,
    ensures
        c == (d + 48) as char,
{
    if d == 0 { '0' } else if d == 1 { '1' } else if d == 2 { '2' } else if d == 3 { '3' } else if d == 4 { '4' }
    else if d == 5 { '5' } else if d == 6 { '6' } else if d == 7 { '7' } else if d == 8 { '8' } else { '9' }
}

/// A piece of a drawn line, by its characters.
pub struct PieceView {
    pub text: Seq<char>,
    pub tone: Tone,
}

pub open spec fn piece_view(p: Piece) -> PieceView {
    PieceView { text: p.text@, tone: p.tone }
}

pub open spec fn pieces_view(ps: Seq<Piece>) -> Seq<PieceView> {
    ps.map_values(|p: Piece| piece_view(p))
}

pub open spec fn lines_view(ls: Seq<Vec<Piece>>) -> Seq<Seq<PieceView>> {
    ls.map_values(|l: Vec<Piece>| pieces_view(l@))
}

/// A node as drawn: the node, the indentation before it and whether it is
/// the last child of its parent.
pub struct Drawn {
    pub node: TreeNode,
    pub prefix: Seq<char>,
    pub is_last: bool,
}

/// The indentation of the children of a node drawn after `prefix`: none
/// while the indentation is empty (as it is from the root on), otherwise a
/// continued or closed guide.
pub open spec fn child_prefix(prefix: Seq<char>, is_last: bool) -> Seq<char> {
    if prefix.len() == 0 { Seq::empty() } else { prefix + if is_last { "   "@ } else { "│  "@ } }
}

/// A node is a container.
pub open spec fn is_container(v: TreeValue) -> bool {
    !(v is Primitive)
}

/// The nodes drawn for the tree at `node`, in order: the node, then, if it
/// is expanded, the nodes drawn for its children.
pub open spec fn drawn(node: TreeNode, flags: Seq<(String, bool)>, prefix: Seq<char>, is_last: bool) -> Seq<Drawn>
    decreases node,
{
    seq![Drawn { node, prefix, is_last }] + if expanded(flags, node.path@) {
        drawn_children(node.children@, flags, child_prefix(prefix, is_last))
    } else {
        Seq::empty()
    }
}

/// The nodes drawn for each of `nodes` in turn, the last one marked as
/// last.
pub open spec fn drawn_children(nodes: Seq<TreeNode>, flags: Seq<(String, bool)>, prefix: Seq<char>) -> Seq<Drawn>
    decreases nodes,
{
    if nodes.len() == 0 {
        Seq::empty()
    } else {
        drawn(nodes[0], flags, prefix, nodes.len() == 1) + drawn_children(nodes.subrange(1, nodes.len() as int), flags,
            prefix)
    }
}

/// The line of a drawn node: indentation, branch mark, expand/collapse
/// mark (or blank for a value), key and value.
pub open spec fn node_line(d: Drawn, is_expanded: bool) -> Seq<PieceView> {
    let guide = if d.prefix.len() > 0 { seq![PieceView { text: d.prefix, tone: Tone::Guide }] } else { Seq::empty() };
    let branch = seq![PieceView { text: if d.is_last { "└─ "@ } else { "├─ "@ }, tone: Tone::Guide }];
    let mark = if is_container(d.node.value) {
        seq![PieceView { text: if is_expanded { "▼ "@ } else { "▶ "@ }, tone: Tone::Marker }]
    } else {
        seq![PieceView { text: "  "@, tone: Tone::Plain }]
    };
    let key = match d.node.key {
        Some(k) => seq![PieceView { text: k@, tone: Tone::Key }, PieceView { text: ": "@, tone: Tone::Plain }],
        None => Seq::empty(),
    };
    let value = match d.node.value {
        TreeValue::Primitive(v) => PieceView { text: v@, tone: Tone::Value },
        TreeValue::MapNode { size } => PieceView { text: "{ "@ + decimal_text(size as nat) + " fields }"@, tone: Tone::Container },
        TreeValue::List { size } => PieceView { text: "[ "@ + decimal_text(size as nat) + " items ]"@, tone: Tone::Container },
    };
    guide + branch + mark + key + seq![value]
}

/// The lines of drawn nodes.
pub open spec fn drawn_lines(ds: Seq<Drawn>, flags: Seq<(String, bool)>) -> Seq<Seq<PieceView>> {
    ds.map_values(|d: Drawn| node_line(d, expanded(flags, d.node.path@)))
}

/// The hint above a tree whose root is a container.
pub open spec fn hint_lines(root: TreeNode) -> Seq<Seq<PieceView>> {
    if is_container(root.value) {
        seq![seq![PieceView { text: "💡 Click on ▶/▼ to expand/collapse"@, tone: Tone::Hint }]]
    } else {
        Seq::empty()
    }
}

fn piece(text: &str, tone: Tone) -> (r: Piece)
    ensures
        piece_view(r) == (PieceView { text: text@, tone }),
{
    Piece { text: String::from_str(text), tone }
}

/// The line drawn for `node`.
fn node_pieces(node: &TreeNode, prefix: &str, is_last: bool, is_expanded: bool) -> (r: Vec<Piece>)
    ensures
        pieces_view(r@) == node_line(Drawn { node: *node, prefix: prefix@, is_last }, is_expanded),
{
    let mut v: Vec<Piece> = Vec::new();
    if prefix.unicode_len() > 0 {
        v.push(piece(prefix, Tone::Guide));
    }
    v.push(piece(if is_last { "└─ " } else { "├─ " }, Tone::Guide));
    match &node.value {
        TreeValue::Primitive(_) => v.push(piece("  ", Tone::Plain)),
        _ => v.push(piece(if is_expanded { "▼ " } else { "▶ " }, Tone::Marker)),
    }
    match &node.key {
        Some(k) => {
            v.push(Piece { text: k.clone(), tone: Tone::Key });
            v.push(piece(": ", Tone::Plain));
        },
        None => {},
    }
    match &node.value {
        TreeValue::Primitive(val) => v.push(Piece { text: val.clone(), tone: Tone::Value }),
        TreeValue::MapNode { size } => {
            let mut t = String::from_str("{ ");
            let d = decimal_string(*size);
            t.append(d.as_str());
            t.append(" fields }");
            v.push(Piece { text: t, tone: Tone::Container });
        },
        TreeValue::List { size } => {
            let mut t = String::from_str("[ ");
            let d = decimal_string(*size);
            t.append(d.as_str());
            t.append(" items ]");
            v.push(Piece { text: t, tone: Tone::Container });
        },
    }
    proof {
        let d = Drawn { node: *node, prefix: prefix@, is_last };
        assert(pieces_view(v@) =~= node_line(d, is_expanded));
    }
    v
}

/// The nodes of drawn entries.
pub open spec fn drawn_nodes(ds: Seq<Drawn>) -> Seq<TreeNode> {
    ds.map_values(|d: Drawn| d.node)
}

proof fn lemma_drawn_lines_concat(a: Seq<Drawn>, b: Seq<Drawn>, flags: Seq<(String, bool)>)
    ensures
        drawn_lines(a + b, flags) == drawn_lines(a, flags) + drawn_lines(b, flags),
        drawn_nodes(a + b) == drawn_nodes(a) + drawn_nodes(b),
{
    assert(drawn_lines(a + b, flags) =~= drawn_lines(a, flags) + drawn_lines(b, flags));
    assert(drawn_nodes(a + b) =~= drawn_nodes(a) + drawn_nodes(b));
}

/// Draws the tree at `node` after `lines`.
fn render_tree_node(node: &TreeNode, expanded_paths: &ExpandedPaths, prefix: &str, is_last: bool,
    lines: &mut Vec<Vec<Piece>>)
    ensures
        lines_view(final(lines)@) == lines_view(old(lines)@) + drawn_lines(
            drawn(*node, expanded_paths.entries@, prefix@, is_last), expanded_paths.entries@),
    decreases *node,
{
    let ghost flags = expanded_paths.entries@;
    let is_exp = expanded_paths.is_expanded(node.path.as_str());
    let line = node_pieces(node, prefix, is_last, is_exp);
    let ghost first = seq![Drawn { node: *node, prefix: prefix@, is_last }];
    let ghost before = lines@;
    lines.push(line);
    proof {
        assert(lines_view(lines@) =~= lines_view(before) + drawn_lines(first, flags));
    }
    if is_exp {
        let mut indent = String::new();
        if prefix.unicode_len() > 0 {
            indent.append(prefix);
            indent.append(if is_last { "   " } else { "│  " });
        }
        let ghost cp = child_prefix(prefix@, is_last);
        proof {
            assert(indent@ =~= cp);
            assert(node.children@.skip(0) =~= node.children@);
        }
        let n = node.children.len();
        let mut i: usize = 0;
        while i < n
            invariant
                i <= n == node.children@.len(),
                flags == expanded_paths.entries@,
                indent@ == cp,
                lines_view(lines@) + drawn_lines(drawn_children(node.children@.skip(i as int), flags, cp), flags)
                    == lines_view(before) + drawn_lines(first, flags) + drawn_lines(
                        drawn_children(node.children@, flags, cp), flags),
                forall|k: int| 0 <= k < node.children@.len() ==> decreases_to!(*node => #[trigger] node.children@[k]),
            decreases n - i,
        {
            let ghost rest = node.children@.skip(i as int);
            proof {
                assert(rest.subrange(1, rest.len() as int) =~= node.children@.skip(i + 1));
                assert(rest[0] == node.children@[i as int]);
                lemma_drawn_lines_concat(drawn(rest[0], flags, cp, rest.len() == 1),
                    drawn_children(node.children@.skip(i + 1), flags, cp), flags);
            }
            let ghost mid = lines@;
            render_tree_node(&node.children[i], expanded_paths, indent.as_str(), i == n - 1, lines);
            proof {
                assert(lines_view(mid) + drawn_lines(drawn_children(rest, flags, cp), flags) =~= lines_view(lines@)
                    + drawn_lines(drawn_children(node.children@.skip(i + 1), flags, cp), flags));
            }
            i = i + 1;
        }
        proof {
            assert(node.children@.skip(n as int) =~= Seq::<TreeNode>::empty());
            assert(drawn_lines(Seq::<Drawn>::empty(), flags) =~= Seq::<Seq<PieceView>>::empty());
            lemma_drawn_lines_concat(first, drawn_children(node.children@, flags, cp), flags);
            assert(lines_view(lines@) =~= lines_view(before) + drawn_lines(first, flags) + drawn_lines(
                drawn_children(node.children@, flags, cp), flags));
        }
    } else {
        proof {
            assert(first + Seq::<Drawn>::empty() =~= first);
        }
    }
}

/// Draws a tree: a hint when its root is a container, then one line per
/// node shown (the root, and the children of every expanded node).
pub fn tree_to_lines(root: &TreeNode, expanded_paths: &ExpandedPaths, width: usize) -> (r: Vec<Vec<Piece>>)
    ensures
        lines_view(r@) == hint_lines(*root) + drawn_lines(drawn(*root, expanded_paths.entries@, Seq::empty(), true),
            expanded_paths.entries@),
{
    let mut lines: Vec<Vec<Piece>> = Vec::new();
    match &root.value {
        TreeValue::Primitive(_) => {},
        _ => {
            let mut hint: Vec<Piece> = Vec::new();
            hint.push(piece("💡 Click on ▶/▼ to expand/collapse", Tone::Hint));
            proof {
                assert(pieces_view(hint@) =~= seq![PieceView { text: "💡 Click on ▶/▼ to expand/collapse"@, tone: Tone::Hint }]);
            }
            lines.push(hint);
        },
    }
    proof {
        assert(lines_view(lines@) =~= hint_lines(*root));
        reveal_strlit("");
    }
    render_tree_node(root, expanded_paths, "", true, &mut lines);
    lines
}

/// The nodes drawn for a tree are the nodes it shows, in order.
pub proof fn lemma_drawn_is_visible(node: TreeNode, flags: Seq<(String, bool)>, prefix: Seq<char>, is_last: bool)
    ensures
        drawn_nodes(drawn(node, flags, prefix, is_last)) == visible_nodes(node, flags),
    decreases node,
{
    let first = seq![Drawn { node, prefix, is_last }];
    if expanded(flags, node.path@) {
        lemma_drawn_children_visible(node.children@, flags, child_prefix(prefix, is_last));
        lemma_drawn_lines_concat(first, drawn_children(node.children@, flags, child_prefix(prefix, is_last)), flags);
        assert(drawn_nodes(first) =~= seq![node]);
    } else {
        assert(drawn_nodes(first + Seq::<Drawn>::empty()) =~= seq![node]);
        assert(visible_nodes(node, flags) =~= seq![node]);
    }
}

proof fn lemma_drawn_children_visible(nodes: Seq<TreeNode>, flags: Seq<(String, bool)>, prefix: Seq<char>)
    ensures
        drawn_nodes(drawn_children(nodes, flags, prefix)) == visible_in(nodes, flags),
    decreases nodes,
{
    if nodes.len() == 0 {
        assert(drawn_nodes(Seq::<Drawn>::empty()) =~= Seq::<TreeNode>::empty());
    } else {
        lemma_drawn_is_visible(nodes[0], flags, prefix, nodes.len() == 1);
        lemma_drawn_children_visible(nodes.subrange(1, nodes.len() as int), flags, prefix);
        lemma_drawn_lines_concat(drawn(nodes[0], flags, prefix, nodes.len() == 1),
            drawn_children(nodes.subrange(1, nodes.len() as int), flags, prefix), flags);
    }
}

/// A click lands on the node drawn there: for a tree whose root is a
/// container, `tree_to_lines` draws the hint and then one line per node
/// that `find_node_at_line` can give, and the node it gives for line `k`
/// is the node drawn on line `k + 1`, with that node's own line.
pub proof fn law_click_finds_drawn_node(root: TreeNode, flags: Seq<(String, bool)>, k: int)
    requires
        is_container(root.value),
        0 <= k < visible_nodes(root, flags).len(),
    ensures
        ({
            let ds = drawn(root, flags, Seq::empty(), true);
            let lines = hint_lines(root) + drawn_lines(ds, flags);
            &&& lines.len() == visible_nodes(root, flags).len() + 1
            &&& ds[k].node == visible_nodes(root, flags)[k]
            &&& lines[k + 1] == node_line(ds[k], expanded(flags, ds[k].node.path@))
        }),
{
    lemma_drawn_is_visible(root, flags, Seq::empty(), true);
    let ds = drawn(root, flags, Seq::empty(), true);
    assert(drawn_nodes(ds)[k] == ds[k].node);
    let lines = hint_lines(root) + drawn_lines(ds, flags);
    assert(lines[k + 1] == drawn_lines(ds, flags)[k]);
}

/// Beyond the nodes shown, no line is drawn and no node is found: the
/// lines of a tree whose root is a container are its hint and one line per
/// node shown.
pub proof fn law_lines_match_nodes(root: TreeNode, flags: Seq<(String, bool)>)
    requires
        is_container(root.value),
    ensures
        (hint_lines(root) + drawn_lines(drawn(root, flags, Seq::empty(), true), flags)).len()
            == visible_nodes(root, flags).len() + 1,
{
    lemma_drawn_is_visible(root, flags, Seq::empty(), true);
}

/// A click on line `line` of a drawn tree (line 0 is the hint): the node
/// drawn there has its expansion flipped. Returns whether a node was
/// there.
pub fn toggle_at_line(root: &TreeNode, expanded_paths: &mut ExpandedPaths, line: usize) -> (r: bool)
    ensures
        ({
            let vis = visible_nodes(*root, old(expanded_paths).entries@);
            if 1 <= line <= vis.len() {
                let p = vis[line - 1].path@;
                &&& r
                &&& expanded(final(expanded_paths).entries@, p) == !expanded(old(expanded_paths).entries@, p)
                &&& forall|q: Seq<char>| q != p ==> flag_of(final(expanded_paths).entries@, q)
                    == flag_of(old(expanded_paths).entries@, q)
            } else {
                !r && final(expanded_paths).entries@ == old(expanded_paths).entries@
            }
        }),
{
    if line == 0 {
        return false;
    }
    match find_node_at_line(root, expanded_paths, line - 1) {
        Some(node) => {
            let path = node.path.clone();
            expanded_paths.toggle(path.as_str());
            true
        },
        None => false,
    }
}

/// Two sets of flags agree on the expansion of every node of `ns`.
pub open spec fn agree_on(ns: Seq<TreeNode>, f0: Seq<(String, bool)>, f1: Seq<(String, bool)>) -> bool {
    forall|m: int| 0 <= m < ns.len() ==> expanded(f0, #[trigger] ns[m].path@) == expanded(f1, ns[m].path@)
}

/// Flags that agree on every node shown show the same nodes.
proof fn lemma_visible_same(n: TreeNode, f0: Seq<(String, bool)>, f1: Seq<(String, bool)>)
    requires
        agree_on(visible_nodes(n, f0), f0, f1),
    ensures
        visible_nodes(n, f1) == visible_nodes(n, f0),
    decreases n,
{
    let v0 = visible_nodes(n, f0);
    assert(v0[0] == n);
    if expanded(f0, n.path@) {
        let cs = n.children@;
        assert forall|m: int| 0 <= m < visible_in(cs, f0).len() implies expanded(f0,
            #[trigger] visible_in(cs, f0)[m].path@) == expanded(f1, visible_in(cs, f0)[m].path@) by {
            assert(v0[m + 1] == visible_in(cs, f0)[m]);
        }
        assert(forall|k: int| 0 <= k < cs.len() ==> decreases_to!(n => #[trigger] cs[k]));
        lemma_visible_in_same(cs, f0, f1, n);
    }
}

proof fn lemma_visible_in_same(ns: Seq<TreeNode>, f0: Seq<(String, bool)>, f1: Seq<(String, bool)>, parent: TreeNode)
    requires
        agree_on(visible_in(ns, f0), f0, f1),
        forall|k: int| 0 <= k < ns.len() ==> decreases_to!(parent => #[trigger] ns[k]),
    ensures
        visible_in(ns, f1) == visible_in(ns, f0),
    decreases parent, ns.len(),
{
    if ns.len() > 0 {
        let a = visible_nodes(ns[0], f0);
        let rest = ns.subrange(1, ns.len() as int);
        let all = visible_in(ns, f0);
        assert forall|m: int| 0 <= m < a.len() implies expanded(f0, #[trigger] a[m].path@) == expanded(f1, a[m].path@) by {
            assert(all[m] == a[m]);
        }
        assert forall|m: int| 0 <= m < visible_in(rest, f0).len() implies expanded(f0,
            #[trigger] visible_in(rest, f0)[m].path@) == expanded(f1, visible_in(rest, f0)[m].path@) by {
            assert(all[a.len() + m] == visible_in(rest, f0)[m]);
        }
        lemma_visible_same(ns[0], f0, f1);
        assert forall|k: int| 0 <= k < rest.len() implies decreases_to!(parent => #[trigger] rest[k]) by {
            assert(rest[k] == ns[k + 1]);
        }
        lemma_visible_in_same(rest, f0, f1, parent);
    }
}

/// Flags that agree on the nodes shown before line `j` show the same node
/// on line `j`, and every node before it.
proof fn lemma_visible_prefix(n: TreeNode, f0: Seq<(String, bool)>, f1: Seq<(String, bool)>, j: int)
    requires
        0 <= j < visible_nodes(n, f0).len(),
        agree_on(visible_nodes(n, f0).take(j), f0, f1),
    ensures
        j < visible_nodes(n, f1).len(),
        visible_nodes(n, f1).take(j + 1) == visible_nodes(n, f0).take(j + 1),
    decreases n,
{
    let v0 = visible_nodes(n, f0);
    let v1 = visible_nodes(n, f1);
    assert(v0[0] == n && v1[0] == n);
    if j == 0 {
        assert(v1.take(1) =~= v0.take(1));
    } else {
        assert(v0.take(j)[0] == n);
        assert(expanded(f0, n.path@));
        assert(expanded(f1, n.path@));
        let cs = n.children@;
        let c0 = visible_in(cs, f0);
        assert(v0 == seq![n] + c0);
        assert forall|m: int| 0 <= m < c0.take(j - 1).len() implies expanded(f0,
            #[trigger] c0.take(j - 1)[m].path@) == expanded(f1, c0.take(j - 1)[m].path@) by {
            assert(v0.take(j)[m + 1] == c0.take(j - 1)[m]);
        }
        assert(forall|k: int| 0 <= k < cs.len() ==> decreases_to!(n => #[trigger] cs[k]));
        lemma_visible_in_prefix(cs, f0, f1, j - 1, n);
        assert(v1 == seq![n] + visible_in(cs, f1));
        assert(v1.take(j + 1) =~= seq![n] + visible_in(cs, f1).take(j));
        assert(v0.take(j + 1) =~= seq![n] + c0.take(j));
    }
}

proof fn lemma_visible_in_prefix(ns: Seq<TreeNode>, f0: Seq<(String, bool)>, f1: Seq<(String, bool)>, j: int,
    parent: TreeNode)
    requires
        0 <= j < visible_in(ns, f0).len(),
        agree_on(visible_in(ns, f0).take(j), f0, f1),
        forall|k: int| 0 <= k < ns.len() ==> decreases_to!(parent => #[trigger] ns[k]),
    ensures
        j < visible_in(ns, f1).len(),
        visible_in(ns, f1).take(j + 1) == visible_in(ns, f0).take(j + 1),
    decreases parent, ns.len(),
{
    let a0 = visible_nodes(ns[0], f0);
    let rest = ns.subrange(1, ns.len() as int);
    let all0 = visible_in(ns, f0);
    let r0 = visible_in(rest, f0);
    assert(all0 == a0 + r0);
    if j < a0.len() {
        assert forall|m: int| 0 <= m < a0.take(j).len() implies expanded(f0, #[trigger] a0.take(j)[m].path@)
            == expanded(f1, a0.take(j)[m].path@) by {
            assert(all0.take(j)[m] == a0.take(j)[m]);
        }
        lemma_visible_prefix(ns[0], f0, f1, j);
        let a1 = visible_nodes(ns[0], f1);
        let all1 = visible_in(ns, f1);
        assert(all1 == a1 + visible_in(rest, f1));
        assert(all1.take(j + 1) =~= a1.take(j + 1));
        assert(all0.take(j + 1) =~= a0.take(j + 1));
    } else {
        assert forall|m: int| 0 <= m < a0.len() implies expanded(f0, #[trigger] a0[m].path@) == expanded(f1,
            a0[m].path@) by {
            assert(all0.take(j)[m] == a0[m]);
        }
        lemma_visible_same(ns[0], f0, f1);
        let k = j - a0.len();
        assert forall|m: int| 0 <= m < r0.take(k).len() implies expanded(f0, #[trigger] r0.take(k)[m].path@)
            == expanded(f1, r0.take(k)[m].path@) by {
            assert(all0.take(j)[a0.len() + m] == r0.take(k)[m]);
        }
        assert forall|i: int| 0 <= i < rest.len() implies decreases_to!(parent => #[trigger] rest[i]) by {
            assert(rest[i] == ns[i + 1]);
        }
        lemma_visible_in_prefix(rest, f0, f1, k, parent);
        let all1 = visible_in(ns, f1);
        assert(all1 == a0 + visible_in(rest, f1));
        assert(all1.take(j + 1) =~= a0 + visible_in(rest, f1).take(k + 1));
        assert(all0.take(j + 1) =~= a0 + r0.take(k + 1));
    }
}

/// A click on line `line` of a drawn tree followed by a second click on the
/// same line leaves every node expanded as it was, so the tree is drawn as
/// before: `f1` is `f0` after the first click (as `toggle_at_line` leaves
/// the flags), `f2` is `f1` after the second. The nodes drawn above the
/// clicked one have paths other than its own.
pub proof fn law_second_click_restores(root: TreeNode, f0: Seq<(String, bool)>, f1: Seq<(String, bool)>,
    f2: Seq<(String, bool)>, line: int)
    requires
        1 <= line <= visible_nodes(root, f0).len(),
        forall|m: int| 0 <= m < line - 1 ==> #[trigger] visible_nodes(root, f0)[m].path@
            != visible_nodes(root, f0)[line - 1].path@,
        ({
            let p = visible_nodes(root, f0)[line - 1].path@;
            &&& expanded(f1, p) == !expanded(f0, p)
            &&& forall|q: Seq<char>| q != p ==> flag_of(f1, q) == flag_of(f0, q)
        }),
        line <= visible_nodes(root, f1).len() ==> ({
            let p = visible_nodes(root, f1)[line - 1].path@;
            &&& expanded(f2, p) == !expanded(f1, p)
            &&& forall|q: Seq<char>| q != p ==> flag_of(f2, q) == flag_of(f1, q)
        }),
    ensures
        line <= visible_nodes(root, f1).len(),
        visible_nodes(root, f1)[line - 1] == visible_nodes(root, f0)[line - 1],
        forall|q: Seq<char>| expanded(f2, q) == expanded(f0, q),
        visible_nodes(root, f2) == visible_nodes(root, f0),
{
    let v0 = visible_nodes(root, f0);
    let p = v0[line - 1].path@;
    assert forall|m: int| 0 <= m < v0.take(line - 1).len() implies expanded(f0, #[trigger] v0.take(line - 1)[m].path@)
        == expanded(f1, v0.take(line - 1)[m].path@) by {
        assert(v0.take(line - 1)[m] == v0[m]);
        assert(v0[m].path@ != p);
        assert(flag_of(f1, v0[m].path@) == flag_of(f0, v0[m].path@));
    }
    lemma_visible_prefix(root, f0, f1, line - 1);
    let v1 = visible_nodes(root, f1);
    assert(v1[line - 1] == v1.take(line)[line - 1]);
    assert(v0[line - 1] == v0.take(line)[line - 1]);
    assert forall|q: Seq<char>| expanded(f2, q) == expanded(f0, q) by {
        if q != p {
            assert(flag_of(f2, q) == flag_of(f1, q));
            assert(flag_of(f1, q) == flag_of(f0, q));
        }
    }
    assert forall|m: int| 0 <= m < v0.len() implies expanded(f0, #[trigger] v0[m].path@) == expanded(f2, v0[m].path@) by {
    }
    lemma_visible_same(root, f0, f2);
}

} // verus!
