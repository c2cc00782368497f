//! Hierarchical output: a tree of nodes, some of which are expanded, and the
//! lookup of the node shown on a given line.

use vstd::prelude::*;
use crate::ir::str_eq;

verus! {

/// What a node shows.
#[derive(Clone, Debug)]
pub enum TreeValue {
    /// A value shown as it is.
    Primitive(String),
    /// A map with `size` fields.
    MapNode { size: usize },
    /// A list with `size` items.
    List { size: usize },
}

/// A node of a tree of output.
#[derive(Debug)]
pub struct TreeNode {
    /// The key of the node in its parent (`None` for the root).
    pub key: Option<String>,
    /// What the node shows.
    pub value: TreeValue,
    /// The child nodes.
    pub children: Vec<TreeNode>,
    /// The full path of the node, which names its expansion state.
    pub path: String,
}

/// The kinds of chart that output can hold.
#[derive(Clone, Debug)]
pub enum ChartType {
    BarChart,
    LineChart,
}

/// The expansion state of tree nodes, by path. A path without an entry is
/// collapsed.
#[derive(Debug)]
pub struct ExpandedPaths {
    pub entries: Vec<(String, bool)>,
}

/// The flag recorded for `path`: the first entry with that path.
pub open spec fn flag_of(entries: Seq<(String, bool)>, path: Seq<char>) -> Option<bool>
    decreases entries.len(),
{
    if entries.len() == 0 {
        None
    } else if entries[0].0@ == path {
        Some(entries[0].1)
    } else {
        flag_of(entries.drop_first(), path)
    }
}

/// A node at `path` is expanded.
pub open spec fn expanded(entries: Seq<(String, bool)>, path: Seq<char>) -> bool {
    flag_of(entries, path) == Some(true)
}

impl ExpandedPaths {
    /// No node is expanded.
    pub fn new() -> (r: Self)
        ensures
            r.entries@.len() == 0,
    {
        ExpandedPaths { entries: Vec::new() }
    }

    /// The position of the first entry for `path`.
    fn position(&self, path: &str) -> (r: Option<usize>)
        ensures
            match r {
                Some(k) => k < self.entries@.len() && self.entries@[k as int].0@ == path@
                    && flag_of(self.entries@, path@) == Some(self.entries@[k as int].1)
                    && forall|j: int| 0 <= j < k ==> self.entries@[j].0@ != path@,
                None => flag_of(self.entries@, path@) is None,
            },
    {
        let mut i: usize = 0;
        while i < self.entries.len()
            invariant
                i <= self.entries@.len(),
                forall|j: int| 0 <= j < i ==> self.entries@[j].0@ != path@,
            decreases self.entries@.len() - i,
        {
            if str_eq(self.entries[i].0.as_str(), path) {
                proof { lemma_flag_of_skip(self.entries@, path@, i as int); }
                return Some(i);
            }
            i = i + 1;
        }
        proof { lemma_flag_of_skip(self.entries@, path@, i as int); }
        None
    }

    /// The flag recorded for `path`, if any.
    pub fn get(&self, path: &str) -> (r: Option<bool>)
        ensures
            r == flag_of(self.entries@, path@),
    {
        match self.position(path) {
            Some(k) => Some(self.entries[k].1),
            None => None,
        }
    }

    /// Whether the node at `path` is expanded.
    pub fn is_expanded(&self, path: &str) -> (r: bool)
        ensures
            r == expanded(self.entries@, path@),
    {
        match self.get(path) {
            Some(b) => b,
            None => false,
        }
    }

    /// Records `flag` for `path`.
    pub fn insert(&mut self, path: String, flag: bool)
        ensures
            flag_of(final(self).entries@, path@) == Some(flag),
            forall|q: Seq<char>| q != path@ ==> flag_of(final(self).entries@, q) == flag_of(old(self).entries@, q),
    {
        match self.position(path.as_str()) {
            Some(k) => {
                let ghost before = self.entries@;
                let key = self.entries[k].0.clone();
                self.entries.set(k, (key, flag));
                proof {
                    assert forall|q: Seq<char>| true implies flag_of(self.entries@, q) == (
                        if q == path@ { Some(flag) } else { flag_of(before, q) }) by {
                        lemma_flag_of_update(before, q, k as int, flag);
                    }
                }
            },
            None => {
                let ghost before = self.entries@;
                self.entries.push((path, flag));
                proof {
                    assert forall|q: Seq<char>| true implies flag_of(self.entries@, q) == (
                        if flag_of(before, q) is Some { flag_of(before, q) }
                        else if q == self.entries@.last().0@ { Some(flag) } else { None }) by {
                        lemma_flag_of_push(before, q, self.entries@.last());
                    }
                }
            },
        }
    }

    /// Flips the expansion state of `path` and returns the new state.
    pub fn toggle(&mut self, path: &str) -> (r: bool)
        ensures
            r == !expanded(old(self).entries@, path@),
            expanded(final(self).entries@, path@) == r,
            forall|q: Seq<char>| q != path@ ==> flag_of(final(self).entries@, q) == flag_of(old(self).entries@, q),
    {
        let current = self.is_expanded(path);
        self.insert(path.to_owned(), !current);
        !current
    }
}

proof fn lemma_flag_of_skip(entries: Seq<(String, bool)>, path: Seq<char>, i: int)
    requires
        0 <= i <= entries.len(),
        forall|j: int| 0 <= j < i ==> entries[j].0@ != path,
    ensures
        flag_of(entries, path) == flag_of(entries.subrange(i, entries.len() as int), path),
    decreases i,
{
    if i > 0 {
        let t = entries.drop_first();
        assert forall|j: int| 0 <= j < i - 1 implies t[j].0@ != path by {
            assert(t[j] == entries[j + 1]);
        }
        lemma_flag_of_skip(t, path, i - 1);
        assert(t.subrange(i - 1, t.len() as int) =~= entries.subrange(i, entries.len() as int));
    } else {
        assert(entries.subrange(0, entries.len() as int) =~= entries);
    }
}

proof fn lemma_flag_of_update(entries: Seq<(String, bool)>, q: Seq<char>, k: int, flag: bool)
    requires
        0 <= k < entries.len(),
        forall|j: int| 0 <= j < k ==> entries[j].0@ != entries[k].0@,
    ensures
        flag_of(entries.update(k, (entries[k].0, flag)), q)
            == if q == entries[k].0@ { Some(flag) } else { flag_of(entries, q) },
    decreases k,
{
    let u = entries.update(k, (entries[k].0, flag));
    if k == 0 {
        assert(u.drop_first() =~= entries.drop_first());
    } else {
        let t = entries.drop_first();
        assert forall|j: int| 0 <= j < k - 1 implies #[trigger] t[j].0@ != t[k - 1].0@ by {
            assert(t[j] == entries[j + 1]);
        }
        lemma_flag_of_update(t, q, k - 1, flag);
        assert(u.drop_first() =~= t.update(k - 1, (t[k - 1].0, flag)));
    }
}

proof fn lemma_flag_of_push(entries: Seq<(String, bool)>, q: Seq<char>, e: (String, bool))
    ensures
        flag_of(entries.push(e), q) == if flag_of(entries, q) is Some { flag_of(entries, q) }
            else if q == e.0@ { Some(e.1) } else { None },
    decreases entries.len(),
{
    if entries.len() > 0 {
        lemma_flag_of_push(entries.drop_first(), q, e);
        let p = entries.push(e);
        assert(p.drop_first() =~= entries.drop_first().push(e));
        assert(p[0] == entries[0]);
        if entries[0].0@ == q {
            assert(flag_of(p, q) == Some(entries[0].1));
        } else {
            assert(flag_of(p, q) == flag_of(p.drop_first(), q));
        }
    } else {
        let p = entries.push(e);
        assert(p.drop_first() =~= Seq::<(String, bool)>::empty());
        assert(p[0] == e);
        assert(flag_of(p.drop_first(), q) is None);
        assert(flag_of(entries, q) is None);
    }
}

/// The nodes shown, in order, when the tree at `node` is drawn: the node,
/// then, if it is expanded, the nodes shown for each child in turn.
pub open spec fn visible_nodes(node: TreeNode, flags: Seq<(String, bool)>) -> Seq<TreeNode>
    decreases node,
{
    seq![node] + if expanded(flags, node.path@) {
        visible_in(node.children@, flags)
    } else {
        Seq::empty()
    }
}

/// The nodes shown for each of `nodes` in turn.
pub open spec fn visible_in(nodes: Seq<TreeNode>, flags: Seq<(String, bool)>) -> Seq<TreeNode>
    decreases nodes,
{
    if nodes.len() == 0 {
        Seq::empty()
    } else {
        visible_nodes(nodes[0], flags) + visible_in(nodes.subrange(1, nodes.len() as int), flags)
    }
}

/// The node drawn on line `target_line` (line 0 is the root).
pub fn find_node_at_line<'a>(root: &'a TreeNode, expanded_paths: &ExpandedPaths, target_line: usize)
    -> (r: Option<&'a TreeNode>)
    ensures
        match r {
            Some(n) => target_line < visible_nodes(*root, expanded_paths.entries@).len()
                && *n == visible_nodes(*root, expanded_paths.entries@)[target_line as int],
            None => target_line >= visible_nodes(*root, expanded_paths.entries@).len(),
        },
{
    let mut current_line: usize = 0;
    find_node_at_line_recursive(root, expanded_paths, target_line, &mut current_line)
}

fn find_node_at_line_recursive<'a>(
    node: &'a TreeNode,
    expanded_paths: &ExpandedPaths,
    target_line: usize,
    current_line: &mut usize,
) -> (r: Option<&'a TreeNode>)
    requires
        *old(current_line) <= target_line,
    ensures
        ({
            let vis = visible_nodes(*node, expanded_paths.entries@);
            let start = *old(current_line) as int;
            &&& (target_line < start + vis.len()) ==> (r == Some(&vis[target_line - start]))
            &&& (target_line >= start + vis.len()) ==> (r is None && *final(current_line) == start + vis.len())
        }),
    decreases *node,
{
    if *current_line == target_line {
        return Some(node);
    }
    *current_line = *current_line + 1;
    let is_expanded = expanded_paths.is_expanded(node.path.as_str());
    let ghost flags = expanded_paths.entries@;
    let ghost start = *old(current_line) as int;
    if is_expanded {
        let mut i: usize = 0;
        while i < node.children.len()
            invariant
                i <= node.children@.len(),
                flags == expanded_paths.entries@,
                expanded(flags, node.path@),
                start == *old(current_line) as int,
                *current_line <= target_line,
                *current_line == start + 1 + visible_in(node.children@.take(i as int), flags).len(),
                forall|k: int| 0 <= k < node.children@.len() ==> decreases_to!(*node => #[trigger] node.children@[k]),
            decreases node.children@.len() - i,
        {
            let ghost before = *current_line as int;
            let found = find_node_at_line_recursive(&node.children[i], expanded_paths, target_line, current_line);
            proof {
                lemma_visible_in_take(node.children@, flags, i as int);
            }
            match found {
                Some(n) => {
                    proof {
                        let cs = node.children@;
                        lemma_visible_in_split(cs, flags, i as int);
                        let vi = visible_in(cs.take(i as int), flags);
                        let vc = visible_nodes(cs[i as int], flags);
                        let rest = visible_in(cs.subrange(i + 1, cs.len() as int), flags);
                        let all = visible_nodes(*node, flags);
                        assert(visible_in(cs, flags) == vi + vc + rest);
                        assert(all == seq![*node] + (vi + vc + rest));
                        let off = target_line - before;
                        assert(0 <= off < vc.len());
                        assert(all[target_line - start] == vc[off]);
                    }
                    return Some(n);
                },
                None => {},
            }
            i = i + 1;
        }
        proof {
            assert(node.children@.take(node.children@.len() as int) =~= node.children@);
        }
    }
    None
}

proof fn lemma_visible_in_take(nodes: Seq<TreeNode>, flags: Seq<(String, bool)>, i: int)
    requires
        0 <= i < nodes.len(),
    ensures
        visible_in(nodes.take(i + 1), flags)
            == visible_in(nodes.take(i), flags) + visible_nodes(nodes[i], flags),
    decreases i,
{
    if i == 0 {
        assert(nodes.take(1).subrange(1, 1) =~= Seq::<TreeNode>::empty());
        assert(visible_in(nodes.take(0), flags) =~= Seq::<TreeNode>::empty());
        assert(visible_in(Seq::<TreeNode>::empty(), flags) =~= Seq::<TreeNode>::empty());
        assert(visible_in(nodes.take(1), flags) =~= visible_nodes(nodes[0], flags));
    } else {
        let t = nodes.subrange(1, nodes.len() as int);
        lemma_visible_in_take(t, flags, i - 1);
        assert(nodes.take(i + 1).subrange(1, i + 1) =~= t.take(i));
        assert(nodes.take(i).subrange(1, i) =~= t.take(i - 1));
        assert(nodes.take(i + 1)[0] == nodes[0]);
        assert(nodes.take(i)[0] == nodes[0]);
        assert(t[i - 1] == nodes[i]);
    }
}

proof fn lemma_visible_in_split(nodes: Seq<TreeNode>, flags: Seq<(String, bool)>, i: int)
    requires
        0 <= i < nodes.len(),
    ensures
        visible_in(nodes, flags) == visible_in(nodes.take(i + 1), flags)
            + visible_in(nodes.subrange(i + 1, nodes.len() as int), flags),
    decreases i,
{
    let t = nodes.subrange(1, nodes.len() as int);
    if i == 0 {
        assert(nodes.take(1).subrange(1, 1) =~= Seq::<TreeNode>::empty());
        assert(visible_in(Seq::<TreeNode>::empty(), flags) =~= Seq::<TreeNode>::empty());
        assert(nodes.take(1)[0] == nodes[0]);
        assert(visible_in(nodes.take(1), flags) =~= visible_nodes(nodes[0], flags));
        assert(nodes.subrange(1, nodes.len() as int) =~= t);
    } else {
        lemma_visible_in_split(t, flags, i - 1);
        assert(nodes.take(i + 1).subrange(1, i + 1) =~= t.take(i));
        assert(t.subrange(i, t.len() as int) =~= nodes.subrange(i + 1, nodes.len() as int));
        assert(nodes.take(i + 1)[0] == nodes[0]);
    }
}

/// Reading a path after recording a flag for it gives that flag, and the
/// other paths keep theirs: `b` is `a` after `insert(path, flag)`.
pub proof fn law_get_after_insert(a: Seq<(String, bool)>, b: Seq<(String, bool)>, path: Seq<char>, flag: bool,
    other: Seq<char>)
    requires
        flag_of(b, path) == Some(flag),
        forall|q: Seq<char>| q != path ==> flag_of(b, q) == flag_of(a, q),
    ensures
        flag_of(b, path) == Some(flag),
        other != path ==> flag_of(b, other) == flag_of(a, other),
        expanded(b, path) == flag,
{
}

/// Toggling a node twice leaves every node as it was expanded before: `b`
/// is `a` after `toggle(path)` returned `r1`, `c` is `b` after
/// `toggle(path)` returned `r2`.
pub proof fn law_toggle_twice(a: Seq<(String, bool)>, b: Seq<(String, bool)>, c: Seq<(String, bool)>,
    path: Seq<char>, r1: bool, r2: bool, q: Seq<char>)
    requires
        r1 == !expanded(a, path),
        expanded(b, path) == r1,
        forall|x: Seq<char>| x != path ==> flag_of(b, x) == flag_of(a, x),
        r2 == !expanded(b, path),
        expanded(c, path) == r2,
        forall|x: Seq<char>| x != path ==> flag_of(c, x) == flag_of(b, x),
    ensures
        expanded(c, q) == expanded(a, q),
{
    if q != path {
        assert(flag_of(c, q) == flag_of(b, q));
        assert(flag_of(b, q) == flag_of(a, q));
    }
}

} // verus!
