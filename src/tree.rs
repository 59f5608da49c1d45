//! The weighted path tree: every path component is a node, and a directory
//! node carries the token total of the files below it.
//!
//! Nodes live in an arena (`nodes`); index 0 is the synthetic root. Each node
//! records its parent, its depth and the indices of its children.

use vstd::prelude::*;
use crate::model::{EntryMetadata, ProcessedEntry};
use crate::text::{is_component, path_components, lemma_path_components, split_path, views_of, push_char, push_str};

verus! {

/// One node of the weighted tree.
pub struct TreeNode {
    pub tokens: usize,
    pub children: Vec<usize>,
    pub path: String,
    pub name: String,
    pub metadata: Option<EntryMetadata>,
    pub parent: usize,
    pub depth: usize,
}

impl TreeNode {
    /// A node at `path` with no tokens, no children and no metadata yet.
    pub fn with_path(path: String) -> (r: TreeNode)
        ensures
            r.tokens == 0,
            r.children@.len() == 0,
            r.path == path,
            r.name@.len() == 0,
            r.metadata is None,
            r.parent == 0,
            r.depth == 0,
    {
        TreeNode {
            tokens: 0,
            children: Vec::new(),
            path,
            name: String::new(),
            metadata: None,
            parent: 0,
            depth: 0,
        }
    }
}

/// The tree built from a list of entries.
///
/// `comps` gives, for each node, the components of the path from the root
/// down to it.
pub struct WeightedTree {
    pub nodes: Vec<TreeNode>,
    pub comps: Ghost<Seq<Seq<Seq<char>>>>,
}

/// The mathematical content of a tree node.
pub struct NodeView {
    pub tokens: usize,
    pub children: Seq<usize>,
    pub path: Seq<char>,
    pub name: Seq<char>,
    pub metadata: Option<EntryMetadata>,
    pub parent: usize,
    pub depth: usize,
}

impl View for TreeNode {
    type V = NodeView;

    open spec fn view(&self) -> NodeView {
        NodeView {
            tokens: self.tokens,
            children: self.children@,
            path: self.path@,
            name: self.name@,
            metadata: self.metadata,
            parent: self.parent,
            depth: self.depth,
        }
    }
}

/// The views of an arena's nodes.
pub open spec fn nodes_view(ns: Seq<TreeNode>) -> Seq<NodeView> {
    ns.map_values(|n: TreeNode| n@)
}

/// The first of the nodes `cs` called `name`.
pub open spec fn first_named(nodes: Seq<NodeView>, cs: Seq<usize>, name: Seq<char>) -> Option<usize>
    decreases cs.len(),
{
    if cs.len() == 0 {
        None
    } else if nodes[cs[0] as int].name == name {
        Some(cs[0])
    } else {
        first_named(nodes, cs.drop_first(), name)
    }
}

/// A new, empty directory node called `name` under node `cur`.
pub open spec fn new_child_view(parent: NodeView, cur: usize, name: Seq<char>) -> NodeView {
    NodeView {
        tokens: 0,
        children: Seq::<usize>::empty(),
        path: join_path(parent.path, name),
        name,
        metadata: Some(dir_meta()),
        parent: cur,
        depth: (parent.depth + 1) as usize,
    }
}

/// The arena after finding (or appending, as the last child) the child of
/// `cur` called `name`, and that child's index.
pub open spec fn child_for(nodes: Seq<NodeView>, cur: usize, name: Seq<char>) -> (Seq<NodeView>, usize) {
    match first_named(nodes, nodes[cur as int].children, name) {
        Some(x) => (nodes, x),
        None => (
            nodes.update(cur as int, NodeView { children: nodes[cur as int].children.push(nodes.len() as usize), ..nodes[cur as int] })
                .push(new_child_view(nodes[cur as int], cur, name)),
            nodes.len() as usize,
        ),
    }
}

/// Inserting a file at components `c[k..]` below node `cur`, with `t`
/// tokens: each directory on the way exists (or is created) with directory
/// metadata and gains `t`; the last component becomes a file holding `t`.
pub open spec fn walk(nodes: Seq<NodeView>, cur: usize, c: Seq<Seq<char>>, k: nat, t: usize) -> Seq<NodeView>
    decreases c.len() - k,
{
    if k >= c.len() {
        nodes
    } else {
        let found = child_for(nodes, cur, c[k as int]);
        let n1 = found.0;
        let x = found.1;
        let n2 = if k + 1 == c.len() {
            n1.update(x as int, NodeView { tokens: t, metadata: Some(file_meta()), ..n1[x as int] })
        } else {
            n1.update(x as int, NodeView { tokens: (n1[x as int].tokens + t) as usize, metadata: Some(dir_meta()), ..n1[x as int] })
        };
        walk(n2, x, c, k + 1, t)
    }
}

/// The root of a tree before anything is inserted.
pub open spec fn root_view() -> NodeView {
    NodeView {
        tokens: 0,
        children: Seq::<usize>::empty(),
        path: Seq::<char>::empty(),
        name: Seq::<char>::empty(),
        metadata: None,
        parent: 0,
        depth: 0,
    }
}

/// The arena after inserting the participating entries of `es` in order.
pub open spec fn build_nodes(es: Seq<ProcessedEntry>) -> Seq<NodeView>
    decreases es.len(),
{
    if es.len() == 0 {
        seq![root_view()]
    } else {
        let n = build_nodes(es.drop_last());
        let e = es.last();
        if is_inserted(e) {
            walk(n, 0, entry_comps(e), 0, e.token_count->0)
        } else {
            n
        }
    }
}

/// The sum of the tokens of the node views at indices `cs`.
pub open spec fn child_sum_v(nodes: Seq<NodeView>, cs: Seq<usize>) -> int
    decreases cs.len(),
{
    if cs.len() == 0 {
        0
    } else {
        child_sum_v(nodes, cs.drop_last()) + nodes[cs.last() as int].tokens
    }
}

/// The tree built from `es`: the arena of `build_nodes`, with the root
/// holding the sum of its children.
pub open spec fn tree_view_of(es: Seq<ProcessedEntry>) -> Seq<NodeView> {
    let n = build_nodes(es);
    n.update(0, NodeView { tokens: child_sum_v(n, n[0].children) as usize, ..n[0] })
}

proof fn lemma_child_sum_view(nodes: Seq<TreeNode>, cs: Seq<usize>)
    requires
        forall|k: int| 0 <= k < cs.len() ==> #[trigger] cs[k] < nodes.len(),
    ensures
        child_sum(nodes, cs) == child_sum_v(nodes_view(nodes), cs),
    decreases cs.len(),
{
    if cs.len() > 0 {
        assert forall|k: int| 0 <= k < cs.drop_last().len() implies #[trigger] cs.drop_last()[k] < nodes.len() by {
            assert(cs.drop_last()[k] == cs[k]);
        }
        lemma_child_sum_view(nodes, cs.drop_last());
        assert(cs.last() == cs[cs.len() - 1]);
    }
}

/// The path of a child called `name` under a node whose path is `parent`.
pub open spec fn join_path(parent: Seq<char>, name: Seq<char>) -> Seq<char> {
    if parent.len() == 0 {
        name
    } else {
        parent.push('/') + name
    }
}

pub open spec fn is_file_node(n: TreeNode) -> bool {
    n.metadata is Some && !n.metadata->0.is_dir
}

pub open spec fn is_dir_node(n: TreeNode) -> bool {
    n.metadata is Some && n.metadata->0.is_dir
}

/// The sum of the tokens of the nodes at indices `cs`.
pub open spec fn child_sum(nodes: Seq<TreeNode>, cs: Seq<usize>) -> int
    decreases cs.len(),
{
    if cs.len() == 0 {
        0
    } else {
        child_sum(nodes, cs.drop_last()) + nodes[cs.last() as int].tokens
    }
}

/// What a node adds to the file total: its tokens if it is a file, else 0.
pub open spec fn file_value(n: TreeNode) -> int {
    if is_file_node(n) {
        n.tokens as int
    } else {
        0
    }
}

/// The sum of the tokens of every file node.
pub open spec fn file_sum(nodes: Seq<TreeNode>) -> int
    decreases nodes.len(),
{
    if nodes.len() == 0 {
        0
    } else {
        file_sum(nodes.drop_last()) + file_value(nodes.last())
    }
}

/// `a` is an initial part of `b` (possibly all of it).
pub open spec fn is_prefix(a: Seq<Seq<char>>, b: Seq<Seq<char>>) -> bool {
    a.len() <= b.len() && b.subrange(0, a.len() as int) == a
}

pub open spec fn dir_meta() -> EntryMetadata {
    EntryMetadata { is_dir: true, is_symlink: false }
}

pub open spec fn file_meta() -> EntryMetadata {
    EntryMetadata { is_dir: false, is_symlink: false }
}

/// The path components of an entry.
pub open spec fn entry_comps(e: ProcessedEntry) -> Seq<Seq<char>> {
    path_components(e.relative_path@)
}

/// An entry takes part in the tree: a file with a known, non-zero token count
/// and at least one path component.
pub open spec fn is_inserted(e: ProcessedEntry) -> bool {
    &&& e.is_file
    &&& e.token_count matches Some(t) && t > 0
    &&& entry_comps(e).len() > 0
}

/// The tokens an entry brings into the tree.
pub open spec fn inserted_tokens(e: ProcessedEntry) -> int {
    if is_inserted(e) {
        e.token_count->0 as int
    } else {
        0
    }
}

/// The token total of the entries that take part in the tree.
pub open spec fn token_sum(es: Seq<ProcessedEntry>) -> int
    decreases es.len(),
{
    if es.len() == 0 {
        0
    } else {
        token_sum(es.drop_last()) + inserted_tokens(es.last())
    }
}

/// No two participating entries sit one on the way to (or at) the other:
/// no file is listed twice and no file is also used as a directory.
pub open spec fn conflict_free(es: Seq<ProcessedEntry>) -> bool {
    forall|i: int, j: int|
        0 <= i < es.len() && 0 <= j < es.len() && i != j && is_inserted(#[trigger] es[i]) && is_inserted(#[trigger] es[j])
            ==> !is_prefix(entry_comps(es[i]), entry_comps(es[j]))
}

proof fn lemma_token_sum_prefix(es: Seq<ProcessedEntry>, j: int)
    requires
        0 <= j <= es.len(),
    ensures
        0 <= token_sum(es.subrange(0, j)) <= token_sum(es),
    decreases es.len(),
{
    if es.len() > 0 {
        if j == es.len() {
            assert(es.subrange(0, j) =~= es);
            lemma_token_sum_prefix(es.drop_last(), j - 1);
        } else {
            lemma_token_sum_prefix(es.drop_last(), j);
            assert(es.drop_last().subrange(0, j) =~= es.subrange(0, j));
        }
    }
}

proof fn lemma_child_sum_prefix(nodes: Seq<TreeNode>, cs: Seq<usize>, j: int)
    requires
        0 <= j <= cs.len(),
    ensures
        0 <= child_sum(nodes, cs.subrange(0, j)) <= child_sum(nodes, cs),
    decreases cs.len(),
{
    if cs.len() > 0 {
        if j == cs.len() {
            assert(cs.subrange(0, j) =~= cs);
            lemma_child_sum_prefix(nodes, cs.drop_last(), j - 1);
        } else {
            lemma_child_sum_prefix(nodes, cs.drop_last(), j);
            assert(cs.drop_last().subrange(0, j) =~= cs.subrange(0, j));
        }
    }
}

proof fn lemma_file_sum_prefix(nodes: Seq<TreeNode>, j: int)
    requires
        0 <= j <= nodes.len(),
    ensures
        0 <= file_sum(nodes.subrange(0, j)) <= file_sum(nodes),
    decreases nodes.len(),
{
    if nodes.len() > 0 {
        if j == nodes.len() {
            assert(nodes.subrange(0, j) =~= nodes);
            lemma_file_sum_prefix(nodes.drop_last(), j - 1);
        } else {
            lemma_file_sum_prefix(nodes.drop_last(), j);
            assert(nodes.drop_last().subrange(0, j) =~= nodes.subrange(0, j));
        }
    }
}

impl WeightedTree {
    /// Node `i` hangs correctly under its parent.
    pub open spec fn node_ok(&self, i: int) -> bool {
        let n = self.nodes@;
        let c = self.comps@;
        let p = n[i].parent as int;
        &&& 0 <= p < n.len()
        &&& p != i
        &&& n[i].depth == n[p].depth + 1
        &&& n[i].depth < n.len()
        &&& n[p].children@.contains(i as usize)
        &&& is_component(n[i].name@)
        &&& n[i].path@ == join_path(n[p].path@, n[i].name@)
        &&& c[i] == c[p].push(n[i].name@)
        &&& n[i].metadata is Some
    }

    /// The `k`-th child of node `i` points back at `i`.
    pub open spec fn child_ok(&self, i: int, k: int) -> bool {
        let n = self.nodes@;
        let ch = n[i].children@[k] as int;
        &&& 1 <= ch < n.len()
        &&& n[ch].parent == i
    }

    /// Structural well-formedness of the arena.
    pub open spec fn wf(&self) -> bool {
        let n = self.nodes@;
        let c = self.comps@;
        &&& n.len() >= 1
        &&& c.len() == n.len()
        &&& n[0].parent == 0
        &&& n[0].depth == 0
        &&& n[0].path@.len() == 0
        &&& n[0].metadata is None
        &&& c[0].len() == 0
        &&& forall|i: int| 1 <= i < n.len() ==> #[trigger] self.node_ok(i)
        &&& forall|i: int, k: int|
            0 <= i < n.len() && 0 <= k < n[i].children@.len() ==> #[trigger] self.child_ok(i, k)
        &&& forall|i: int| 0 <= i < n.len() ==> (#[trigger] n[i].children@).no_duplicates()
        &&& forall|i: int| 0 <= i < n.len() ==> (#[trigger] c[i]).len() == n[i].depth
        &&& forall|i: int, j: int| 0 <= i < n.len() && 0 <= j < n.len() && i != j ==> #[trigger] c[i] != #[trigger] c[j]
    }

    /// Node `i` obeys the aggregation rule: a directory holds the sum of its
    /// children, a file has no children.
    pub open spec fn agg_ok(&self, i: int) -> bool {
        let n = self.nodes@;
        if is_dir_node(n[i]) {
            n[i].tokens == child_sum(n, n[i].children@)
        } else {
            n[i].children@.len() == 0
        }
    }

    /// Every non-root node obeys the aggregation rule.
    pub open spec fn aggregated(&self) -> bool {
        forall|i: int| 1 <= i < self.nodes@.len() ==> #[trigger] self.agg_ok(i)
    }

    /// The token total of the tree: what the root holds.
    pub open spec fn total(&self) -> int {
        self.nodes@[0].tokens as int
    }

    /// Index of the child of `cur` called `name`, if there is one.
    fn find_child(&self, cur: usize, name: &String) -> (r: Option<usize>)
        requires
            self.wf(),
            cur < self.nodes@.len(),
        ensures
            r matches Some(x) ==> self.nodes@[cur as int].children@.contains(x)
                && self.nodes@[x as int].name@ == name@,
            r is None ==> forall|k: int| 0 <= k < self.nodes@[cur as int].children@.len()
                ==> self.nodes@[self.nodes@[cur as int].children@[k] as int].name@ != name@,
            r == first_named(nodes_view(self.nodes@), self.nodes@[cur as int].children@, name@),
    {
        let node = &self.nodes[cur];
        let ghost nv = nodes_view(self.nodes@);
        let ghost cs = node.children@;
        let mut k: usize = 0;
        assert(cs.skip(0) =~= cs);
        while k < node.children.len()
            invariant
                self.wf(),
                cur < self.nodes@.len(),
                *node == self.nodes@[cur as int],
                nv == nodes_view(self.nodes@),
                cs == node.children@,
                k <= node.children@.len(),
                forall|j: int| 0 <= j < k ==> self.nodes@[node.children@[j] as int].name@ != name@,
                first_named(nv, cs, name@) == first_named(nv, cs.skip(k as int), name@),
            decreases node.children@.len() - k,
        {
            let c = node.children[k];
            assert(self.child_ok(cur as int, k as int));
            assert(cs.skip(k as int)[0] == c);
            assert(nv[c as int] == self.nodes@[c as int]@);
            if self.nodes[c].name == *name {
                return Some(c);
            }
            assert(cs.skip(k as int).drop_first() =~= cs.skip(k as int + 1));
            k = k + 1;
        }
        assert(cs.skip(k as int).len() == 0);
        None
    }

    /// Appends a new directory node called `name` under `cur`, with no tokens.
    fn add_child(&mut self, cur: usize, name: &String) -> (x: usize)
        requires
            old(self).wf(),
            cur < old(self).nodes@.len(),
            is_component(name@),
            forall|k: int| 0 <= k < old(self).nodes@[cur as int].children@.len()
                ==> old(self).nodes@[old(self).nodes@[cur as int].children@[k] as int].name@ != name@,
        ensures
            final(self).wf(),
            x == old(self).nodes@.len(),
            final(self).nodes@.len() == x + 1,
            final(self).comps@ == old(self).comps@.push(old(self).comps@[cur as int].push(name@)),
            final(self).nodes@[x as int].tokens == 0,
            final(self).nodes@[x as int].children@.len() == 0,
            final(self).nodes@[x as int].metadata == Some(dir_meta()),
            final(self).nodes@[x as int].parent == cur,
            final(self).nodes@[x as int]@ == new_child_view(old(self).nodes@[cur as int]@, cur, name@),
            final(self).nodes@[cur as int].children@ == old(self).nodes@[cur as int].children@.push(x),
            forall|i: int| 0 <= i < x && i != cur ==> final(self).nodes@[i] == old(self).nodes@[i],
            ({
                let a = final(self).nodes@[cur as int];
                let b = old(self).nodes@[cur as int];
                a.tokens == b.tokens && a.metadata == b.metadata && a.parent == b.parent && a.depth == b.depth
                    && a.path == b.path && a.name == b.name
            }),
    {
        let ghost pre = *self;
        if cur > 0 {
            assert(pre.node_ok(cur as int));
        }
        let x = self.nodes.len();
        let path = self.child_path(cur, name);
        let mut node = TreeNode::with_path(path);
        node.name = name.clone();
        node.metadata = Some(EntryMetadata { is_dir: true, is_symlink: false });
        node.parent = cur;
        node.depth = self.nodes[cur].depth + 1;
        let ghost nc = pre.comps@[cur as int].push(name@);
        self.nodes[cur].children.push(x);
        self.nodes.push(node);
        self.comps = Ghost(pre.comps@.push(nc));
        proof {
            let n = self.nodes@;
            let c = self.comps@;
            if cur > 0 {
                assert(pre.node_ok(cur as int));
            }
            assert(n[x as int].depth < n.len());
            assert forall|i: int| 1 <= i < n.len() implies #[trigger] self.node_ok(i) by {
                if i < x {
                    assert(pre.node_ok(i));
                    let p = n[i].parent as int;
                    if p == cur {
                        assert(n[p].children@ == pre.nodes@[p].children@.push(x));
                        assert(pre.nodes@[p].children@.contains(i as usize));
                        let k = choose|k: int| 0 <= k < pre.nodes@[p].children@.len() && pre.nodes@[p].children@[k] == i as usize;
                        assert(n[p].children@[k] == i as usize);
                    }
                } else {
                    assert(n[cur as int].children@.last() == x);
                }
            }
            assert forall|i: int, k: int| 0 <= i < n.len() && 0 <= k < n[i].children@.len()
                implies #[trigger] self.child_ok(i, k) by {
                if i == cur as int {
                    if k < pre.nodes@[i].children@.len() {
                        assert(pre.child_ok(i, k));
                    }
                } else if i < x {
                    assert(pre.child_ok(i, k));
                }
            }
            assert forall|i: int| 0 <= i < n.len() implies (#[trigger] n[i].children@).no_duplicates() by {
                if i == cur as int {
                    let old_cs = pre.nodes@[i].children@;
                    assert(old_cs.no_duplicates());
                    assert forall|k: int| 0 <= k < old_cs.len() implies old_cs[k] != x by {
                        assert(pre.child_ok(i, k));
                    }
                    assert forall|a: int, b: int| 0 <= a < n[i].children@.len() && 0 <= b < n[i].children@.len() && a != b
                        implies n[i].children@[a] != n[i].children@[b] by {
                        if a < old_cs.len() && b < old_cs.len() {
                        } else if a < old_cs.len() {
                            assert(n[i].children@[b] == x);
                        } else {
                            assert(n[i].children@[a] == x);
                        }
                    }
                }
            }
            assert forall|i: int| 0 <= i < n.len() implies (#[trigger] c[i]).len() == n[i].depth by {
                if i < x {
                    assert(c[i] == pre.comps@[i]);
                }
            }
            assert forall|i: int, j: int| 0 <= i < n.len() && 0 <= j < n.len() && i != j
                implies #[trigger] c[i] != #[trigger] c[j] by {
                if i < x && j < x {
                    assert(pre.comps@[i] != pre.comps@[j]);
                } else {
                    let y = if i < x { i } else { j };
                    if c[y] == nc {
                        assert(y != 0);
                        assert(pre.node_ok(y));
                        let p = pre.nodes@[y].parent as int;
                        assert(pre.comps@[y] == pre.comps@[p].push(pre.nodes@[y].name@));
                        assert(pre.comps@[p] =~= nc.drop_last());
                        assert(nc.drop_last() =~= pre.comps@[cur as int]);
                        assert(p == cur as int);
                        let k = choose|k: int| 0 <= k < pre.nodes@[p].children@.len() && pre.nodes@[p].children@[k] == y as usize;
                        assert(pre.nodes@[y].name@ == nc.last());
                    }
                }
            }
        }
        assert(self.nodes@[x as int].children@ =~= Seq::<usize>::empty());
        assert(self.nodes@[x as int]@ == new_child_view(pre.nodes@[cur as int]@, cur, name@));
        x
    }

    /// No node sits exactly at `c`, and no file node sits on the way to it:
    /// inserting a file at `c` then only adds a fresh leaf below directories.
    pub open spec fn clean_for(&self, c: Seq<Seq<char>>) -> bool {
        forall|x: int| 1 <= x < self.nodes@.len() ==> {
            &&& #[trigger] self.comps@[x] != c
            &&& (is_file_node(self.nodes@[x]) ==> !is_prefix(self.comps@[x], c))
        }
    }

    /// Gives node `x` the token count `tokens` and the metadata `meta`.
    fn set_node(&mut self, x: usize, tokens: usize, meta: EntryMetadata)
        requires
            old(self).wf(),
            1 <= x < old(self).nodes@.len(),
        ensures
            final(self).wf(),
            final(self).comps == old(self).comps,
            final(self).nodes@ == old(self).nodes@.update(
                x as int,
                (TreeNode { tokens, metadata: Some(meta), ..old(self).nodes@[x as int] }),
            ),
    {
        let ghost pre = *self;
        self.nodes[x].tokens = tokens;
        self.nodes[x].metadata = Some(meta);
        proof {
            let nx = TreeNode { tokens, metadata: Some(meta), ..pre.nodes@[x as int] };
            assert(self.nodes@ =~= pre.nodes@.update(x as int, nx));
            let n = self.nodes@;
            assert forall|i: int| 1 <= i < n.len() implies #[trigger] self.node_ok(i) by {
                assert(pre.node_ok(i));
            }
            assert forall|i: int, k: int| 0 <= i < n.len() && 0 <= k < n[i].children@.len()
                implies #[trigger] self.child_ok(i, k) by {
                assert(pre.child_ok(i, k));
            }
            assert forall|i: int| 0 <= i < n.len() implies (#[trigger] n[i].children@).no_duplicates() by {
                assert(pre.nodes@[i].children@.no_duplicates());
            }
            assert forall|i: int| 0 <= i < n.len() implies (#[trigger] self.comps@[i]).len() == n[i].depth by {
                assert(pre.comps@[i].len() == pre.nodes@[i].depth);
            }
        }
    }

    /// Inserts the file whose path components are `comps` (empty components
    /// are skipped; with none left, nothing changes), with `tokens` tokens:
    /// every directory on the way gains `tokens`, the last component becomes
    /// a file node holding `tokens` (see `walk`).
    fn insert_path(&mut self, comps: &Vec<String>, tokens: usize, Ghost(bound): Ghost<int>, Ghost(sum): Ghost<int>)
        requires
            old(self).wf(),
            forall|k: int| 0 <= k < comps@.len() ==> !(#[trigger] comps@[k]@).contains('/'),
            forall|i: int| 0 <= i < old(self).nodes@.len() ==> #[trigger] old(self).nodes@[i].tokens <= bound,
            file_sum(old(self).nodes@) <= bound,
            child_sum(old(self).nodes@, old(self).nodes@[0].children@) <= bound,
            bound + tokens <= usize::MAX,
        ensures
            final(self).wf(),
            nodes_view(final(self).nodes@) == walk(nodes_view(old(self).nodes@), 0, nonempty_parts(views_of(comps@)), 0, tokens),
            child_sum(final(self).nodes@, final(self).nodes@[0].children@) <= bound + tokens,
            final(self).nodes@.len() >= old(self).nodes@.len(),
            final(self).comps@.subrange(0, old(self).nodes@.len() as int) == old(self).comps@,
            forall|i: int| 0 <= i < final(self).nodes@.len() ==> #[trigger] final(self).nodes@[i].tokens <= bound + tokens,
            file_sum(final(self).nodes@) <= bound + tokens,
            final(self).nodes@[0].tokens == old(self).nodes@[0].tokens,
            forall|x: int| 0 <= x < final(self).nodes@.len() && !is_prefix(#[trigger] final(self).comps@[x], nonempty_parts(views_of(comps@)))
                ==> x < old(self).nodes@.len() && final(self).nodes@[x] == old(self).nodes@[x],
            forall|x: int| 1 <= x < final(self).nodes@.len() && is_prefix(#[trigger] final(self).comps@[x], nonempty_parts(views_of(comps@)))
                && is_file_node(final(self).nodes@[x]) ==> final(self).comps@[x] == nonempty_parts(views_of(comps@)),
            nonempty_parts(views_of(comps@)).len() > 0 ==> exists|x: int| 1 <= x < final(self).nodes@.len() && #[trigger] final(self).comps@[x] == nonempty_parts(views_of(comps@))
                && is_file_node(final(self).nodes@[x]) && final(self).nodes@[x].tokens == tokens,
            (nonempty_parts(views_of(comps@)).len() > 0 && old(self).clean_for(nonempty_parts(views_of(comps@))) && old(self).aggregated()
                && child_sum(old(self).nodes@, old(self).nodes@[0].children@) == sum
                && file_sum(old(self).nodes@) == sum) ==> (final(self).aggregated()
                && child_sum(final(self).nodes@, final(self).nodes@[0].children@) == sum + tokens
                && file_sum(final(self).nodes@) == sum + tokens),
    {
        let parts = nonempty_strings(comps);
        let ghost c = nonempty_parts(views_of(comps@));
        proof {
            lemma_nonempty_parts_components(views_of(comps@));
            assert forall|k: int| 0 <= k < parts@.len() implies is_component(#[trigger] parts@[k]@) by {
                assert(views_of(parts@)[k] == parts@[k]@);
            }
        }
        if parts.len() == 0 {
            proof {
                assert forall|x: int| 1 <= x < self.nodes@.len() && is_prefix(#[trigger] self.comps@[x], c)
                    && is_file_node(self.nodes@[x]) implies self.comps@[x] == c by {
                    assert(self.node_ok(x));
                }
                assert(self.comps@.subrange(0, self.nodes@.len() as int) =~= self.comps@);
            }
            return;
        }
        self.insert_parts(&parts, tokens, Ghost(bound), Ghost(sum));
    }

    /// Inserts the non-empty components `comps` (see `insert_path`).
    fn insert_parts(&mut self, comps: &Vec<String>, tokens: usize, Ghost(bound): Ghost<int>, Ghost(sum): Ghost<int>)
        requires
            old(self).wf(),
            comps@.len() > 0,
            forall|k: int| 0 <= k < comps@.len() ==> is_component(#[trigger] comps@[k]@),
            forall|i: int| 0 <= i < old(self).nodes@.len() ==> #[trigger] old(self).nodes@[i].tokens <= bound,
            file_sum(old(self).nodes@) <= bound,
            child_sum(old(self).nodes@, old(self).nodes@[0].children@) <= bound,
            bound + tokens <= usize::MAX,
        ensures
            final(self).wf(),
            nodes_view(final(self).nodes@) == walk(nodes_view(old(self).nodes@), 0, views_of(comps@), 0, tokens),
            child_sum(final(self).nodes@, final(self).nodes@[0].children@) <= bound + tokens,
            final(self).nodes@.len() >= old(self).nodes@.len(),
            final(self).comps@.subrange(0, old(self).nodes@.len() as int) == old(self).comps@,
            forall|i: int| 0 <= i < final(self).nodes@.len() ==> #[trigger] final(self).nodes@[i].tokens <= bound + tokens,
            file_sum(final(self).nodes@) <= bound + tokens,
            final(self).nodes@[0].tokens == old(self).nodes@[0].tokens,
            forall|x: int| 0 <= x < final(self).nodes@.len() && !is_prefix(#[trigger] final(self).comps@[x], views_of(comps@))
                ==> x < old(self).nodes@.len() && final(self).nodes@[x] == old(self).nodes@[x],
            forall|x: int| 1 <= x < final(self).nodes@.len() && is_prefix(#[trigger] final(self).comps@[x], views_of(comps@))
                && is_file_node(final(self).nodes@[x]) ==> final(self).comps@[x] == views_of(comps@),
            exists|x: int| 1 <= x < final(self).nodes@.len() && #[trigger] final(self).comps@[x] == views_of(comps@)
                && is_file_node(final(self).nodes@[x]) && final(self).nodes@[x].tokens == tokens,
            (old(self).clean_for(views_of(comps@)) && old(self).aggregated()
                && child_sum(old(self).nodes@, old(self).nodes@[0].children@) == sum
                && file_sum(old(self).nodes@) == sum) ==> (final(self).aggregated()
                && child_sum(final(self).nodes@, final(self).nodes@[0].children@) == sum + tokens
                && file_sum(final(self).nodes@) == sum + tokens),
    {
        let ghost c = views_of(comps@);
        let ghost pre = *self;
        let ghost clean = pre.clean_for(c) && pre.aggregated()
            && child_sum(pre.nodes@, pre.nodes@[0].children@) == sum && file_sum(pre.nodes@) == sum;
        let ghost m = comps@.len() as int;
        let mut cur: usize = 0;
        let mut k: usize = 0;
        assert(self.comps@.subrange(0, pre.nodes@.len() as int) =~= pre.comps@);
        assert forall|x: int| 1 <= x < self.nodes@.len() implies (#[trigger] self.comps@[x]).len() >= 1 by {
            assert(self.node_ok(x));
        }
        while k < comps.len()
            invariant
                self.wf(),
                pre.wf(),
                c == views_of(comps@),
                m == comps@.len(),
                m > 0,
                forall|j: int| 0 <= j < comps@.len() ==> is_component(#[trigger] comps@[j]@),
                forall|i: int| 0 <= i < pre.nodes@.len() ==> #[trigger] pre.nodes@[i].tokens <= bound,
                file_sum(pre.nodes@) <= bound,
                child_sum(self.nodes@, self.nodes@[0].children@) <= bound + if k >= 1 { tokens as int } else { 0 },
                bound + tokens <= usize::MAX,
                clean == (pre.clean_for(c) && pre.aggregated()
                    && child_sum(pre.nodes@, pre.nodes@[0].children@) == sum && file_sum(pre.nodes@) == sum),
                self.nodes@.len() >= pre.nodes@.len(),
                self.comps@.subrange(0, pre.nodes@.len() as int) == pre.comps@,
                k <= m,
                cur < self.nodes@.len(),
                self.comps@[cur as int] == c.subrange(0, k as int),
                k == 0 ==> cur == 0,
                forall|x: int| pre.nodes@.len() <= x < self.nodes@.len() ==> 1 <= (#[trigger] self.comps@[x]).len() <= k,
                forall|x: int| 0 <= x < self.nodes@.len() && !(is_prefix(#[trigger] self.comps@[x], c) && self.comps@[x].len() <= k)
                    ==> x < pre.nodes@.len() && self.nodes@[x] == pre.nodes@[x],
                forall|x: int| 1 <= x < self.nodes@.len() && is_prefix(#[trigger] self.comps@[x], c)
                    && self.comps@[x].len() <= k && self.comps@[x].len() < m ==> is_dir_node(self.nodes@[x]),
                forall|i: int| 0 <= i < self.nodes@.len() ==> #[trigger] self.nodes@[i].tokens <= bound + tokens,
                k < m ==> file_sum(self.nodes@) <= bound,
                file_sum(self.nodes@) <= bound + tokens,
                self.nodes@[0].tokens == pre.nodes@[0].tokens,
                clean ==> forall|x: int| 1 <= x < self.nodes@.len() && (x != cur || k == m) ==> #[trigger] self.agg_ok(x),
                clean && 1 <= k < m ==> is_dir_node(self.nodes@[cur as int])
                    && self.nodes@[cur as int].tokens == child_sum(self.nodes@, self.nodes@[cur as int].children@) + tokens,
                clean ==> child_sum(self.nodes@, self.nodes@[0].children@) == sum + if k >= 1 { tokens as int } else { 0 },
                clean ==> file_sum(self.nodes@) == sum + if k == m { tokens as int } else { 0 },
                clean && k == m ==> is_file_node(self.nodes@[cur as int]),
                k == m ==> cur >= 1 && is_file_node(self.nodes@[cur as int]) && self.nodes@[cur as int].tokens == tokens,
                walk(nodes_view(self.nodes@), cur, c, k as nat, tokens) == walk(nodes_view(pre.nodes@), 0, c, 0, tokens),
            decreases m - k,
        {
            let name = &comps[k];
            let ghost before = *self;
            let ghost target = c.subrange(0, k as int + 1);
            assert(target == c.subrange(0, k as int).push(name@)) by {
                assert(c.subrange(0, k as int).push(name@) =~= target);
            }
            let found = self.find_child(cur, name);
            let x = match found {
                Some(x) => {
                    proof {
                        let kk = choose|kk: int| 0 <= kk < before.nodes@[cur as int].children@.len()
                            && before.nodes@[cur as int].children@[kk] == x;
                        assert(before.child_ok(cur as int, kk));
                        lemma_child_iff_parent(before, cur as int, x);
                        assert(before.node_ok(x as int));
                        assert(before.comps@[x as int] == target);
                        assert(is_prefix(target, c));
                        assert(x < pre.nodes@.len() && before.nodes@[x as int] == pre.nodes@[x as int]);
                        if clean {
                            assert(pre.comps@[x as int] == before.comps@[x as int]);
                            assert(pre.node_ok(x as int));
                            if k + 1 == m {
                                assert(target =~= c);
                                assert(false);
                            }
                            assert(!is_file_node(pre.nodes@[x as int])) by {
                                if is_file_node(pre.nodes@[x as int]) {
                                    assert(!is_prefix(pre.comps@[x as int], c));
                                }
                            }
                            assert(before.agg_ok(x as int));
                        }
                    }
                    x
                },
                None => {
                    let x = self.add_child(cur, name);
                    proof {
                        let mid = *self;
                        assert(mid.comps@[x as int] == target);
                        assert(mid.comps@.subrange(0, pre.nodes@.len() as int) =~= pre.comps@);
                        // sums are untouched by the new, empty node
                        assert forall|i: int| 0 <= i < before.nodes@.len() implies
                            #[trigger] child_sum(mid.nodes@, before.nodes@[i].children@)
                                == child_sum(before.nodes@, before.nodes@[i].children@) by {
                            assert forall|j: int| 0 <= j < before.nodes@[i].children@.len() implies
                                mid.nodes@[#[trigger] before.nodes@[i].children@[j] as int].tokens
                                    == before.nodes@[before.nodes@[i].children@[j] as int].tokens by {
                                assert(before.child_ok(i, j));
                            }
                            lemma_child_sum_same_tokens(mid.nodes@, before.nodes@, before.nodes@[i].children@);
                        }
                        lemma_child_sum_snoc(mid.nodes@, before.nodes@[cur as int].children@, x);
                        let upd = before.nodes@.update(cur as int, mid.nodes@[cur as int]);
                        assert(mid.nodes@ =~= upd.push(mid.nodes@[x as int]));
                        lemma_file_sum_update(before.nodes@, cur as int, mid.nodes@[cur as int]);
                        lemma_file_sum_push(upd, mid.nodes@[x as int]);
                        if clean {
                            assert forall|y: int| 1 <= y < mid.nodes@.len() && (y != cur || k == m) implies #[trigger] mid.agg_ok(y) by {
                                if y < x as int {
                                    assert(before.agg_ok(y));
                                    if y == cur as int {
                                        assert(false);
                                    }
                                } else {
                                    assert(mid.nodes@[y].children@ =~= Seq::<usize>::empty());
                                }
                            }
                        }
                    }
                    x
                },
            };
            let ghost mid = *self;
            proof {
                lemma_child_iff_parent(mid, cur as int, x);
                assert(mid.node_ok(x as int));
                assert(mid.nodes@[x as int].parent == cur);
                lemma_set_tokens_sums(mid, x, TreeNode { tokens: 0, ..mid.nodes@[x as int] });
            }
            if k + 1 == comps.len() {
                self.set_node(x, tokens, EntryMetadata { is_dir: false, is_symlink: false });
                proof {
                    let nx = TreeNode { tokens, metadata: Some(file_meta()), ..mid.nodes@[x as int] };
                    lemma_set_tokens_sums(mid, x, nx);
                }
            } else {
                let nt = self.nodes[x].tokens + tokens;
                self.set_node(x, nt, EntryMetadata { is_dir: true, is_symlink: false });
                proof {
                    let nx = TreeNode { tokens: nt, metadata: Some(dir_meta()), ..mid.nodes@[x as int] };
                    lemma_set_tokens_sums(mid, x, nx);
                }
            }
            proof {
                assert(c[k as int] == name@);
                if found is None {
                    assert(mid.nodes@[cur as int]@ == NodeView { children: before.nodes@[cur as int].children@.push(x), ..before.nodes@[cur as int]@ });
                }
                lemma_walk_step(before.nodes@, mid.nodes@, self.nodes@, cur, c, k as nat, tokens, found, x);
            }
            proof {
                let post = *self;
                assert(post.comps@.subrange(0, pre.nodes@.len() as int) =~= pre.comps@) by {
                    assert(mid.comps@.subrange(0, pre.nodes@.len() as int) =~= pre.comps@);
                }
                assert forall|y: int| 0 <= y < post.nodes@.len() && !(is_prefix(#[trigger] post.comps@[y], c) && post.comps@[y].len() <= k + 1)
                    implies y < pre.nodes@.len() && post.nodes@[y] == pre.nodes@[y] by {
                    assert(y != x as int);
                }
                if clean {
                    assert forall|y: int| 1 <= y < post.nodes@.len() && (y != x || k + 1 == m) implies #[trigger] post.agg_ok(y) by {
                        if y != x as int && y != cur as int {
                            assert(mid.agg_ok(y));
                        }
                    }
                }
            }
            cur = x;
            k = k + 1;
        }
        proof {
            assert forall|x: int| 1 <= x < self.nodes@.len() && is_prefix(#[trigger] self.comps@[x], c)
                && is_file_node(self.nodes@[x]) implies self.comps@[x] == c by {
                if self.comps@[x].len() < m {
                    assert(is_dir_node(self.nodes@[x]));
                }
                assert(c.subrange(0, c.len() as int) =~= c);
            }
            assert(c.subrange(0, k as int) =~= c);
            assert(self.comps@[cur as int] == c);
        }
    }

    /// Builds the tree from `entries`. Files with a known, non-zero token
    /// count are inserted in order; everything else is skipped. The root ends
    /// up holding the sum of its children.
    ///
    /// When no participating file is listed twice or also used as a directory,
    /// every directory holds exactly the sum of its children and the root holds
    /// the token total of the participating entries.
    pub fn from_entries(entries: &Vec<ProcessedEntry>) -> (tree: WeightedTree)
        requires
            token_sum(entries@) <= usize::MAX,
        ensures
            tree.wf(),
            nodes_view(tree.nodes@) == tree_view_of(entries@),
            tree.total() == child_sum(tree.nodes@, tree.nodes@[0].children@),
            0 <= tree.total() <= token_sum(entries@),
            forall|i: int| 0 <= i < tree.nodes@.len() ==> #[trigger] tree.nodes@[i].tokens <= token_sum(entries@),
            file_sum(tree.nodes@) <= token_sum(entries@),
            forall|x: int| #![trigger tree.comps@[x]] 1 <= x < tree.nodes@.len() ==> exists|e: int| 0 <= e < entries@.len()
                && is_inserted(#[trigger] entries@[e]) && is_prefix(tree.comps@[x], entry_comps(entries@[e]))
                && (is_file_node(tree.nodes@[x]) ==> tree.comps@[x] == entry_comps(entries@[e])),
            conflict_free(entries@) ==> {
                &&& tree.aggregated()
                &&& tree.total() == token_sum(entries@)
                &&& file_sum(tree.nodes@) == token_sum(entries@)
                &&& forall|e: int| 0 <= e < entries@.len() && is_inserted(#[trigger] entries@[e]) ==> exists|x: int|
                    1 <= x < tree.nodes@.len() && #[trigger] tree.comps@[x] == entry_comps(entries@[e])
                    && is_file_node(tree.nodes@[x]) && tree.nodes@[x].tokens == entries@[e].token_count->0
            },
    {
        let ghost c0: Seq<Seq<Seq<char>>> = seq![Seq::<Seq<char>>::empty()];
        let mut nodes: Vec<TreeNode> = Vec::new();
        nodes.push(TreeNode::with_path(String::new()));
        let mut tree = WeightedTree { nodes, comps: Ghost(c0) };
        let ghost es = entries@;
        let ghost mut orig: Seq<int> = seq![0int];
        proof {
            assert(tree.comps@[0].len() == 0);
            assert(child_sum(tree.nodes@, tree.nodes@[0].children@) == 0);
            assert(file_sum(tree.nodes@) == 0) by {
                assert(tree.nodes@.drop_last() =~= Seq::<TreeNode>::empty());
                assert(file_sum(tree.nodes@.drop_last()) == 0);
                assert(file_value(tree.nodes@.last()) == 0);
            }
            assert(es.subrange(0, 0) =~= Seq::<ProcessedEntry>::empty());
            assert(tree.nodes@[0].children@ =~= Seq::<usize>::empty());
            assert(tree.nodes@[0].path@ =~= Seq::<char>::empty());
            assert(tree.nodes@[0].name@ =~= Seq::<char>::empty());
            assert(tree.nodes@[0]@ == root_view());
            assert(nodes_view(tree.nodes@) =~= seq![root_view()]);
            lemma_token_sum_prefix(es, 0);
        }
        let mut j: usize = 0;
        while j < entries.len()
            invariant
                es == entries@,
                token_sum(es) <= usize::MAX,
                j <= es.len(),
                tree.wf(),
                nodes_view(tree.nodes@) == build_nodes(es.subrange(0, j as int)),
                tree.nodes@[0].tokens == 0,
                orig.len() == tree.nodes@.len(),
                forall|i: int| 0 <= i < tree.nodes@.len() ==> #[trigger] tree.nodes@[i].tokens <= token_sum(es.subrange(0, j as int)),
                file_sum(tree.nodes@) <= token_sum(es.subrange(0, j as int)),
                child_sum(tree.nodes@, tree.nodes@[0].children@) <= token_sum(es.subrange(0, j as int)),
                forall|x: int| 1 <= x < tree.nodes@.len() ==> {
                    &&& 0 <= #[trigger] orig[x] < j
                    &&& is_inserted(es[orig[x]])
                    &&& is_prefix(tree.comps@[x], entry_comps(es[orig[x]]))
                    &&& (is_file_node(tree.nodes@[x]) ==> tree.comps@[x] == entry_comps(es[orig[x]]))
                },
                conflict_free(es.subrange(0, j as int)) ==> {
                    &&& tree.aggregated()
                    &&& child_sum(tree.nodes@, tree.nodes@[0].children@) == token_sum(es.subrange(0, j as int))
                    &&& file_sum(tree.nodes@) == token_sum(es.subrange(0, j as int))
                    &&& forall|e: int| 0 <= e < j && is_inserted(#[trigger] es[e]) ==> exists|x: int|
                        1 <= x < tree.nodes@.len() && #[trigger] tree.comps@[x] == entry_comps(es[e])
                        && is_file_node(tree.nodes@[x]) && tree.nodes@[x].tokens == es[e].token_count->0
                },
            decreases es.len() - j,
        {
            let ghost s_before = token_sum(es.subrange(0, j as int));
            let ghost view_before = nodes_view(tree.nodes@);
            proof {
                assert(es.subrange(0, j as int + 1).drop_last() =~= es.subrange(0, j as int));
                lemma_token_sum_prefix(es, j as int + 1);
                assert(conflict_free(es.subrange(0, j as int + 1)) ==> conflict_free(es.subrange(0, j as int))) by {
                    if conflict_free(es.subrange(0, j as int + 1)) {
                        let a = es.subrange(0, j as int);
                        let b = es.subrange(0, j as int + 1);
                        assert forall|p: int, q: int| 0 <= p < a.len() && 0 <= q < a.len() && p != q
                            && is_inserted(#[trigger] a[p]) && is_inserted(#[trigger] a[q])
                            implies !is_prefix(entry_comps(a[p]), entry_comps(a[q])) by {
                            assert(a[p] == b[p] && a[q] == b[q]);
                        }
                    }
                }
            }
            let e = &entries[j];
            let mut done = false;
            if e.is_file {
                match e.token_count {
                    Some(t) => {
                        if t > 0 {
                            let comps = split_path(e.relative_path.as_str());
                            if comps.len() > 0 {
                                let ghost c = views_of(comps@);
                                let ghost pre = tree;
                                proof {
                                    lemma_path_components(e.relative_path@);
                                    assert forall|k: int| 0 <= k < comps@.len() implies is_component(#[trigger] comps@[k]@) by {
                                        assert(views_of(comps@)[k] == comps@[k]@);
                                    }
                                    assert(is_inserted(es[j as int]));
                                    assert(entry_comps(es[j as int]) == c);
                                    if conflict_free(es.subrange(0, j as int + 1)) {
                                        let b = es.subrange(0, j as int + 1);
                                        assert forall|x: int| 1 <= x < pre.nodes@.len() implies {
                                            &&& #[trigger] pre.comps@[x] != c
                                            &&& (is_file_node(pre.nodes@[x]) ==> !is_prefix(pre.comps@[x], c))
                                        } by {
                                            let o = orig[x];
                                            assert(b[o] == es[o] && b[j as int] == es[j as int]);
                                            if pre.comps@[x] == c {
                                                assert(!is_prefix(entry_comps(b[j as int]), entry_comps(b[o])));
                                            }
                                            if is_file_node(pre.nodes@[x]) && is_prefix(pre.comps@[x], c) {
                                                assert(!is_prefix(entry_comps(b[o]), entry_comps(b[j as int])));
                                            }
                                        }
                                    }
                                }
                                proof {
                                    assert forall|k: int| 0 <= k < comps@.len() implies !(#[trigger] comps@[k]@).contains('/') by {
                                        assert(views_of(comps@)[k] == comps@[k]@);
                                    }
                                    assert forall|k: int| 0 <= k < c.len() implies (#[trigger] c[k]).len() > 0 by {
                                        assert(is_component(c[k]));
                                    }
                                    lemma_nonempty_parts_same(c);
                                }
                                tree.insert_path(&comps, t, Ghost(s_before), Ghost(s_before));
                                proof {
                                    let post = tree;
                                    let new_orig = Seq::new(post.nodes@.len(), |x: int|
                                        if x == 0 { 0 } else if is_prefix(post.comps@[x], c) { j as int } else { orig[x] });
                                    assert forall|x: int| 1 <= x < post.nodes@.len() implies {
                                        &&& 0 <= #[trigger] new_orig[x] < j + 1
                                        &&& is_inserted(es[new_orig[x]])
                                        &&& is_prefix(post.comps@[x], entry_comps(es[new_orig[x]]))
                                        &&& (is_file_node(post.nodes@[x]) ==> post.comps@[x] == entry_comps(es[new_orig[x]]))
                                    } by {
                                        if !is_prefix(post.comps@[x], c) {
                                            assert(x < pre.nodes@.len() && post.nodes@[x] == pre.nodes@[x]);
                                            assert(post.comps@[x] == post.comps@.subrange(0, pre.nodes@.len() as int)[x]);
                                        }
                                    }
                                    orig = new_orig;
                                    if conflict_free(es.subrange(0, j as int + 1)) {
                                        let b = es.subrange(0, j as int + 1);
                                        assert forall|e: int| 0 <= e < j + 1 && is_inserted(#[trigger] es[e]) implies exists|x: int|
                                            1 <= x < post.nodes@.len() && #[trigger] post.comps@[x] == entry_comps(es[e])
                                            && is_file_node(post.nodes@[x]) && post.nodes@[x].tokens == es[e].token_count->0 by {
                                            if e < j {
                                                let x = choose|x: int| 1 <= x < pre.nodes@.len() && #[trigger] pre.comps@[x] == entry_comps(es[e])
                                                    && is_file_node(pre.nodes@[x]) && pre.nodes@[x].tokens == es[e].token_count->0;
                                                assert(b[e] == es[e] && b[j as int] == es[j as int]);
                                                assert(!is_prefix(entry_comps(b[e]), entry_comps(b[j as int])));
                                                assert(post.comps@[x] == post.comps@.subrange(0, pre.nodes@.len() as int)[x]);
                                                assert(!is_prefix(post.comps@[x], c));
                                                assert(post.nodes@[x] == pre.nodes@[x]);
                                            } else {
                                                assert(e == j as int);
                                            }
                                        }
                                    }
                                }
                                done = true;
                            }
                        }
                    },
                    None => {},
                }
            }
            proof {
                if !done {
                    assert(!is_inserted(es[j as int]));
                }
                assert(token_sum(es.subrange(0, j as int + 1)) == s_before + inserted_tokens(es[j as int]));
                assert(es.subrange(0, j as int + 1).last() == es[j as int]);
                if done {
                    assert(is_inserted(es[j as int]));
                }
                assert(nodes_view(tree.nodes@) == build_nodes(es.subrange(0, j as int + 1)));
            }
            j = j + 1;
        }
        proof {
            assert(es.subrange(0, es.len() as int) =~= es);
        }
        let total = tree.root_child_total();
        let ghost pre = tree;
        tree.nodes[0].tokens = total;
        proof {
            let post = tree;
            let nr = TreeNode { tokens: total, ..pre.nodes@[0] };
            assert(post.nodes@ =~= pre.nodes@.update(0, nr));
            lemma_file_sum_update(pre.nodes@, 0, nr);
            assert forall|i: int| 0 <= i < post.nodes@.len() implies
                #[trigger] child_sum(post.nodes@, pre.nodes@[i].children@) == child_sum(pre.nodes@, pre.nodes@[i].children@) by {
                assert forall|k: int| 0 <= k < pre.nodes@[i].children@.len() implies
                    post.nodes@[#[trigger] pre.nodes@[i].children@[k] as int].tokens == pre.nodes@[pre.nodes@[i].children@[k] as int].tokens by {
                    assert(pre.child_ok(i, k));
                }
                lemma_child_sum_same_tokens(post.nodes@, pre.nodes@, pre.nodes@[i].children@);
            }
            assert forall|k: int| 0 <= k < pre.nodes@[0].children@.len() implies #[trigger] pre.nodes@[0].children@[k] < pre.nodes@.len() by {
                assert(pre.child_ok(0, k));
            }
            lemma_child_sum_view(pre.nodes@, pre.nodes@[0].children@);
            assert(build_nodes(es) == nodes_view(pre.nodes@));
            assert(nodes_view(post.nodes@) =~= tree_view_of(entries@)) by {
                assert(nodes_view(pre.nodes@)[0] == pre.nodes@[0]@);
            }
            assert forall|i: int| 1 <= i < post.nodes@.len() implies #[trigger] post.node_ok(i) by {
                assert(pre.node_ok(i));
            }
            assert forall|i: int, k: int| 0 <= i < post.nodes@.len() && 0 <= k < post.nodes@[i].children@.len()
                implies #[trigger] post.child_ok(i, k) by {
                assert(pre.child_ok(i, k));
            }
            assert forall|i: int| 0 <= i < post.nodes@.len() implies (#[trigger] post.nodes@[i].children@).no_duplicates() by {
                assert(pre.nodes@[i].children@.no_duplicates());
            }
            assert forall|i: int| 0 <= i < post.nodes@.len() implies (#[trigger] post.comps@[i]).len() == post.nodes@[i].depth by {
                assert(pre.comps@[i].len() == pre.nodes@[i].depth);
            }
            if conflict_free(es) {
                assert forall|i: int| 1 <= i < post.nodes@.len() implies #[trigger] post.agg_ok(i) by {
                    assert(pre.agg_ok(i));
                }
                assert forall|e: int| 0 <= e < entries@.len() && is_inserted(#[trigger] entries@[e]) implies exists|x: int|
                    1 <= x < post.nodes@.len() && #[trigger] post.comps@[x] == entry_comps(entries@[e])
                    && is_file_node(post.nodes@[x]) && post.nodes@[x].tokens == entries@[e].token_count->0 by {
                    assert(es.subrange(0, j as int) == es);
                    assert(conflict_free(es.subrange(0, j as int)));
                    assert(0 <= e < j);
                    assert(is_inserted(es[e]));
                    let x = choose|x: int| 1 <= x < pre.nodes@.len() && #[trigger] pre.comps@[x] == entry_comps(es[e])
                        && is_file_node(pre.nodes@[x]) && pre.nodes@[x].tokens == es[e].token_count->0;
                    assert(post.nodes@[x] == pre.nodes@[x]);
                    assert(post.comps@[x] == pre.comps@[x]);
                    assert(1 <= x < post.nodes@.len() && post.comps@[x] == entry_comps(entries@[e])
                        && is_file_node(post.nodes@[x]) && post.nodes@[x].tokens == entries@[e].token_count->0);
                }
            }
            assert forall|x: int| #![trigger post.comps@[x]] 1 <= x < post.nodes@.len() implies exists|e: int| 0 <= e < entries@.len()
                && is_inserted(#[trigger] entries@[e]) && is_prefix(post.comps@[x], entry_comps(entries@[e]))
                && (is_file_node(post.nodes@[x]) ==> post.comps@[x] == entry_comps(entries@[e])) by {
                let o = orig[x];
                assert(is_inserted(entries@[o]));
            }
        }
        tree
    }

    /// The sum of the tokens of the root's children.
    fn root_child_total(&self) -> (r: usize)
        requires
            self.wf(),
            child_sum(self.nodes@, self.nodes@[0].children@) <= usize::MAX,
        ensures
            r == child_sum(self.nodes@, self.nodes@[0].children@),
    {
        let cs = &self.nodes[0].children;
        let mut acc: usize = 0;
        let mut k: usize = 0;
        while k < cs.len()
            invariant
                *cs == self.nodes@[0].children,
                child_sum(self.nodes@, cs@) <= usize::MAX,
                k <= cs@.len(),
                acc == child_sum(self.nodes@, cs@.subrange(0, k as int)),
                self.wf(),
            decreases cs@.len() - k,
        {
            proof {
                assert(cs@.subrange(0, k as int + 1).drop_last() =~= cs@.subrange(0, k as int));
                lemma_child_sum_prefix(self.nodes@, cs@, k as int + 1);
                assert(self.child_ok(0, k as int));
            }
            acc = acc + self.nodes[cs[k]].tokens;
            k = k + 1;
        }
        assert(cs@.subrange(0, k as int) =~= cs@);
        acc
    }

    /// The token total of the file nodes (directories are not counted, so
    /// nothing is counted twice).
    pub fn calculate_file_tokens(&self) -> (r: usize)
        requires
            self.wf(),
            file_sum(self.nodes@) <= usize::MAX,
        ensures
            r == file_sum(self.nodes@),
    {
        let mut acc: usize = 0;
        let mut i: usize = 0;
        while i < self.nodes.len()
            invariant
                file_sum(self.nodes@) <= usize::MAX,
                i <= self.nodes@.len(),
                acc == file_sum(self.nodes@.subrange(0, i as int)),
            decreases self.nodes@.len() - i,
        {
            proof {
                assert(self.nodes@.subrange(0, i as int + 1).drop_last() =~= self.nodes@.subrange(0, i as int));
                lemma_file_sum_prefix(self.nodes@, i as int + 1);
            }
            let node = &self.nodes[i];
            let is_file = match node.metadata {
                Some(m) => !m.is_dir,
                None => false,
            };
            if is_file {
                acc = acc + node.tokens;
            }
            i = i + 1;
        }
        assert(self.nodes@.subrange(0, i as int) =~= self.nodes@);
        acc
    }

    /// The node at `path` (split on `/`, empty components ignored; the root
    /// for an empty path), if there is one.
    pub fn find_node_by_path(&self, path: &str) -> (r: Option<usize>)
        requires
            self.wf(),
        ensures
            r matches Some(i) ==> i < self.nodes@.len() && self.comps@[i as int] == path_components(path@),
            r is None ==> forall|j: int| 0 <= j < self.nodes@.len() ==> #[trigger] self.comps@[j] != path_components(path@),
    {
        let comps = split_path(path);
        let ghost c = path_components(path@);
        let mut cur: usize = 0;
        let mut k: usize = 0;
        assert(c.subrange(0, 0) =~= Seq::<Seq<char>>::empty());
        while k < comps.len()
            invariant
                self.wf(),
                c == path_components(path@),
                views_of(comps@) == c,
                k <= comps@.len(),
                cur < self.nodes@.len(),
                self.comps@[cur as int] == c.subrange(0, k as int),
            decreases comps@.len() - k,
        {
            match self.find_child(cur, &comps[k]) {
                Some(x) => {
                    proof {
                        let q = choose|q: int| 0 <= q < self.nodes@[cur as int].children@.len()
                            && self.nodes@[cur as int].children@[q] == x;
                        assert(self.child_ok(cur as int, q));
                        assert(self.node_ok(x as int));
                        assert(views_of(comps@)[k as int] == comps@[k as int]@);
                        assert(c.subrange(0, k as int + 1) =~= c.subrange(0, k as int).push(c[k as int]));
                    }
                    cur = x;
                },
                None => {
                    proof {
                        assert(views_of(comps@)[k as int] == comps@[k as int]@);
                        assert(c.len() == comps@.len());
                        assert(self.nodes@.len() <= usize::MAX) by {
                            assert(self.nodes.len() == self.nodes@.len());
                        }
                        assert forall|j: int| 0 <= j < self.nodes@.len() implies #[trigger] self.comps@[j] != c by {
                            if self.comps@[j] == c {
                                if j == 0 {
                                    assert(self.comps@[0].len() == 0);
                                } else {
                                    let a = lemma_ancestor_at(*self, j, k as int);
                                    let p = self.nodes@[a].parent as int;
                                    assert(self.node_ok(a));
                                    assert(0 <= p < self.nodes@.len());
                                    assert(self.comps@[j].subrange(0, k as int) == c.subrange(0, k as int));
                                    assert(self.comps@[p] == self.comps@[cur as int]);
                                    assert(p == cur as int) by {
                                        if p != cur as int {
                                            assert(self.comps@[p] != self.comps@[cur as int]);
                                        }
                                    }
                                    assert(self.node_ok(a));
                                    assert(self.nodes@[p].children@.contains(a as usize));
                                    let q = choose|q: int| 0 <= q < self.nodes@[p].children@.len()
                                        && self.nodes@[p].children@[q] == a as usize;
                                    assert(self.comps@[a] == self.comps@[p].push(self.nodes@[a].name@));
                                    assert(self.nodes@[a].name@ == self.comps@[a].last());
                                    assert(self.comps@[a].last() == c[k as int]);
                                    assert(self.nodes@[self.nodes@[cur as int].children@[q] as int].name@ != comps@[k as int]@);
                                }
                            }
                        }
                        assert(c == path_components(path@));
                    }
                    return None;
                },
            }
            k = k + 1;
        }
        assert(c.subrange(0, k as int) =~= c);
        Some(cur)
    }

    /// The path of a child called `name` under node `cur`.
    fn child_path(&self, cur: usize, name: &String) -> (r: String)
        requires
            cur < self.nodes@.len(),
        ensures
            r@ == join_path(self.nodes@[cur as int].path@, name@),
    {
        let parent = &self.nodes[cur].path;
        if parent.unicode_len() == 0 {
            name.clone()
        } else {
            let mut r = parent.clone();
            push_char(&mut r, '/');
            push_str(&mut r, name.as_str());
            r
        }
    }
}


/// Two arenas that agree on the tokens of the nodes listed in `cs` give the
/// same sum over `cs`.
proof fn lemma_child_sum_same_tokens(n1: Seq<TreeNode>, n2: Seq<TreeNode>, cs: Seq<usize>)
    requires
        forall|k: int| 0 <= k < cs.len() ==> n1[#[trigger] cs[k] as int].tokens == n2[cs[k] as int].tokens,
    ensures
        child_sum(n1, cs) == child_sum(n2, cs),
    decreases cs.len(),
{
    if cs.len() > 0 {
        let init = cs.drop_last();
        assert forall|k: int| 0 <= k < init.len() implies n1[#[trigger] init[k] as int].tokens == n2[init[k] as int].tokens by {
            assert(init[k] == cs[k]);
        }
        lemma_child_sum_same_tokens(n1, n2, init);
        assert(cs.last() == cs[cs.len() - 1]);
    }
}

/// Adding one index at the end adds that node's tokens.
proof fn lemma_child_sum_snoc(nodes: Seq<TreeNode>, cs: Seq<usize>, j: usize)
    ensures
        child_sum(nodes, cs.push(j)) == child_sum(nodes, cs) + nodes[j as int].tokens,
{
    assert(cs.push(j).drop_last() =~= cs);
}

/// Changing the tokens of node `x` changes a sum over distinct indices by the
/// difference, if `x` is among them.
proof fn lemma_child_sum_update(nodes: Seq<TreeNode>, cs: Seq<usize>, x: usize, nx: TreeNode)
    requires
        cs.no_duplicates(),
        x < nodes.len(),
        forall|k: int| 0 <= k < cs.len() ==> #[trigger] cs[k] < nodes.len(),
    ensures
        child_sum(nodes.update(x as int, nx), cs) == child_sum(nodes, cs) + if cs.contains(x) {
            nx.tokens - nodes[x as int].tokens
        } else {
            0
        },
    decreases cs.len(),
{
    if cs.len() > 0 {
        let init = cs.drop_last();
        assert(init.no_duplicates()) by {
            assert forall|a: int, b: int| 0 <= a < init.len() && 0 <= b < init.len() && a != b implies init[a] != init[b] by {
                assert(init[a] == cs[a] && init[b] == cs[b]);
            }
        }
        assert forall|k: int| 0 <= k < init.len() implies #[trigger] init[k] < nodes.len() by {
            assert(init[k] == cs[k]);
        }
        lemma_child_sum_update(nodes, init, x, nx);
        let l = cs.last();
        assert(l == cs[cs.len() - 1]);
        assert(l < nodes.len());
        if l == x {
            assert(cs.contains(x));
            assert(!init.contains(x)) by {
                if init.contains(x) {
                    let a = choose|a: int| 0 <= a < init.len() && init[a] == x;
                    assert(cs[a] == cs[cs.len() - 1]);
                }
            }
        } else {
            assert(cs.contains(x) == init.contains(x)) by {
                if cs.contains(x) {
                    let a = choose|a: int| 0 <= a < cs.len() && cs[a] == x;
                    assert(a < cs.len() - 1);
                    assert(init[a] == x);
                }
                if init.contains(x) {
                    let a = choose|a: int| 0 <= a < init.len() && init[a] == x;
                    assert(cs[a] == x);
                }
            }
        }
    }
}

/// Replacing node `x` changes the file total by the difference of the two
/// nodes' file values.
proof fn lemma_file_sum_update(nodes: Seq<TreeNode>, x: int, nx: TreeNode)
    requires
        0 <= x < nodes.len(),
    ensures
        file_sum(nodes.update(x, nx)) == file_sum(nodes) - file_value(nodes[x]) + file_value(nx),
    decreases nodes.len(),
{
    let u = nodes.update(x, nx);
    if x == nodes.len() - 1 {
        assert(u.drop_last() =~= nodes.drop_last());
    } else {
        assert(u.drop_last() =~= nodes.drop_last().update(x, nx));
        lemma_file_sum_update(nodes.drop_last(), x, nx);
    }
}

/// Appending a node adds its file value.
proof fn lemma_file_sum_push(nodes: Seq<TreeNode>, n: TreeNode)
    ensures
        file_sum(nodes.push(n)) == file_sum(nodes) + file_value(n),
{
    assert(nodes.push(n).drop_last() =~= nodes);
}

/// In a well-formed tree, node `x` is listed among the children of node `i`
/// exactly when `i` is its parent.
pub proof fn lemma_child_iff_parent(t: WeightedTree, i: int, x: usize)
    requires
        t.wf(),
        0 <= i < t.nodes@.len(),
        1 <= x < t.nodes@.len(),
    ensures
        t.nodes@[i].children@.contains(x) <==> t.nodes@[x as int].parent == i,
        forall|k: int| 0 <= k < t.nodes@[i].children@.len() ==> #[trigger] t.nodes@[i].children@[k] < t.nodes@.len(),
{
    assert(t.node_ok(x as int));
    if t.nodes@[i].children@.contains(x) {
        let k = choose|k: int| 0 <= k < t.nodes@[i].children@.len() && t.nodes@[i].children@[k] == x;
        assert(t.child_ok(i, k));
    }
    assert forall|k: int| 0 <= k < t.nodes@[i].children@.len() implies #[trigger] t.nodes@[i].children@[k] < t.nodes@.len() by {
        assert(t.child_ok(i, k));
    }
}

/// Setting the tokens of node `x` moves the child sum of its parent, and of
/// no other node, by the difference.
proof fn lemma_set_tokens_sums(t: WeightedTree, x: usize, nx: TreeNode)
    requires
        t.wf(),
        1 <= x < t.nodes@.len(),
    ensures
        forall|i: int| 0 <= i < t.nodes@.len() ==> #[trigger] child_sum(t.nodes@.update(x as int, nx), t.nodes@[i].children@)
            == child_sum(t.nodes@, t.nodes@[i].children@) + if i == t.nodes@[x as int].parent as int {
                nx.tokens - t.nodes@[x as int].tokens
            } else {
                0
            },
        file_sum(t.nodes@.update(x as int, nx)) == file_sum(t.nodes@) - file_value(t.nodes@[x as int]) + file_value(nx),
{
    assert forall|i: int| 0 <= i < t.nodes@.len() implies #[trigger] child_sum(t.nodes@.update(x as int, nx), t.nodes@[i].children@)
        == child_sum(t.nodes@, t.nodes@[i].children@) + if i == t.nodes@[x as int].parent as int {
            nx.tokens - t.nodes@[x as int].tokens
        } else {
            0
        } by {
        lemma_child_iff_parent(t, i, x);
        lemma_child_sum_update(t.nodes@, t.nodes@[i].children@, x, nx);
    }
    lemma_file_sum_update(t.nodes@, x as int, nx);
}

/// A node below level `k` has an ancestor-or-self at level `k + 1`, whose
/// parent sits at the node's first `k` components.
proof fn lemma_ancestor_at(t: WeightedTree, j: int, k: int) -> (a: int)
    requires
        t.wf(),
        1 <= j < t.nodes@.len(),
        0 <= k < t.comps@[j].len(),
    ensures
        1 <= a < t.nodes@.len(),
        t.comps@[a] == t.comps@[j].subrange(0, k + 1),
        t.comps@[t.nodes@[a].parent as int] == t.comps@[j].subrange(0, k),
    decreases t.nodes@[j].depth,
{
    assert(t.node_ok(j));
    let p = t.nodes@[j].parent as int;
    let cj = t.comps@[j];
    if cj.len() == k + 1 {
        assert(cj.subrange(0, k + 1) =~= cj);
        assert(cj.subrange(0, k) =~= t.comps@[p]);
        j
    } else {
        assert(t.comps@[p] =~= cj.drop_last());
        assert(p != 0) by {
            if p == 0 {
                assert(t.comps@[0].len() == 0);
            }
        }
        let a = lemma_ancestor_at(t, p, k);
        assert(t.comps@[p].subrange(0, k + 1) =~= cj.subrange(0, k + 1));
        assert(t.comps@[p].subrange(0, k) =~= cj.subrange(0, k));
        a
    }
}

/// One step of the insertion walk: finding or appending the child, then
/// updating it, is what `walk` does at step `k`.
proof fn lemma_walk_step(
    before: Seq<TreeNode>,
    mid: Seq<TreeNode>,
    post: Seq<TreeNode>,
    cur: usize,
    c: Seq<Seq<char>>,
    k: nat,
    tokens: usize,
    found: Option<usize>,
    x: usize,
)
    requires
        k < c.len(),
        cur < before.len(),
        found == first_named(nodes_view(before), before[cur as int].children@, c[k as int]),
        found matches Some(y) ==> mid == before && x == y && x < mid.len(),
        found is None ==> {
            &&& x == before.len()
            &&& mid.len() == x + 1
            &&& forall|q: int| 0 <= q < x && q != cur ==> mid[q] == before[q]
            &&& mid[cur as int]@ == NodeView { children: before[cur as int].children@.push(x), ..before[cur as int]@ }
            &&& mid[x as int]@ == new_child_view(before[cur as int]@, cur, c[k as int])
        },
        k + 1 == c.len() ==> post == mid.update(x as int, TreeNode { tokens: tokens, metadata: Some(file_meta()), ..mid[x as int] }),
        k + 1 < c.len() ==> post == mid.update(
            x as int,
            TreeNode { tokens: (mid[x as int].tokens + tokens) as usize, metadata: Some(dir_meta()), ..mid[x as int] },
        ),
    ensures
        walk(nodes_view(before), cur, c, k, tokens) == walk(nodes_view(post), x, c, k + 1, tokens),
{
    let nvb = nodes_view(before);
    let f = child_for(nvb, cur, c[k as int]);
    assert(nvb[cur as int] == before[cur as int]@);
    if found is None {
        let cu = NodeView { children: nvb[cur as int].children.push(nvb.len() as usize), ..nvb[cur as int] };
        assert(nodes_view(mid) =~= nvb.update(cur as int, cu).push(new_child_view(nvb[cur as int], cur, c[k as int]))) by {
            assert forall|q: int| 0 <= q < mid.len() implies #[trigger] nodes_view(mid)[q]
                == nvb.update(cur as int, cu).push(new_child_view(nvb[cur as int], cur, c[k as int]))[q] by {
                if q < before.len() && q != cur as int {
                    assert(mid[q] == before[q]);
                }
            }
        }
    }
    assert(f.0 == nodes_view(mid) && f.1 == x);
    let n1 = f.0;
    let n2 = if k + 1 == c.len() {
        n1.update(x as int, NodeView { tokens: tokens, metadata: Some(file_meta()), ..n1[x as int] })
    } else {
        n1.update(x as int, NodeView { tokens: (n1[x as int].tokens + tokens) as usize, metadata: Some(dir_meta()), ..n1[x as int] })
    };
    assert(n1[x as int] == mid[x as int]@);
    assert(nodes_view(post) =~= n2);
}

/// The non-empty entries of `c`, in order.
pub open spec fn nonempty_parts(c: Seq<Seq<char>>) -> Seq<Seq<char>>
    decreases c.len(),
{
    if c.len() == 0 {
        c
    } else {
        let p = nonempty_parts(c.drop_last());
        if c.last().len() > 0 { p.push(c.last()) } else { p }
    }
}

proof fn lemma_nonempty_parts_components(c: Seq<Seq<char>>)
    requires
        forall|k: int| 0 <= k < c.len() ==> !(#[trigger] c[k]).contains('/'),
    ensures
        forall|k: int| 0 <= k < nonempty_parts(c).len() ==> is_component(#[trigger] nonempty_parts(c)[k]),
    decreases c.len(),
{
    if c.len() > 0 {
        assert forall|k: int| 0 <= k < c.drop_last().len() implies !(#[trigger] c.drop_last()[k]).contains('/') by {
            assert(c.drop_last()[k] == c[k]);
        }
        lemma_nonempty_parts_components(c.drop_last());
        assert(c.last() == c[c.len() - 1]);
        let p = nonempty_parts(c.drop_last());
        let r = nonempty_parts(c);
        assert forall|k: int| 0 <= k < r.len() implies is_component(#[trigger] r[k]) by {
            if k < p.len() {
                assert(r[k] == p[k]);
            } else {
                assert(r[k] == c.last());
            }
        }
    }
}

/// Components that are all non-empty are kept as they are.
proof fn lemma_nonempty_parts_same(c: Seq<Seq<char>>)
    requires
        forall|k: int| 0 <= k < c.len() ==> (#[trigger] c[k]).len() > 0,
    ensures
        nonempty_parts(c) == c,
    decreases c.len(),
{
    if c.len() > 0 {
        assert forall|k: int| 0 <= k < c.drop_last().len() implies (#[trigger] c.drop_last()[k]).len() > 0 by {
            assert(c.drop_last()[k] == c[k]);
        }
        lemma_nonempty_parts_same(c.drop_last());
        assert(c.last() == c[c.len() - 1]);
        assert(c.drop_last().push(c.last()) =~= c);
    }
}

/// The non-empty strings of `v`, in order.
fn nonempty_strings(v: &Vec<String>) -> (r: Vec<String>)
    ensures
        views_of(r@) == nonempty_parts(views_of(v@)),
{
    let mut r: Vec<String> = Vec::new();
    let mut i: usize = 0;
    let ghost vv = views_of(v@);
    assert(vv.subrange(0, 0) =~= Seq::<Seq<char>>::empty());
    while i < v.len()
        invariant
            vv == views_of(v@),
            i <= v@.len(),
            views_of(r@) == nonempty_parts(vv.subrange(0, i as int)),
        decreases v@.len() - i,
    {
        proof {
            let p = vv.subrange(0, i as int + 1);
            assert(p.drop_last() =~= vv.subrange(0, i as int));
            assert(p.last() == v@[i as int]@);
        }
        if v[i].unicode_len() > 0 {
            let ghost before = r@;
            r.push(v[i].clone());
            assert(views_of(r@) =~= views_of(before).push(v@[i as int]@));
        }
        i = i + 1;
    }
    assert(vv.subrange(0, i as int) =~= vv);
    r
}

} // verus!
