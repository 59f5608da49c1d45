//! Best-first selection of the tree nodes worth a row of their own, under a
//! line budget and a significance threshold.

use vstd::prelude::*;
use crate::order::{lex_lt, lex_less, lemma_lex_total, lemma_lex_trans};
use crate::text::chars_of;
use crate::tree::{WeightedTree, is_dir_node, lemma_child_iff_parent};

verus! {

/// The nodes admitted for display, in the order they were admitted.
///
/// `depths[k]` is the depth at which `order[k]` was admitted (children of the
/// root are admitted at depth 0), and `admitted[i]` says whether tree node `i`
/// is among them.
pub struct SelectionSet {
    pub order: Vec<usize>,
    pub depths: Vec<usize>,
    pub admitted: Vec<bool>,
}

/// `ceil(total * min_percent_milli / 100_000)`: the token count that a file
/// needs to be a candidate when the threshold is `min_percent_milli`
/// thousandths of a percent; 0 when the total is 0.
pub open spec fn min_tokens_for(total: int, min_percent_milli: int) -> int {
    if total == 0 {
        0
    } else {
        (total * min_percent_milli + 99_999) / 100_000
    }
}

/// Number of lines available for admitted nodes: one line of `max_lines` is
/// kept for the trailing aggregate row.
pub open spec fn line_cap(max_lines: int) -> int {
    if max_lines >= 1 {
        max_lines - 1
    } else {
        0
    }
}

/// Node `i` may be queued: it is big enough, or it is a directory.
pub open spec fn eligible(t: WeightedTree, min_tokens: int, i: int) -> bool {
    t.nodes@[i].tokens >= min_tokens || is_dir_node(t.nodes@[i])
}

/// Node `a` is taken before node `b`: more tokens first, then the shallower,
/// then the later path in lexicographic order (then the lower index, for two
/// nodes at the same path, which a tree built from entries never has).
pub open spec fn outranks(t: WeightedTree, a: int, b: int) -> bool {
    let na = t.nodes@[a];
    let nb = t.nodes@[b];
    ||| na.tokens > nb.tokens
    ||| (na.tokens == nb.tokens && na.depth < nb.depth)
    ||| (na.tokens == nb.tokens && na.depth == nb.depth && lex_lt(nb.path@, na.path@))
    ||| (na.tokens == nb.tokens && na.depth == nb.depth && na.path@ == nb.path@ && a < b)
}

/// Node `i` is waiting in the queue once the nodes of `s` are admitted: it is
/// eligible, not admitted, and a child of the root or of an admitted node.
pub open spec fn is_candidate(t: WeightedTree, min_tokens: int, s: Seq<usize>, i: int) -> bool {
    &&& 1 <= i < t.nodes@.len()
    &&& eligible(t, min_tokens, i)
    &&& !s.contains(i as usize)
    &&& (t.nodes@[i].parent == 0 || s.contains(t.nodes@[i].parent))
}

/// The `k`-th admission took the best candidate left after the first `k`.
pub open spec fn greedy_step(t: WeightedTree, min_tokens: int, s: Seq<usize>, k: int) -> bool {
    &&& is_candidate(t, min_tokens, s.subrange(0, k), s[k] as int)
    &&& forall|j: int| is_candidate(t, min_tokens, s.subrange(0, k), j) && j != s[k] as int
        ==> #[trigger] outranks(t, s[k] as int, j)
}

/// `s` is what best-first admission yields: each step takes the best
/// candidate, and it stops when `cap` nodes are in or no candidate is left.
pub open spec fn is_greedy_selection(t: WeightedTree, min_tokens: int, cap: int, s: Seq<usize>) -> bool {
    &&& s.len() <= cap
    &&& forall|k: int| 0 <= k < s.len() ==> #[trigger] greedy_step(t, min_tokens, s, k)
    &&& s.len() < cap ==> forall|j: int| !#[trigger] is_candidate(t, min_tokens, s, j)
}

/// Of two different nodes, exactly one outranks the other, and the order is
/// transitive.
pub proof fn lemma_outranks_order(t: WeightedTree, a: int, b: int, c: int)
    ensures
        a != b ==> (outranks(t, a, b) || outranks(t, b, a)),
        !(outranks(t, a, b) && outranks(t, b, a)),
        outranks(t, a, b) && outranks(t, b, c) ==> outranks(t, a, c),
{
    let (pa, pb, pc) = (t.nodes@[a].path@, t.nodes@[b].path@, t.nodes@[c].path@);
    lemma_lex_total(pa, pb);
    lemma_lex_total(pb, pc);
    lemma_lex_total(pa, pc);
    if lex_lt(pb, pa) && lex_lt(pc, pb) {
        lemma_lex_trans(pc, pb, pa);
    }
}

/// Two greedy admission sequences agree on their first `k` nodes.
proof fn lemma_greedy_prefix(t: WeightedTree, min_tokens: int, cap: int, s1: Seq<usize>, s2: Seq<usize>, k: int)
    requires
        is_greedy_selection(t, min_tokens, cap, s1),
        is_greedy_selection(t, min_tokens, cap, s2),
        0 <= k <= s1.len(),
        k <= s2.len(),
    ensures
        s1.subrange(0, k) == s2.subrange(0, k),
    decreases k,
{
    if k > 0 {
        let j = k - 1;
        lemma_greedy_prefix(t, min_tokens, cap, s1, s2, j);
        assert(greedy_step(t, min_tokens, s1, j));
        assert(greedy_step(t, min_tokens, s2, j));
        if s1[j] != s2[j] {
            lemma_outranks_order(t, s1[j] as int, s2[j] as int, s2[j] as int);
            assert(outranks(t, s1[j] as int, s2[j] as int));
            assert(outranks(t, s2[j] as int, s1[j] as int));
        }
        assert(s1.subrange(0, k) =~= s1.subrange(0, j).push(s1[j]));
        assert(s2.subrange(0, k) =~= s2.subrange(0, j).push(s2[j]));
    }
}

/// Best-first admission is deterministic: two admission sequences that both
/// follow the greedy rule on the same tree, threshold and budget are equal.
pub proof fn lemma_selection_unique(t: WeightedTree, min_tokens: int, cap: int, s1: Seq<usize>, s2: Seq<usize>)
    requires
        is_greedy_selection(t, min_tokens, cap, s1),
        is_greedy_selection(t, min_tokens, cap, s2),
    ensures
        s1 == s2,
{
    let n: int = if s1.len() <= s2.len() { s1.len() as int } else { s2.len() as int };
    lemma_greedy_prefix(t, min_tokens, cap, s1, s2, n);
    if s1.len() < s2.len() {
        assert(s1.subrange(0, n) =~= s1);
        assert(greedy_step(t, min_tokens, s2, n));
        assert(!is_candidate(t, min_tokens, s1, s2[n] as int));
    } else if s2.len() < s1.len() {
        assert(s2.subrange(0, n) =~= s2);
        assert(greedy_step(t, min_tokens, s1, n));
        assert(!is_candidate(t, min_tokens, s2, s1[n] as int));
    } else {
        assert(s1 =~= s1.subrange(0, n));
        assert(s2 =~= s2.subrange(0, n));
    }
}

/// The path of every node, as characters.
fn path_keys(tree: &WeightedTree) -> (keys: Vec<Vec<char>>)
    ensures
        keys@.len() == tree.nodes@.len(),
        forall|i: int| 0 <= i < keys@.len() ==> (#[trigger] keys@[i])@ == tree.nodes@[i].path@,
{
    let mut keys: Vec<Vec<char>> = Vec::new();
    let mut i: usize = 0;
    while i < tree.nodes.len()
        invariant
            i <= tree.nodes@.len(),
            keys@.len() == i,
            forall|j: int| 0 <= j < i ==> (#[trigger] keys@[j])@ == tree.nodes@[j].path@,
        decreases tree.nodes@.len() - i,
    {
        keys.push(chars_of(tree.nodes[i].path.as_str()));
        i = i + 1;
    }
    keys
}

fn outranks_exec(tree: &WeightedTree, keys: &Vec<Vec<char>>, a: usize, b: usize) -> (r: bool)
    requires
        a < tree.nodes@.len(),
        b < tree.nodes@.len(),
        keys@.len() == tree.nodes@.len(),
        forall|i: int| 0 <= i < keys@.len() ==> (#[trigger] keys@[i])@ == tree.nodes@[i].path@,
    ensures
        r == outranks(*tree, a as int, b as int),
{
    let na = &tree.nodes[a];
    let nb = &tree.nodes[b];
    proof {
        lemma_lex_total(na.path@, nb.path@);
        assert(keys@[a as int]@ == na.path@ && keys@[b as int]@ == nb.path@);
    }
    if na.tokens != nb.tokens {
        na.tokens > nb.tokens
    } else if na.depth != nb.depth {
        na.depth < nb.depth
    } else if lex_less(&keys[b], &keys[a]) {
        true
    } else if lex_less(&keys[a], &keys[b]) {
        false
    } else {
        a < b
    }
}

fn eligible_exec(tree: &WeightedTree, min_tokens: u128, i: usize) -> (r: bool)
    requires
        i < tree.nodes@.len(),
    ensures
        r == eligible(*tree, min_tokens as int, i as int),
{
    let node = &tree.nodes[i];
    let is_dir = match node.metadata {
        Some(m) => m.is_dir,
        None => false,
    };
    (node.tokens as u128) >= min_tokens || is_dir
}

proof fn lemma_push_contains(s: Seq<usize>, c: usize)
    ensures
        forall|x: usize| #[trigger] s.push(c).contains(x) <==> (s.contains(x) || x == c),
{
    assert forall|x: usize| #[trigger] s.push(c).contains(x) <==> (s.contains(x) || x == c) by {
        if s.push(c).contains(x) {
            let k = choose|k: int| 0 <= k < s.push(c).len() && s.push(c)[k] == x;
            if k < s.len() {
                assert(s[k] == x);
            }
        }
        if s.contains(x) {
            let k = choose|k: int| 0 <= k < s.len() && s[k] == x;
            assert(s.push(c)[k] == x);
        }
        if x == c {
            assert(s.push(c)[s.len() as int] == c);
        }
    }
}

proof fn lemma_push_no_dup(s: Seq<usize>, c: usize)
    requires
        s.no_duplicates(),
        !s.contains(c),
    ensures
        s.push(c).no_duplicates(),
{
    let t = s.push(c);
    assert forall|x: int, y: int| 0 <= x < t.len() && 0 <= y < t.len() && x != y implies t[x] != t[y] by {
        if x < s.len() && y < s.len() {
            assert(t[x] == s[x] && t[y] == s[y]);
        } else if x < s.len() {
            assert(t[x] == s[x]);
        } else {
            assert(t[y] == s[y]);
        }
    }
}

proof fn lemma_remove_contains(s: Seq<usize>, b: int)
    requires
        s.no_duplicates(),
        0 <= b < s.len(),
    ensures
        s.remove(b).no_duplicates(),
        forall|x: usize| #[trigger] s.remove(b).contains(x) <==> (s.contains(x) && x != s[b]),
{
    let r = s.remove(b);
    assert forall|x: int, y: int| 0 <= x < r.len() && 0 <= y < r.len() && x != y implies r[x] != r[y] by {
        let xo = if x < b { x } else { x + 1 };
        let yo = if y < b { y } else { y + 1 };
        assert(r[x] == s[xo] && r[y] == s[yo]);
    }
    assert forall|x: usize| #[trigger] r.contains(x) <==> (s.contains(x) && x != s[b]) by {
        if r.contains(x) {
            let z = choose|z: int| 0 <= z < r.len() && r[z] == x;
            let zo = if z < b { z } else { z + 1 };
            assert(s[zo] == x);
        }
        if s.contains(x) && x != s[b] {
            let z = choose|z: int| 0 <= z < s.len() && s[z] == x;
            if z < b {
                assert(r[z] == x);
            } else {
                assert(r[z - 1] == x);
            }
        }
    }
}

/// Admits nodes best-first: the children of the root are queued first; each
/// admitted node queues its own eligible children. At most
/// `max_lines - 1` nodes are admitted (none when `max_lines <= 1`). Files
/// below `min_percent_milli` thousandths of a percent of `total_tokens` are
/// never queued; directories always are.
pub fn select_nodes_to_display(tree: &WeightedTree, total_tokens: usize, max_lines: usize, min_percent_milli: u64)
    -> (sel: SelectionSet)
    requires
        tree.wf(),
    ensures
        is_greedy_selection(*tree, min_tokens_for(total_tokens as int, min_percent_milli as int), line_cap(max_lines as int), sel.order@),
        sel.depths@.len() == sel.order@.len(),
        forall|k: int| 0 <= k < sel.depths@.len() ==> #[trigger] sel.depths@[k] == tree.nodes@[sel.order@[k] as int].depth - 1,
        sel.admitted@.len() == tree.nodes@.len(),
        forall|i: int| 0 <= i < sel.admitted@.len() ==> #[trigger] sel.admitted@[i] == sel.order@.contains(i as usize),
{
    let ghost t = *tree;
    let n = tree.nodes.len();
    assert((total_tokens as int) * (min_percent_milli as int) <= 0xffff_ffff_ffff_ffffint * 0xffff_ffff_ffff_ffffint) by (nonlinear_arith)
        requires
            total_tokens <= 0xffff_ffff_ffff_ffffint,
            min_percent_milli <= 0xffff_ffff_ffff_ffffint,
    ;
    let prod: u128 = (total_tokens as u128) * (min_percent_milli as u128);
    let min_tokens: u128 = if total_tokens == 0 {
        0
    } else {
        (prod + 99_999) / 100_000
    };
    let ghost min = min_tokens as int;
    assert(min == min_tokens_for(total_tokens as int, min_percent_milli as int));
    let cap: usize = if max_lines >= 1 { max_lines - 1 } else { 0 };
    let keys = path_keys(tree);

    let mut admitted: Vec<bool> = Vec::new();
    let mut i: usize = 0;
    while i < n
        invariant
            n == tree.nodes@.len(),
            i <= n,
            admitted@.len() == i,
            forall|j: int| 0 <= j < i ==> !(#[trigger] admitted@[j]),
        decreases n - i,
    {
        admitted.push(false);
        i = i + 1;
    }

    let mut cands: Vec<usize> = Vec::new();
    let root_children = &tree.nodes[0].children;
    let mut r: usize = 0;
    while r < root_children.len()
        invariant
            tree.wf(),
            t == *tree,
            *root_children == tree.nodes@[0].children,
            r <= root_children@.len(),
            cands@.no_duplicates(),
            forall|j: int| 0 <= j < cands@.len() ==> 1 <= #[trigger] cands@[j] < n,
            n == tree.nodes@.len(),
            min == min_tokens as int,
            forall|x: usize| #[trigger] cands@.contains(x) <==> (
                root_children@.subrange(0, r as int).contains(x) && eligible(t, min, x as int)),
        decreases root_children@.len() - r,
    {
        let c = root_children[r];
        let ghost before = cands@;
        proof {
            assert(tree.child_ok(0, r as int));
            assert(root_children@.subrange(0, r as int + 1) =~= root_children@.subrange(0, r as int).push(c));
            lemma_push_contains(root_children@.subrange(0, r as int), c);
            assert(!root_children@.subrange(0, r as int).contains(c)) by {
                if root_children@.subrange(0, r as int).contains(c) {
                    let q = choose|q: int| 0 <= q < r && root_children@.subrange(0, r as int)[q] == c;
                    assert(root_children@[q] == root_children@[r as int]);
                }
            }
        }
        if eligible_exec(tree, min_tokens, c) {
            cands.push(c);
            proof {
                lemma_push_contains(before, c);
                lemma_push_no_dup(before, c);
            }
        }
        r = r + 1;
    }
    proof {
        assert(root_children@.subrange(0, r as int) =~= root_children@);
        assert forall|x: usize| #[trigger] cands@.contains(x) <==> is_candidate(t, min, Seq::<usize>::empty(), x as int) by {
            if 1 <= x < n {
                lemma_child_iff_parent(t, 0, x);
            } else if cands@.contains(x) {
                let q = choose|q: int| 0 <= q < tree.nodes@[0].children@.len() && tree.nodes@[0].children@[q] == x;
                assert(tree.child_ok(0, q));
            }
        }
    }

    let mut order: Vec<usize> = Vec::new();
    let mut depths: Vec<usize> = Vec::new();
    while order.len() < cap && cands.len() > 0
        invariant
            tree.wf(),
            t == *tree,
            n == tree.nodes@.len(),
            min == min_tokens_for(total_tokens as int, min_percent_milli as int),
            min == min_tokens as int,
            cap as int == line_cap(max_lines as int),
            keys@.len() == n,
            forall|q: int| 0 <= q < keys@.len() ==> (#[trigger] keys@[q])@ == tree.nodes@[q].path@,
            order@.len() <= cap,
            forall|k: int| 0 <= k < order@.len() ==> #[trigger] greedy_step(t, min, order@, k),
            cands@.no_duplicates(),
            forall|j: int| 0 <= j < cands@.len() ==> 1 <= #[trigger] cands@[j] < n,
            forall|x: usize| #[trigger] cands@.contains(x) <==> is_candidate(t, min, order@, x as int),
            admitted@.len() == n,
            forall|q: int| 0 <= q < n ==> #[trigger] admitted@[q] == order@.contains(q as usize),
            depths@.len() == order@.len(),
            forall|k: int| 0 <= k < depths@.len() ==> #[trigger] depths@[k] == tree.nodes@[order@[k] as int].depth - 1,
        decreases cap - order@.len(),
    {
        let mut b: usize = 0;
        let mut q: usize = 1;
        while q < cands.len()
            invariant
                t == *tree,
                n == tree.nodes@.len(),
                keys@.len() == n,
                forall|z: int| 0 <= z < keys@.len() ==> (#[trigger] keys@[z])@ == tree.nodes@[z].path@,
                cands@.no_duplicates(),
                forall|j: int| 0 <= j < cands@.len() ==> 1 <= #[trigger] cands@[j] < n,
                cands@.len() > 0,
                b < q <= cands@.len(),
                forall|z: int| 0 <= z < q && z != b ==> #[trigger] outranks(t, cands@[b as int] as int, cands@[z] as int),
            decreases cands@.len() - q,
        {
            let better = outranks_exec(tree, &keys, cands[q], cands[b]);
            let ghost bo = b;
            if better {
                b = q;
            }
            proof {
                let cq = cands@[q as int] as int;
                let cbo = cands@[bo as int] as int;
                assert(cq != cbo);
                assert forall|z: int| 0 <= z < q + 1 && z != b implies #[trigger] outranks(t, cands@[b as int] as int, cands@[z] as int) by {
                    if better {
                        if z != bo {
                            assert(z < q);
                            assert(outranks(t, cbo, cands@[z] as int));
                            lemma_outranks_order(t, cq, cbo, cands@[z] as int);
                        }
                    } else if z == q {
                        lemma_outranks_order(t, cbo, cq, cq);
                    }
                }
            }
            q = q + 1;
        }
        let best = cands[b];
        let ghost old_order = order@;
        let ghost old_cands = cands@;
        proof {
            assert(old_cands.contains(best));
            assert(is_candidate(t, min, old_order, best as int));
            assert(t.node_ok(best as int));
            assert forall|j: int| is_candidate(t, min, old_order, j) && j != best as int
                implies #[trigger] outranks(t, best as int, j) by {
                assert(cands@.contains(j as usize));
                let z = choose|z: int| 0 <= z < cands@.len() && cands@[z] == j as usize;
                assert(z != b);
            }
        }
        cands.remove(b);
        order.push(best);
        admitted.set(best, true);
        depths.push(tree.nodes[best].depth - 1);
        let ghost base = cands@;
        proof {
            lemma_remove_contains(old_cands, b as int);
            lemma_push_contains(old_order, best);
            assert(order@.subrange(0, old_order.len() as int) =~= old_order);
            assert forall|k: int| 0 <= k < order@.len() implies #[trigger] greedy_step(t, min, order@, k) by {
                if k < old_order.len() {
                    assert(order@.subrange(0, k) =~= old_order.subrange(0, k));
                    assert(greedy_step(t, min, old_order, k));
                }
            }
            assert forall|q2: int| 0 <= q2 < n implies #[trigger] admitted@[q2] == order@.contains(q2 as usize) by {
            }
            assert forall|j: int| 0 <= j < base.len() implies tree.nodes@[#[trigger] base[j] as int].parent != best by {
                assert(base.contains(base[j]));
                assert(is_candidate(t, min, old_order, base[j] as int));
            }
        }
        let ch = &tree.nodes[best].children;
        let mut r: usize = 0;
        while r < ch.len()
            invariant
                tree.wf(),
                t == *tree,
                n == tree.nodes@.len(),
                1 <= best < n,
                *ch == tree.nodes@[best as int].children,
                r <= ch@.len(),
                min == min_tokens as int,
                forall|j: int| 0 <= j < base.len() ==> tree.nodes@[#[trigger] base[j] as int].parent != best,
                cands@.no_duplicates(),
                forall|j: int| 0 <= j < cands@.len() ==> 1 <= #[trigger] cands@[j] < n,
                forall|x: usize| #[trigger] cands@.contains(x) <==> (
                    base.contains(x) || (ch@.subrange(0, r as int).contains(x) && eligible(t, min, x as int))),
            decreases ch@.len() - r,
        {
            let c = ch[r];
            let ghost before = cands@;
            proof {
                assert(tree.child_ok(best as int, r as int));
                assert(ch@.subrange(0, r as int + 1) =~= ch@.subrange(0, r as int).push(c));
                lemma_push_contains(ch@.subrange(0, r as int), c);
                assert(!ch@.subrange(0, r as int).contains(c)) by {
                    if ch@.subrange(0, r as int).contains(c) {
                        let z = choose|z: int| 0 <= z < r && ch@.subrange(0, r as int)[z] == c;
                        assert(ch@[z] == ch@[r as int]);
                    }
                }
                assert(!base.contains(c)) by {
                    if base.contains(c) {
                        let z = choose|z: int| 0 <= z < base.len() && base[z] == c;
                    }
                }
            }
            if eligible_exec(tree, min_tokens, c) {
                cands.push(c);
                proof {
                    lemma_push_contains(before, c);
                    lemma_push_no_dup(before, c);
                }
            }
            r = r + 1;
        }
        proof {
            assert(ch@.subrange(0, r as int) =~= ch@);
            assert forall|x: usize| #[trigger] cands@.contains(x) <==> is_candidate(t, min, order@, x as int) by {
                if 1 <= x < n {
                    lemma_child_iff_parent(t, best as int, x);
                    if tree.nodes@[x as int].parent == best {
                        if old_order.contains(x) {
                            let z = choose|z: int| 0 <= z < old_order.len() && old_order[z] == x;
                            assert(greedy_step(t, min, old_order, z));
                            assert(is_candidate(t, min, old_order.subrange(0, z), x as int));
                            assert(old_order.subrange(0, z).contains(best));
                            let w = choose|w: int| 0 <= w < z && old_order.subrange(0, z)[w] == best;
                            assert(old_order[w] == best);
                        }
                        assert(!old_cands.contains(x));
                    }
                } else if cands@.contains(x) {
                    let z = choose|z: int| 0 <= z < cands@.len() && cands@[z] == x;
                }
            }
        }
    }
    proof {
        if order@.len() < cap {
            assert(cands@.len() == 0);
            assert forall|j: int| !#[trigger] is_candidate(t, min, order@, j) by {
                if is_candidate(t, min, order@, j) {
                    assert(cands@.contains(j as usize));
                }
            }
        }
    }
    SelectionSet { order, depths, admitted }
}

} // verus!
