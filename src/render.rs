//! Flattening of the selected part of the tree into display rows, and the
//! whole token-map pipeline.

use vstd::prelude::*;
use crate::model::{EntryMetadata, ProcessedEntry, RowView, TokenMapEntry};
use crate::order::{lex_lt, lex_less, lemma_lex_total};
use crate::select::{select_nodes_to_display, outranks, is_candidate, greedy_step, lemma_selection_unique, is_greedy_selection, min_tokens_for, line_cap};
use crate::text::chars_of;
use crate::tree::{WeightedTree, nodes_view, tree_view_of, is_prefix, entry_comps, is_inserted, token_sum, conflict_free, file_sum, child_sum, is_dir_node, is_file_node};

verus! {

/// Child `a` is shown before its sibling `b`: more tokens first; equal counts
/// keep name order (then index order, for two equal names, which a tree built
/// from entries never has).
pub open spec fn shown_before(t: WeightedTree, a: usize, b: usize) -> bool {
    let na = t.nodes@[a as int];
    let nb = t.nodes@[b as int];
    ||| na.tokens > nb.tokens
    ||| (na.tokens == nb.tokens && lex_lt(na.name@, nb.name@))
    ||| (na.tokens == nb.tokens && na.name@ == nb.name@ && a < b)
}

/// `s` with `x` inserted before the first element that `x` is shown before.
pub open spec fn insert_shown(t: WeightedTree, x: usize, s: Seq<usize>) -> Seq<usize>
    decreases s.len(),
{
    if s.len() == 0 {
        seq![x]
    } else if shown_before(t, x, s[0]) {
        seq![x] + s
    } else {
        seq![s[0]] + insert_shown(t, x, s.drop_first())
    }
}

/// The selected nodes among `cs`, in display order.
pub open spec fn sorted_shown(t: WeightedTree, sel: Seq<bool>, cs: Seq<usize>) -> Seq<usize>
    decreases cs.len(),
{
    if cs.len() == 0 {
        Seq::<usize>::empty()
    } else {
        let p = sorted_shown(t, sel, cs.drop_last());
        if sel[cs.last() as int] {
            insert_shown(t, cs.last(), p)
        } else {
            p
        }
    }
}

/// The children of node `i` that get a row, in display order.
pub open spec fn display_children(t: WeightedTree, sel: Seq<bool>, i: usize) -> Seq<usize> {
    sorted_shown(t, sel, t.nodes@[i as int].children@)
}

/// The metadata a row shows for node `i`.
pub open spec fn row_metadata(t: WeightedTree, i: usize) -> EntryMetadata {
    match t.nodes@[i as int].metadata {
        Some(m) => m,
        None => EntryMetadata { is_dir: t.nodes@[i as int].children@.len() > 0, is_symlink: false },
    }
}

/// The row of node `i`.
pub open spec fn row_of(t: WeightedTree, i: usize, depth: nat, is_last: bool) -> RowView {
    RowView {
        path: t.nodes@[i as int].path@,
        name: t.nodes@[i as int].name@,
        tokens: t.nodes@[i as int].tokens as nat,
        depth,
        is_last,
        metadata: row_metadata(t, i),
    }
}

/// The rows of the subtree at node `i` (at row depth `depth`): the node's own
/// row if it is selected and not the root, then the rows of its displayed
/// children in display order. Unselected children are pruned with their
/// whole subtree.
pub open spec fn flatten(t: WeightedTree, sel: Seq<bool>, i: usize, depth: nat, is_last: bool) -> Seq<RowView>
    decreases t.nodes@.len() - depth, 1nat, 0nat,
{
    if depth >= t.nodes@.len() {
        Seq::<RowView>::empty()
    } else {
        let own = if i != 0 && sel[i as int] {
            seq![row_of(t, i, depth, is_last)]
        } else {
            Seq::<RowView>::empty()
        };
        own + flatten_list(t, sel, display_children(t, sel, i), 0, depth + 1)
    }
}

/// The rows of the subtrees at `cs[k..]`, each at row depth `depth`; the last
/// of `cs` is marked last among its siblings.
pub open spec fn flatten_list(t: WeightedTree, sel: Seq<bool>, cs: Seq<usize>, k: nat, depth: nat) -> Seq<RowView>
    decreases t.nodes@.len() + 1 - depth, 0nat, cs.len() - k,
{
    if depth > t.nodes@.len() || k >= cs.len() {
        Seq::<RowView>::empty()
    } else {
        flatten(t, sel, cs[k as int], depth, k == cs.len() - 1) + flatten_list(t, sel, cs, k + 1, depth)
    }
}

/// The views of a sequence of rows.
pub open spec fn rows_view(v: Seq<TokenMapEntry>) -> Seq<RowView> {
    v.map_values(|e: TokenMapEntry| e@)
}

proof fn lemma_insert_shown_at(t: WeightedTree, x: usize, s: Seq<usize>, p: int)
    requires
        0 <= p <= s.len(),
        forall|q: int| 0 <= q < p ==> !shown_before(t, x, #[trigger] s[q]),
        p < s.len() ==> shown_before(t, x, s[p]),
    ensures
        insert_shown(t, x, s) == s.insert(p, x),
    decreases s.len(),
{
    if s.len() == 0 {
        assert(s.insert(p, x) =~= seq![x]);
    } else if p == 0 {
        assert(s.insert(p, x) =~= seq![x] + s);
    } else {
        let r = s.drop_first();
        assert forall|q: int| 0 <= q < p - 1 implies !shown_before(t, x, #[trigger] r[q]) by {
            assert(r[q] == s[q + 1]);
        }
        if p < s.len() {
            assert(r[p - 1] == s[p]);
        }
        lemma_insert_shown_at(t, x, r, p - 1);
        assert(s.insert(p, x) =~= seq![s[0]] + r.insert(p - 1, x));
    }
}

fn shown_before_exec(tree: &WeightedTree, a: usize, b: usize) -> (r: bool)
    requires
        a < tree.nodes@.len(),
        b < tree.nodes@.len(),
    ensures
        r == shown_before(*tree, a, b),
{
    let na = &tree.nodes[a];
    let nb = &tree.nodes[b];
    if na.tokens != nb.tokens {
        na.tokens > nb.tokens
    } else {
        let ka = chars_of(na.name.as_str());
        let kb = chars_of(nb.name.as_str());
        proof {
            lemma_lex_total(na.name@, nb.name@);
        }
        if lex_less(&ka, &kb) {
            true
        } else if lex_less(&kb, &ka) {
            false
        } else {
            a < b
        }
    }
}

/// The selected children of node `i`, in display order.
fn displayed_children(tree: &WeightedTree, admitted: &Vec<bool>, i: usize) -> (r: Vec<usize>)
    requires
        tree.wf(),
        i < tree.nodes@.len(),
        admitted@.len() == tree.nodes@.len(),
    ensures
        r@ == display_children(*tree, admitted@, i),
        forall|k: int| 0 <= k < r@.len() ==> 1 <= #[trigger] r@[k] < tree.nodes@.len() && tree.nodes@[r@[k] as int].parent == i,
{
    let cs = &tree.nodes[i].children;
    let mut out: Vec<usize> = Vec::new();
    let mut k: usize = 0;
    while k < cs.len()
        invariant
            tree.wf(),
            i < tree.nodes@.len(),
            admitted@.len() == tree.nodes@.len(),
            *cs == tree.nodes@[i as int].children,
            k <= cs@.len(),
            out@ == sorted_shown(*tree, admitted@, cs@.subrange(0, k as int)),
            forall|q: int| 0 <= q < out@.len() ==> 1 <= #[trigger] out@[q] < tree.nodes@.len() && tree.nodes@[out@[q] as int].parent == i,
        decreases cs@.len() - k,
    {
        let c = cs[k];
        proof {
            assert(tree.child_ok(i as int, k as int));
            assert(cs@.subrange(0, k as int + 1).drop_last() =~= cs@.subrange(0, k as int));
            assert(cs@.subrange(0, k as int + 1).last() == c);
        }
        if admitted[c] {
            let mut p: usize = 0;
            while p < out.len() && !shown_before_exec(tree, c, out[p])
                invariant
                    c < tree.nodes@.len(),
                    p <= out@.len(),
                    forall|q: int| 0 <= q < out@.len() ==> 1 <= #[trigger] out@[q] < tree.nodes@.len(),
                    forall|q: int| 0 <= q < p ==> !shown_before(*tree, c, #[trigger] out@[q]),
                decreases out@.len() - p,
            {
                p = p + 1;
            }
            proof {
                lemma_insert_shown_at(*tree, c, out@, p as int);
            }
            let ghost before = out@;
            out.insert(p, c);
            proof {
                assert forall|q: int| 0 <= q < out@.len() implies 1 <= #[trigger] out@[q] < tree.nodes@.len() && tree.nodes@[out@[q] as int].parent == i by {
                    if q < p {
                        assert(out@[q] == before[q]);
                    } else if q > p {
                        assert(out@[q] == before[q - 1]);
                    }
                }
            }
        }
        k = k + 1;
    }
    assert(cs@.subrange(0, k as int) =~= cs@);
    out
}

/// Appends the rows of the subtree at node `i` (see `flatten`) to `entries`.
pub fn rebuild_filtered_tree(
    tree: &WeightedTree,
    i: usize,
    admitted: &Vec<bool>,
    entries: &mut Vec<TokenMapEntry>,
    depth: usize,
    is_last: bool,
)
    requires
        tree.wf(),
        i < tree.nodes@.len(),
        depth == tree.nodes@[i as int].depth,
        admitted@.len() == tree.nodes@.len(),
    ensures
        rows_view(final(entries)@) == rows_view(old(entries)@) + flatten(*tree, admitted@, i, depth as nat, is_last),
    decreases tree.nodes@.len() - depth,
{
    let ghost t = *tree;
    let ghost start = rows_view(entries@);
    proof {
        if i > 0 {
            assert(tree.node_ok(i as int));
        }
    }
    if i != 0 && admitted[i] {
        let node = &tree.nodes[i];
        let metadata = match node.metadata {
            Some(m) => m,
            None => EntryMetadata { is_dir: node.children.len() > 0, is_symlink: false },
        };
        entries.push(TokenMapEntry {
            path: node.path.clone(),
            name: node.name.clone(),
            tokens: node.tokens,
            depth,
            is_last,
            metadata,
        });
    }
    let ghost own = if i != 0 && admitted@[i as int] {
        seq![row_of(t, i, depth as nat, is_last)]
    } else {
        Seq::<RowView>::empty()
    };
    assert(rows_view(entries@) =~= start + own);
    let shown = displayed_children(tree, admitted, i);
    let ghost d1 = (depth + 1) as nat;
    let mut k: usize = 0;
    while k < shown.len()
        invariant
            tree.wf(),
            t == *tree,
            i < tree.nodes@.len(),
            depth == tree.nodes@[i as int].depth,
            depth < tree.nodes@.len(),
            d1 == depth + 1,
            admitted@.len() == tree.nodes@.len(),
            shown@ == display_children(t, admitted@, i),
            forall|q: int| 0 <= q < shown@.len() ==> 1 <= #[trigger] shown@[q] < tree.nodes@.len() && tree.nodes@[shown@[q] as int].parent == i,
            k <= shown@.len(),
            rows_view(entries@) + flatten_list(t, admitted@, shown@, k as nat, d1)
                == start + own + flatten_list(t, admitted@, shown@, 0, d1),
        decreases shown@.len() - k,
    {
        let c = shown[k];
        proof {
            assert(tree.node_ok(c as int));
        }
        let ghost before = rows_view(entries@);
        rebuild_filtered_tree(tree, c, admitted, entries, depth + 1, k + 1 == shown.len());
        proof {
            assert(flatten_list(t, admitted@, shown@, k as nat, d1)
                == flatten(t, admitted@, c, d1, k == shown@.len() - 1) + flatten_list(t, admitted@, shown@, (k + 1) as nat, d1));
            assert(rows_view(entries@) =~= before + flatten(t, admitted@, c, d1, k == shown@.len() - 1));
        }
        k = k + 1;
    }
    proof {
        assert(flatten_list(t, admitted@, shown@, k as nat, d1) =~= Seq::<RowView>::empty());
        assert(flatten(t, admitted@, i, depth as nat, is_last) == own + flatten_list(t, admitted@, shown@, 0, d1));
        assert(rows_view(entries@) =~= start + flatten(t, admitted@, i, depth as nat, is_last));
    }
}

/// The label of the row that stands for everything not shown.
pub const OTHER_FILES: &'static str = "(other files)";

/// The token total over the rows that stand for files (directories are
/// roll-ups and count 0).
pub open spec fn displayed_tokens(rows: Seq<RowView>) -> int
    decreases rows.len(),
{
    if rows.len() == 0 {
        0
    } else {
        displayed_tokens(rows.drop_last()) + if rows.last().metadata.is_dir { 0 } else { rows.last().tokens as int }
    }
}

/// What the file total leaves over the displayed rows (never below 0).
pub open spec fn hidden_tokens(file_total: int, rows: Seq<RowView>) -> int {
    if file_total > displayed_tokens(rows) {
        file_total - displayed_tokens(rows)
    } else {
        0
    }
}

/// The aggregate row for `hidden` tokens.
pub open spec fn other_files_row(hidden: nat) -> RowView {
    RowView {
        path: OTHER_FILES@,
        name: OTHER_FILES@,
        tokens: hidden,
        depth: 0,
        is_last: true,
        metadata: EntryMetadata { is_dir: false, is_symlink: false },
    }
}

/// Node `i` is admitted, as a mask over the tree's nodes.
pub open spec fn selection_mask(n: nat, order: Seq<usize>) -> Seq<bool> {
    Seq::new(n, |i: int| order.contains(i as usize))
}

/// The token map of tree `t` for the admission sequence `order`: the
/// flattened rows, then the aggregate row when something is hidden and the
/// total is not 0.
pub open spec fn token_map_rows(t: WeightedTree, order: Seq<usize>) -> Seq<RowView> {
    let body = flatten(t, selection_mask(t.nodes@.len() as nat, order), 0, 0, true);
    let hidden = hidden_tokens(file_sum(t.nodes@), body);
    if hidden > 0 && t.total() > 0 {
        body.push(other_files_row(hidden as nat))
    } else {
        body
    }
}

/// The token map of `tree`, whose total is what its root holds: admits
/// nodes best-first under `max_lines` and `min_percent_milli` (thousandths of
/// a percent), flattens them, and closes with an "(other files)" row for the
/// file tokens not shown.
pub fn token_map_for_tree(tree: &WeightedTree, max_lines: usize, min_percent_milli: u64) -> (rows: Vec<TokenMapEntry>)
    requires
        tree.wf(),
        file_sum(tree.nodes@) <= usize::MAX,
    ensures
        exists|order: Seq<usize>| {
            &&& is_greedy_selection(*tree, min_tokens_for(tree.total(), min_percent_milli as int), line_cap(max_lines as int), order)
            &&& rows_view(rows@) == token_map_rows(*tree, order)
            &&& ({
                let body = flatten(*tree, selection_mask(tree.nodes@.len() as nat, order), 0, 0, true);
                displayed_tokens(body) + hidden_tokens(file_sum(tree.nodes@), body) == file_sum(tree.nodes@)
            })
        },
{
    let total = tree.nodes[0].tokens;
    let sel = select_nodes_to_display(tree, total, max_lines, min_percent_milli);
    let mut rows: Vec<TokenMapEntry> = Vec::new();
    rebuild_filtered_tree(tree, 0, &sel.admitted, &mut rows, 0, true);
    let ghost body = rows_view(rows@);
    proof {
        assert(rows_view(rows@) =~= flatten(*tree, sel.admitted@, 0, 0, true));
        assert(sel.admitted@ =~= selection_mask(tree.nodes@.len() as nat, sel.order@));
    }
    let mut displayed: u128 = 0;
    let mut k: usize = 0;
    while k < rows.len()
        invariant
            k <= rows@.len(),
            body == rows_view(rows@),
            displayed as int == displayed_tokens(body.subrange(0, k as int)),
            displayed <= k * 0xffff_ffff_ffff_ffffu128,
        decreases rows@.len() - k,
    {
        proof {
            assert(body.subrange(0, k as int + 1).drop_last() =~= body.subrange(0, k as int));
            assert(body[k as int] == rows@[k as int]@);
        }
        if !rows[k].metadata.is_dir {
            displayed = displayed + rows[k].tokens as u128;
        }
        k = k + 1;
    }
    proof {
        assert(body.subrange(0, k as int) =~= body);
    }
    let file_total = tree.calculate_file_tokens();
    let hidden: usize = if (file_total as u128) > displayed {
        (file_total as u128 - displayed) as usize
    } else {
        0
    };
    if hidden > 0 && total > 0 {
        let path = OTHER_FILES.to_owned();
        let name = OTHER_FILES.to_owned();
        rows.push(TokenMapEntry {
            path,
            name,
            tokens: hidden,
            depth: 0,
            is_last: true,
            metadata: EntryMetadata { is_dir: false, is_symlink: false },
        });
        proof {
            assert(rows_view(rows@) =~= body.push(other_files_row(hidden as nat)));
        }
    }
    proof {
        assert(tree.nodes@.len() <= usize::MAX) by {
            assert(tree.nodes.len() == tree.nodes@.len());
        }
        lemma_completeness(*tree, sel.order@);
        assert(body == flatten(*tree, selection_mask(tree.nodes@.len() as nat, sel.order@), 0, 0, true));
        assert(hidden as int == hidden_tokens(file_sum(tree.nodes@), body));
        assert(rows_view(rows@) == token_map_rows(*tree, sel.order@));
    }
    rows
}

/// The token map of `entries`: builds the weighted tree, then the map of that
/// tree (see `token_map_for_tree`). `max_lines` defaults to 20 and
/// `min_percent_milli` to 100 (that is, 0.1%). The tree is the one that
/// `tree_view_of` describes, so the rows are a function of the arguments
/// (see `lemma_same_entries_same_map`).
#[verifier::rlimit(50)]
pub fn generate_token_map_with_limit(
    entries: &Vec<ProcessedEntry>,
    max_lines: Option<usize>,
    min_percent_milli: Option<u64>,
) -> (rows: Vec<TokenMapEntry>)
    requires
        token_sum(entries@) <= usize::MAX,
    ensures
        exists|t: WeightedTree, order: Seq<usize>| {
            &&& t.wf()
            &&& nodes_view(t.nodes@) == tree_view_of(entries@)
            &&& t.total() == child_sum(t.nodes@, t.nodes@[0].children@)
            &&& t.total() <= token_sum(entries@)
            &&& file_sum(t.nodes@) <= token_sum(entries@)
            &&& (conflict_free(entries@) ==> t.aggregated() && t.total() == token_sum(entries@)
                && file_sum(t.nodes@) == token_sum(entries@))
            &&& forall|x: int| #![trigger t.comps@[x]] 1 <= x < t.nodes@.len() ==> exists|e: int| 0 <= e < entries@.len()
                && is_inserted(#[trigger] entries@[e]) && is_prefix(t.comps@[x], entry_comps(entries@[e]))
                && (is_file_node(t.nodes@[x]) ==> t.comps@[x] == entry_comps(entries@[e]))
            &&& (conflict_free(entries@) ==> forall|e: int| 0 <= e < entries@.len() && is_inserted(#[trigger] entries@[e])
                ==> exists|x: int| 1 <= x < t.nodes@.len() && #[trigger] t.comps@[x] == entry_comps(entries@[e])
                    && is_file_node(t.nodes@[x]) && t.nodes@[x].tokens == entries@[e].token_count->0)
            &&& is_greedy_selection(
                t,
                min_tokens_for(t.total(), match min_percent_milli { Some(m) => m as int, None => 100 }),
                line_cap(match max_lines { Some(m) => m as int, None => 20 }),
                order,
            )
            &&& rows_view(rows@) == token_map_rows(t, order)
            &&& ({
                let body = flatten(t, selection_mask(t.nodes@.len() as nat, order), 0, 0, true);
                displayed_tokens(body) + hidden_tokens(file_sum(t.nodes@), body) == file_sum(t.nodes@)
            })
        },
        conflict_free(entries@) ==> forall|k: int| 0 <= k < rows@.len() ==> #[trigger] rows@[k].tokens <= token_sum(entries@),
{
    let max_lines = match max_lines {
        Some(m) => m,
        None => 20,
    };
    let min_percent_milli = match min_percent_milli {
        Some(m) => m,
        None => 100,
    };
    let tree = WeightedTree::from_entries(entries);
    let rows = token_map_for_tree(&tree, max_lines, min_percent_milli);
    proof {
        let order = choose|order: Seq<usize>| {
            &&& is_greedy_selection(tree, min_tokens_for(tree.total(), min_percent_milli as int), line_cap(max_lines as int), order)
            &&& rows_view(rows@) == token_map_rows(tree, order)
            &&& ({
                let body = flatten(tree, selection_mask(tree.nodes@.len() as nat, order), 0, 0, true);
                displayed_tokens(body) + hidden_tokens(file_sum(tree.nodes@), body) == file_sum(tree.nodes@)
            })
        };
        if conflict_free(entries@) {
            lemma_rows_within_total(tree, order);
            assert forall|k: int| 0 <= k < rows@.len() implies #[trigger] rows@[k].tokens <= token_sum(entries@) by {
                assert(rows_view(rows@)[k] == rows@[k]@);
                assert(token_map_rows(tree, order)[k].tokens <= tree.total());
            }
        }
    }
    proof {
        let order = choose|order: Seq<usize>| {
            &&& is_greedy_selection(tree, min_tokens_for(tree.total(), min_percent_milli as int), line_cap(max_lines as int), order)
            &&& rows_view(rows@) == token_map_rows(tree, order)
            &&& ({
                let body = flatten(tree, selection_mask(tree.nodes@.len() as nat, order), 0, 0, true);
                displayed_tokens(body) + hidden_tokens(file_sum(tree.nodes@), body) == file_sum(tree.nodes@)
            })
        };
        assert({
            &&& tree.wf()
            &&& nodes_view(tree.nodes@) == tree_view_of(entries@)
            &&& tree.total() == child_sum(tree.nodes@, tree.nodes@[0].children@)
            &&& tree.total() <= token_sum(entries@)
            &&& file_sum(tree.nodes@) <= token_sum(entries@)
            &&& (conflict_free(entries@) ==> tree.aggregated() && tree.total() == token_sum(entries@)
                && file_sum(tree.nodes@) == token_sum(entries@))
            &&& forall|x: int| #![trigger tree.comps@[x]] 1 <= x < tree.nodes@.len() ==> exists|e: int| 0 <= e < entries@.len()
                && is_inserted(#[trigger] entries@[e]) && is_prefix(tree.comps@[x], entry_comps(entries@[e]))
                && (is_file_node(tree.nodes@[x]) ==> tree.comps@[x] == entry_comps(entries@[e]))
            &&& (conflict_free(entries@) ==> forall|e: int| 0 <= e < entries@.len() && is_inserted(#[trigger] entries@[e])
                ==> exists|x: int| 1 <= x < tree.nodes@.len() && #[trigger] tree.comps@[x] == entry_comps(entries@[e])
                    && is_file_node(tree.nodes@[x]) && tree.nodes@[x].tokens == entries@[e].token_count->0)
            &&& is_greedy_selection(
                tree,
                min_tokens_for(tree.total(), min_percent_milli as int),
                line_cap(max_lines as int),
                order,
            )
            &&& rows_view(rows@) == token_map_rows(tree, order)
            &&& ({
                let body = flatten(tree, selection_mask(tree.nodes@.len() as nat, order), 0, 0, true);
                displayed_tokens(body) + hidden_tokens(file_sum(tree.nodes@), body) == file_sum(tree.nodes@)
            })
        });
    }
    rows
}

/// Selecting and rendering twice on the same tree, with the same line budget
/// and threshold, yields the same rows, ties in token counts included.
pub proof fn lemma_token_map_deterministic(
    t: WeightedTree,
    max_lines: int,
    min_percent_milli: int,
    order1: Seq<usize>,
    order2: Seq<usize>,
)
    requires
        is_greedy_selection(t, min_tokens_for(t.total(), min_percent_milli), line_cap(max_lines), order1),
        is_greedy_selection(t, min_tokens_for(t.total(), min_percent_milli), line_cap(max_lines), order2),
    ensures
        order1 == order2,
        token_map_rows(t, order1) == token_map_rows(t, order2),
{
    crate::select::lemma_selection_unique(t, min_tokens_for(t.total(), min_percent_milli), line_cap(max_lines), order1, order2);
}

proof fn lemma_child_sum_cons(nodes: Seq<crate::tree::TreeNode>, a: usize, s: Seq<usize>)
    ensures
        child_sum(nodes, seq![a] + s) == nodes[a as int].tokens + child_sum(nodes, s),
    decreases s.len(),
{
    let u = seq![a] + s;
    if s.len() == 0 {
        assert(u.drop_last() =~= Seq::<usize>::empty());
        assert(u.last() == a);
        assert(child_sum(nodes, u.drop_last()) == 0);
    } else {
        assert(u.drop_last() =~= seq![a] + s.drop_last());
        assert(u.last() == s.last());
        lemma_child_sum_cons(nodes, a, s.drop_last());
    }
}

proof fn lemma_child_sum_nonneg(nodes: Seq<crate::tree::TreeNode>, s: Seq<usize>)
    ensures
        child_sum(nodes, s) >= 0,
    decreases s.len(),
{
    if s.len() > 0 {
        lemma_child_sum_nonneg(nodes, s.drop_last());
    }
}

proof fn lemma_insert_shown_sum(t: WeightedTree, x: usize, s: Seq<usize>)
    ensures
        child_sum(t.nodes@, insert_shown(t, x, s)) == t.nodes@[x as int].tokens + child_sum(t.nodes@, s),
        forall|y: usize| #[trigger] insert_shown(t, x, s).contains(y) ==> s.contains(y) || y == x,
    decreases s.len(),
{
    if s.len() == 0 {
        lemma_child_sum_cons(t.nodes@, x, s);
        assert(seq![x] + s =~= seq![x]);
    } else if shown_before(t, x, s[0]) {
        lemma_child_sum_cons(t.nodes@, x, s);
        assert forall|y: usize| #[trigger] insert_shown(t, x, s).contains(y) implies s.contains(y) || y == x by {
            let k = choose|k: int| 0 <= k < (seq![x] + s).len() && (seq![x] + s)[k] == y;
            if k > 0 {
                assert(s[k - 1] == y);
            }
        }
    } else {
        let r = s.drop_first();
        lemma_insert_shown_sum(t, x, r);
        lemma_child_sum_cons(t.nodes@, s[0], insert_shown(t, x, r));
        lemma_child_sum_cons(t.nodes@, s[0], r);
        assert(seq![s[0]] + r =~= s);
        assert forall|y: usize| #[trigger] insert_shown(t, x, s).contains(y) implies s.contains(y) || y == x by {
            let u = seq![s[0]] + insert_shown(t, x, r);
            let k = choose|k: int| 0 <= k < u.len() && u[k] == y;
            if k == 0 {
                assert(s[0] == y);
            } else {
                assert(insert_shown(t, x, r)[k - 1] == y);
                assert(insert_shown(t, x, r).contains(y));
                if r.contains(y) {
                    let q = choose|q: int| 0 <= q < r.len() && r[q] == y;
                    assert(s[q + 1] == y);
                }
            }
        }
    }
}

proof fn lemma_sorted_shown_sum(t: WeightedTree, sel: Seq<bool>, cs: Seq<usize>)
    ensures
        child_sum(t.nodes@, sorted_shown(t, sel, cs)) <= child_sum(t.nodes@, cs),
        forall|y: usize| #[trigger] sorted_shown(t, sel, cs).contains(y) ==> cs.contains(y),
    decreases cs.len(),
{
    if cs.len() > 0 {
        let init = cs.drop_last();
        lemma_sorted_shown_sum(t, sel, init);
        let p = sorted_shown(t, sel, init);
        if sel[cs.last() as int] {
            lemma_insert_shown_sum(t, cs.last(), p);
        }
        assert forall|y: usize| #[trigger] sorted_shown(t, sel, cs).contains(y) implies cs.contains(y) by {
            if p.contains(y) {
                assert(init.contains(y));
                let q = choose|q: int| 0 <= q < init.len() && init[q] == y;
                assert(cs[q] == y);
            } else {
                assert(cs[cs.len() - 1] == y);
            }
        }
    }
}

proof fn lemma_displayed_concat(a: Seq<RowView>, b: Seq<RowView>)
    ensures
        displayed_tokens(a + b) == displayed_tokens(a) + displayed_tokens(b),
    decreases b.len(),
{
    if b.len() == 0 {
        assert(a + b =~= a);
    } else {
        assert((a + b).drop_last() =~= a + b.drop_last());
        lemma_displayed_concat(a, b.drop_last());
    }
}

proof fn lemma_displayed_nonneg(a: Seq<RowView>)
    ensures
        displayed_tokens(a) >= 0,
    decreases a.len(),
{
    if a.len() > 0 {
        lemma_displayed_nonneg(a.drop_last());
    }
}

/// The rows a tree gets when every directory holds the sum of its
/// children: the file rows under a node never add up to more than the node
/// holds, and no row holds more than the node it hangs under.
proof fn lemma_flatten_bounds(t: WeightedTree, sel: Seq<bool>, i: usize, depth: nat, is_last: bool)
    requires
        t.wf(),
        t.aggregated(),
        i < t.nodes@.len(),
    ensures
        displayed_tokens(flatten(t, sel, i, depth, is_last)) <= if i == 0 {
            child_sum(t.nodes@, t.nodes@[0].children@)
        } else {
            t.nodes@[i as int].tokens as int
        },
        forall|k: int| 0 <= k < flatten(t, sel, i, depth, is_last).len() ==>
            (#[trigger] flatten(t, sel, i, depth, is_last)[k]).tokens <= if i == 0 {
                child_sum(t.nodes@, t.nodes@[0].children@)
            } else {
                t.nodes@[i as int].tokens as int
            },
    decreases t.nodes@.len() - depth, 1nat, 0nat,
{
    let rows = flatten(t, sel, i, depth, is_last);
    let bound = if i == 0 { child_sum(t.nodes@, t.nodes@[0].children@) } else { t.nodes@[i as int].tokens as int };
    lemma_child_sum_nonneg(t.nodes@, t.nodes@[i as int].children@);
    if depth < t.nodes@.len() {
        let cs = t.nodes@[i as int].children@;
        let dc = display_children(t, sel, i);
        lemma_sorted_shown_sum(t, sel, cs);
        assert forall|q: int| 0 <= q < dc.len() implies 1 <= #[trigger] dc[q] < t.nodes@.len() by {
            assert(dc.contains(dc[q]));
            assert(cs.contains(dc[q]));
            let k = choose|k: int| 0 <= k < cs.len() && cs[k] == dc[q];
            assert(t.child_ok(i as int, k));
        }
        lemma_flatten_list_bounds(t, sel, dc, 0, depth + 1);
        assert(dc.skip(0) =~= dc);
        let own = if i != 0 && sel[i as int] {
            seq![row_of(t, i, depth, is_last)]
        } else {
            Seq::<RowView>::empty()
        };
        let tail = flatten_list(t, sel, dc, 0, depth + 1);
        lemma_displayed_concat(own, tail);
        lemma_displayed_nonneg(tail);
        if i != 0 {
            assert(t.agg_ok(i as int));
            assert(t.node_ok(i as int));
            if is_dir_node(t.nodes@[i as int]) {
                assert(displayed_tokens(own) == 0) by {
                    if own.len() > 0 {
                        assert(own.drop_last() =~= Seq::<RowView>::empty());
                        assert(own.last() == row_of(t, i, depth, is_last));
                        assert(row_metadata(t, i).is_dir);
                        assert(displayed_tokens(own.drop_last()) == 0);
                    }
                }
            } else {
                assert(cs.len() == 0);
                assert(dc.len() == 0) by {
                    if dc.len() > 0 {
                        assert(dc.contains(dc[0]));
                    }
                }
                assert(displayed_tokens(own) <= t.nodes@[i as int].tokens) by {
                    if own.len() > 0 {
                        assert(own.drop_last() =~= Seq::<RowView>::empty());
                        assert(own.last() == row_of(t, i, depth, is_last));
                        assert(displayed_tokens(own.drop_last()) == 0);
                    }
                }
            }
        }
        assert forall|k: int| 0 <= k < rows.len() implies (#[trigger] rows[k]).tokens <= bound by {
            if k < own.len() {
                assert(rows[k] == own[k]);
            } else {
                assert(rows[k] == tail[k - own.len()]);
                assert(t.nodes@[i as int].tokens as int <= bound || i == 0);
                if i != 0 {
                    if is_file_node(t.nodes@[i as int]) {
                        assert(dc.len() == 0) by {
                            if dc.len() > 0 {
                                assert(dc.contains(dc[0]));
                            }
                        }
                    }
                }
            }
        }
    }
}

/// The file rows of the subtrees at `cs[k..]` add up to at most what those
/// nodes hold, and no row holds more than all of them together.
proof fn lemma_flatten_list_bounds(t: WeightedTree, sel: Seq<bool>, cs: Seq<usize>, k: nat, depth: nat)
    requires
        t.wf(),
        t.aggregated(),
        forall|q: int| 0 <= q < cs.len() ==> 1 <= #[trigger] cs[q] < t.nodes@.len(),
    ensures
        displayed_tokens(flatten_list(t, sel, cs, k, depth)) <= child_sum(t.nodes@, cs.skip(k as int)),
        forall|r: int| 0 <= r < flatten_list(t, sel, cs, k, depth).len() ==>
            (#[trigger] flatten_list(t, sel, cs, k, depth)[r]).tokens <= child_sum(t.nodes@, cs.skip(k as int)),
    decreases t.nodes@.len() + 1 - depth, 0nat, cs.len() - k,
{
    lemma_child_sum_nonneg(t.nodes@, cs.skip(k as int));
    if !(depth > t.nodes@.len() || k >= cs.len()) {
        let c = cs[k as int];
        lemma_flatten_bounds(t, sel, c, depth, k == cs.len() - 1);
        lemma_flatten_list_bounds(t, sel, cs, k + 1, depth);
        assert(cs.skip(k as int) =~= seq![c] + cs.skip(k as int + 1));
        lemma_child_sum_cons(t.nodes@, c, cs.skip(k as int + 1));
        lemma_child_sum_nonneg(t.nodes@, cs.skip(k as int + 1));
        let a = flatten(t, sel, c, depth, k == cs.len() - 1);
        let b = flatten_list(t, sel, cs, k + 1, depth);
        lemma_displayed_concat(a, b);
        assert forall|r: int| 0 <= r < (a + b).len() implies (#[trigger] (a + b)[r]).tokens <= child_sum(t.nodes@, cs.skip(k as int)) by {
            if r < a.len() {
                assert((a + b)[r] == a[r]);
            } else {
                assert((a + b)[r] == b[r - a.len()]);
            }
        }
    }
}

/// Percentage bounds: when every directory holds the sum of its children and
/// the file tokens add up to the total, no row of the map holds more tokens
/// than the total, so every row's share lies between 0 and 100 percent.
pub proof fn lemma_rows_within_total(t: WeightedTree, order: Seq<usize>)
    requires
        t.wf(),
        t.aggregated(),
        t.total() == child_sum(t.nodes@, t.nodes@[0].children@),
        file_sum(t.nodes@) == t.total(),
    ensures
        forall|k: int| 0 <= k < token_map_rows(t, order).len() ==> #[trigger] token_map_rows(t, order)[k].tokens <= t.total(),
{
    let sel = selection_mask(t.nodes@.len() as nat, order);
    let body = flatten(t, sel, 0, 0, true);
    lemma_flatten_bounds(t, sel, 0, 0, true);
    lemma_displayed_nonneg(body);
    let rows = token_map_rows(t, order);
    assert forall|k: int| 0 <= k < rows.len() implies #[trigger] rows[k].tokens <= t.total() by {
        if k < body.len() {
            assert(rows[k] == body[k]);
        }
    }
}

/// The nodes whose rows `flatten` lists, in the same order.
pub open spec fn flatten_nodes(t: WeightedTree, sel: Seq<bool>, i: usize, depth: nat) -> Seq<usize>
    decreases t.nodes@.len() - depth, 1nat, 0nat,
{
    if depth >= t.nodes@.len() {
        Seq::<usize>::empty()
    } else {
        let own = if i != 0 && sel[i as int] { seq![i] } else { Seq::<usize>::empty() };
        own + flatten_list_nodes(t, sel, display_children(t, sel, i), 0, depth + 1)
    }
}

/// The nodes whose rows `flatten_list` lists, in the same order.
pub open spec fn flatten_list_nodes(t: WeightedTree, sel: Seq<bool>, cs: Seq<usize>, k: nat, depth: nat) -> Seq<usize>
    decreases t.nodes@.len() + 1 - depth, 0nat, cs.len() - k,
{
    if depth > t.nodes@.len() || k >= cs.len() {
        Seq::<usize>::empty()
    } else {
        flatten_nodes(t, sel, cs[k as int], depth) + flatten_list_nodes(t, sel, cs, k + 1, depth)
    }
}

/// The file tokens of the nodes at indices `ns`.
pub open spec fn nodes_file_sum(nodes: Seq<crate::tree::TreeNode>, ns: Seq<usize>) -> int
    decreases ns.len(),
{
    if ns.len() == 0 {
        0
    } else {
        nodes_file_sum(nodes, ns.drop_last()) + crate::tree::file_value(nodes[ns.last() as int])
    }
}

proof fn lemma_nodes_file_sum_concat(nodes: Seq<crate::tree::TreeNode>, a: Seq<usize>, b: Seq<usize>)
    ensures
        nodes_file_sum(nodes, a + b) == nodes_file_sum(nodes, a) + nodes_file_sum(nodes, b),
    decreases b.len(),
{
    if b.len() == 0 {
        assert(a + b =~= a);
    } else {
        assert((a + b).drop_last() =~= a + b.drop_last());
        lemma_nodes_file_sum_concat(nodes, a, b.drop_last());
    }
}

proof fn lemma_nodes_file_sum_remove(nodes: Seq<crate::tree::TreeNode>, ns: Seq<usize>, p: int)
    requires
        0 <= p < ns.len(),
    ensures
        nodes_file_sum(nodes, ns) == nodes_file_sum(nodes, ns.remove(p)) + crate::tree::file_value(nodes[ns[p] as int]),
    decreases ns.len(),
{
    if p == ns.len() - 1 {
        assert(ns.remove(p) =~= ns.drop_last());
    } else {
        assert(ns.remove(p).drop_last() =~= ns.drop_last().remove(p));
        assert(ns.remove(p).last() == ns.last());
        lemma_nodes_file_sum_remove(nodes, ns.drop_last(), p);
    }
}

proof fn lemma_nodes_file_sum_agree(n1: Seq<crate::tree::TreeNode>, n2: Seq<crate::tree::TreeNode>, ns: Seq<usize>)
    requires
        forall|k: int| 0 <= k < ns.len() ==> n1[#[trigger] ns[k] as int] == n2[ns[k] as int],
    ensures
        nodes_file_sum(n1, ns) == nodes_file_sum(n2, ns),
    decreases ns.len(),
{
    if ns.len() > 0 {
        assert forall|k: int| 0 <= k < ns.drop_last().len() implies n1[#[trigger] ns.drop_last()[k] as int] == n2[ns.drop_last()[k] as int] by {
            assert(ns.drop_last()[k] == ns[k]);
        }
        lemma_nodes_file_sum_agree(n1, n2, ns.drop_last());
        assert(ns.last() == ns[ns.len() - 1]);
    }
}

/// Distinct node indices never account for more than all file nodes.
proof fn lemma_distinct_file_sum(nodes: Seq<crate::tree::TreeNode>, ns: Seq<usize>)
    requires
        ns.no_duplicates(),
        nodes.len() <= usize::MAX,
        forall|k: int| 0 <= k < ns.len() ==> #[trigger] ns[k] < nodes.len(),
    ensures
        nodes_file_sum(nodes, ns) <= file_sum(nodes),
    decreases nodes.len(),
{
    if nodes.len() == 0 {
        if ns.len() > 0 {
            assert(ns[0] < nodes.len());
        }
    } else {
        let m = (nodes.len() - 1) as usize;
        let init = nodes.drop_last();
        let rest = if ns.contains(m) {
            let p = choose|p: int| 0 <= p < ns.len() && ns[p] == m;
            lemma_nodes_file_sum_remove(nodes, ns, p);
            ns.remove(p)
        } else {
            ns
        };
        assert(nodes_file_sum(nodes, ns) <= nodes_file_sum(nodes, rest) + crate::tree::file_value(nodes.last())) by {
            if ns.contains(m) {
                let p = choose|p: int| 0 <= p < ns.len() && ns[p] == m;
                assert(nodes.last() == nodes[m as int]);
            } else {
                assert(crate::tree::file_value(nodes.last()) >= 0);
            }
        }
        assert(rest.no_duplicates() && forall|k: int| 0 <= k < rest.len() ==> #[trigger] rest[k] < init.len()) by {
            if ns.contains(m) {
                let p = choose|p: int| 0 <= p < ns.len() && ns[p] == m;
                assert forall|x: int, y: int| 0 <= x < rest.len() && 0 <= y < rest.len() && x != y implies rest[x] != rest[y] by {
                    let xo = if x < p { x } else { x + 1 };
                    let yo = if y < p { y } else { y + 1 };
                    assert(rest[x] == ns[xo] && rest[y] == ns[yo]);
                }
                assert forall|k: int| 0 <= k < rest.len() implies #[trigger] rest[k] < init.len() by {
                    let ko = if k < p { k } else { k + 1 };
                    assert(rest[k] == ns[ko]);
                    assert(ns[ko] != m);
                }
            } else {
                assert forall|k: int| 0 <= k < rest.len() implies #[trigger] rest[k] < init.len() by {
                    assert(rest[k] != m);
                }
            }
        }
        lemma_nodes_file_sum_agree(nodes, init, rest);
        lemma_distinct_file_sum(init, rest);
    }
}

/// The file rows of `flatten` add up to the file tokens of the nodes it
/// lists.
proof fn lemma_flatten_rows_nodes(t: WeightedTree, sel: Seq<bool>, i: usize, depth: nat, is_last: bool)
    requires
        t.wf(),
        i < t.nodes@.len(),
    ensures
        displayed_tokens(flatten(t, sel, i, depth, is_last)) == nodes_file_sum(t.nodes@, flatten_nodes(t, sel, i, depth)),
    decreases t.nodes@.len() - depth, 1nat, 0nat,
{
    if depth < t.nodes@.len() {
        let cs = t.nodes@[i as int].children@;
        let dc = display_children(t, sel, i);
        lemma_sorted_shown_sum(t, sel, cs);
        assert forall|q: int| 0 <= q < dc.len() implies 1 <= #[trigger] dc[q] < t.nodes@.len() by {
            assert(dc.contains(dc[q]));
            assert(cs.contains(dc[q]));
            let k = choose|k: int| 0 <= k < cs.len() && cs[k] == dc[q];
            assert(t.child_ok(i as int, k));
        }
        lemma_flatten_list_rows_nodes(t, sel, dc, 0, depth + 1);
        let own = if i != 0 && sel[i as int] { seq![row_of(t, i, depth, is_last)] } else { Seq::<RowView>::empty() };
        let own_n = if i != 0 && sel[i as int] { seq![i] } else { Seq::<usize>::empty() };
        lemma_displayed_concat(own, flatten_list(t, sel, dc, 0, depth + 1));
        lemma_nodes_file_sum_concat(t.nodes@, own_n, flatten_list_nodes(t, sel, dc, 0, depth + 1));
        if i != 0 && sel[i as int] {
            assert(t.node_ok(i as int));
            assert(own.drop_last() =~= Seq::<RowView>::empty());
            assert(own_n.drop_last() =~= Seq::<usize>::empty());
            assert(displayed_tokens(own.drop_last()) == 0);
            assert(nodes_file_sum(t.nodes@, own_n.drop_last()) == 0);
            assert(own.last() == row_of(t, i, depth, is_last));
            assert(own_n.last() == i);
        }
    }
}

proof fn lemma_flatten_list_rows_nodes(t: WeightedTree, sel: Seq<bool>, cs: Seq<usize>, k: nat, depth: nat)
    requires
        t.wf(),
        forall|q: int| 0 <= q < cs.len() ==> 1 <= #[trigger] cs[q] < t.nodes@.len(),
    ensures
        displayed_tokens(flatten_list(t, sel, cs, k, depth)) == nodes_file_sum(t.nodes@, flatten_list_nodes(t, sel, cs, k, depth)),
    decreases t.nodes@.len() + 1 - depth, 0nat, cs.len() - k,
{
    if !(depth > t.nodes@.len() || k >= cs.len()) {
        let c = cs[k as int];
        lemma_flatten_rows_nodes(t, sel, c, depth, k == cs.len() - 1);
        lemma_flatten_list_rows_nodes(t, sel, cs, k + 1, depth);
        lemma_displayed_concat(flatten(t, sel, c, depth, k == cs.len() - 1), flatten_list(t, sel, cs, k + 1, depth));
        lemma_nodes_file_sum_concat(t.nodes@, flatten_nodes(t, sel, c, depth), flatten_list_nodes(t, sel, cs, k + 1, depth));
    }
}

/// The ancestor-or-self of node `j` at depth `d`.
pub open spec fn anc_at(t: WeightedTree, j: usize, d: nat) -> usize
    decreases t.nodes@[j as int].depth,
{
    if t.nodes@[j as int].depth <= d {
        j
    } else {
        let p = t.nodes@[j as int].parent;
        if t.nodes@[p as int].depth < t.nodes@[j as int].depth {
            anc_at(t, p, d)
        } else {
            j
        }
    }
}

/// Going up to depth `d` can pass through depth `d + 1`.
proof fn lemma_anc_step(t: WeightedTree, x: usize, d: nat)
    requires
        t.wf(),
        x < t.nodes@.len(),
        d + 1 <= t.nodes@[x as int].depth,
    ensures
        anc_at(t, x, d) == anc_at(t, anc_at(t, x, d + 1), d),
        anc_at(t, x, d + 1) < t.nodes@.len(),
        t.nodes@[anc_at(t, x, d + 1) as int].depth == d + 1,
    decreases t.nodes@[x as int].depth,
{
    if x != 0 {
        assert(t.node_ok(x as int));
    }
    if t.nodes@[x as int].depth > d + 1 {
        let p = t.nodes@[x as int].parent;
        assert(t.node_ok(x as int));
        lemma_anc_step(t, p, d);
    }
}

proof fn lemma_no_dup_concat(a: Seq<usize>, b: Seq<usize>)
    requires
        a.no_duplicates(),
        b.no_duplicates(),
        forall|x: usize| a.contains(x) ==> !b.contains(x),
    ensures
        (a + b).no_duplicates(),
        forall|x: usize| #[trigger] (a + b).contains(x) <==> a.contains(x) || b.contains(x),
{
    let u = a + b;
    assert forall|p: int, q: int| 0 <= p < u.len() && 0 <= q < u.len() && p != q implies u[p] != u[q] by {
        if p < a.len() && q >= a.len() {
            assert(a.contains(u[p]));
            assert(b.contains(u[q]));
            assert(u[q] == b[q - a.len()]);
        } else if p >= a.len() && q < a.len() {
            assert(a.contains(u[q]));
            assert(u[p] == b[p - a.len()]);
            assert(b.contains(u[p]));
        } else if p < a.len() {
            assert(u[p] == a[p] && u[q] == a[q]);
        } else {
            assert(u[p] == b[p - a.len()] && u[q] == b[q - a.len()]);
        }
    }
    assert forall|x: usize| #[trigger] u.contains(x) <==> a.contains(x) || b.contains(x) by {
        if u.contains(x) {
            let p = choose|p: int| 0 <= p < u.len() && u[p] == x;
            if p < a.len() {
                assert(a[p] == x);
            } else {
                assert(b[p - a.len()] == x);
            }
        }
        if a.contains(x) {
            let p = choose|p: int| 0 <= p < a.len() && a[p] == x;
            assert(u[p] == x);
        }
        if b.contains(x) {
            let p = choose|p: int| 0 <= p < b.len() && b[p] == x;
            assert(u[p + a.len()] == x);
        }
    }
}

proof fn lemma_insert_shown_no_dup(t: WeightedTree, x: usize, s: Seq<usize>)
    requires
        s.no_duplicates(),
        !s.contains(x),
    ensures
        insert_shown(t, x, s).no_duplicates(),
    decreases s.len(),
{
    if s.len() == 0 {
    } else if shown_before(t, x, s[0]) {
        lemma_no_dup_concat(seq![x], s);
        assert forall|y: usize| seq![x].contains(y) implies !s.contains(y) by {
            assert(seq![x][0] == x);
        }
        lemma_no_dup_concat(seq![x], s);
    } else {
        let r = s.drop_first();
        assert(r.no_duplicates()) by {
            assert forall|p: int, q: int| 0 <= p < r.len() && 0 <= q < r.len() && p != q implies r[p] != r[q] by {
                assert(r[p] == s[p + 1] && r[q] == s[q + 1]);
            }
        }
        assert(!r.contains(x)) by {
            if r.contains(x) {
                let p = choose|p: int| 0 <= p < r.len() && r[p] == x;
                assert(s[p + 1] == x);
            }
        }
        lemma_insert_shown_no_dup(t, x, r);
        lemma_insert_shown_sum(t, x, r);
        assert forall|y: usize| seq![s[0]].contains(y) implies !insert_shown(t, x, r).contains(y) by {
            assert(seq![s[0]][0] == s[0]);
            assert(y == s[0]);
            if insert_shown(t, x, r).contains(y) {
                if r.contains(y) {
                    let p = choose|p: int| 0 <= p < r.len() && r[p] == y;
                    assert(s[p + 1] == s[0]);
                } else {
                    assert(s.contains(x)) by {
                        assert(s[0] == x);
                    }
                }
            }
        }
        lemma_no_dup_concat(seq![s[0]], insert_shown(t, x, r));
    }
}

proof fn lemma_sorted_shown_no_dup(t: WeightedTree, sel: Seq<bool>, cs: Seq<usize>)
    requires
        cs.no_duplicates(),
    ensures
        sorted_shown(t, sel, cs).no_duplicates(),
    decreases cs.len(),
{
    if cs.len() > 0 {
        let init = cs.drop_last();
        assert(init.no_duplicates()) by {
            assert forall|p: int, q: int| 0 <= p < init.len() && 0 <= q < init.len() && p != q implies init[p] != init[q] by {
                assert(init[p] == cs[p] && init[q] == cs[q]);
            }
        }
        lemma_sorted_shown_no_dup(t, sel, init);
        lemma_sorted_shown_sum(t, sel, init);
        let p = sorted_shown(t, sel, init);
        if sel[cs.last() as int] {
            assert(!p.contains(cs.last())) by {
                if p.contains(cs.last()) {
                    assert(init.contains(cs.last()));
                    let q = choose|q: int| 0 <= q < init.len() && init[q] == cs.last();
                    assert(cs[q] == cs[cs.len() - 1]);
                }
            }
            lemma_insert_shown_no_dup(t, cs.last(), p);
        }
    }
}

/// The nodes `flatten` lists from node `i` are distinct, lie below `i`, and
/// have `i` as their ancestor at `i`'s depth.
proof fn lemma_flatten_nodes_distinct(t: WeightedTree, sel: Seq<bool>, i: usize, depth: nat)
    requires
        t.wf(),
        i < t.nodes@.len(),
        depth == t.nodes@[i as int].depth,
    ensures
        flatten_nodes(t, sel, i, depth).no_duplicates(),
        forall|x: usize| #[trigger] flatten_nodes(t, sel, i, depth).contains(x) ==> {
            &&& 1 <= x < t.nodes@.len()
            &&& t.nodes@[x as int].depth >= depth
            &&& anc_at(t, x, depth) == i
        },
    decreases t.nodes@.len() - depth, 1nat, 0nat,
{
    if i != 0 {
        assert(t.node_ok(i as int));
    }
    let cs = t.nodes@[i as int].children@;
    let dc = display_children(t, sel, i);
    lemma_sorted_shown_sum(t, sel, cs);
    lemma_sorted_shown_no_dup(t, sel, cs);
    assert forall|q: int| 0 <= q < dc.len() implies 1 <= #[trigger] dc[q] < t.nodes@.len()
        && t.nodes@[dc[q] as int].depth == depth + 1 && t.nodes@[dc[q] as int].parent == i by {
        assert(dc.contains(dc[q]));
        assert(cs.contains(dc[q]));
        let k = choose|k: int| 0 <= k < cs.len() && cs[k] == dc[q];
        assert(t.child_ok(i as int, k));
        assert(t.node_ok(dc[q] as int));
    }
    let own_n = if i != 0 && sel[i as int] { seq![i] } else { Seq::<usize>::empty() };
    let rest = flatten_list_nodes(t, sel, dc, 0, depth + 1);
    lemma_flatten_list_nodes_distinct(t, sel, dc, 0, depth + 1);
    assert forall|x: usize| own_n.contains(x) implies !rest.contains(x) by {
        assert(own_n[0] == x);
        if rest.contains(x) {
            assert(t.nodes@[x as int].depth >= depth + 1);
        }
    }
    lemma_no_dup_concat(own_n, rest);
    assert forall|x: usize| #[trigger] (own_n + rest).contains(x) implies {
        &&& 1 <= x < t.nodes@.len()
        &&& t.nodes@[x as int].depth >= depth
        &&& anc_at(t, x, depth) == i
    } by {
        if own_n.contains(x) {
            assert(own_n[0] == x);
        } else {
            assert(rest.contains(x));
            let q = choose|q: int| 0 <= q < dc.len() && anc_at(t, x, depth + 1) == dc[q];
            lemma_anc_step(t, x, depth);
            let c = dc[q];
            assert(t.node_ok(c as int));
            assert(anc_at(t, c, depth) == anc_at(t, i, depth));
        }
    }
    if depth < t.nodes@.len() {
        assert(flatten_nodes(t, sel, i, depth) == own_n + rest);
    } else {
        assert(false);
    }
}

/// The nodes `flatten_list` lists from `cs[k..]` are distinct, and each has
/// one of `cs[k..]` as its ancestor at depth `depth`.
proof fn lemma_flatten_list_nodes_distinct(t: WeightedTree, sel: Seq<bool>, cs: Seq<usize>, k: nat, depth: nat)
    requires
        t.wf(),
        cs.no_duplicates(),
        forall|q: int| 0 <= q < cs.len() ==> 1 <= #[trigger] cs[q] < t.nodes@.len() && t.nodes@[cs[q] as int].depth == depth,
    ensures
        flatten_list_nodes(t, sel, cs, k, depth).no_duplicates(),
        forall|x: usize| #[trigger] flatten_list_nodes(t, sel, cs, k, depth).contains(x) ==> {
            &&& 1 <= x < t.nodes@.len()
            &&& t.nodes@[x as int].depth >= depth
            &&& exists|q: int| k <= q < cs.len() && anc_at(t, x, depth) == cs[q]
        },
    decreases t.nodes@.len() + 1 - depth, 0nat, cs.len() - k,
{
    if !(depth > t.nodes@.len() || k >= cs.len()) {
        let c = cs[k as int];
        lemma_flatten_nodes_distinct(t, sel, c, depth);
        lemma_flatten_list_nodes_distinct(t, sel, cs, k + 1, depth);
        let a = flatten_nodes(t, sel, c, depth);
        let b = flatten_list_nodes(t, sel, cs, k + 1, depth);
        assert forall|x: usize| a.contains(x) implies !b.contains(x) by {
            if b.contains(x) {
                let q = choose|q: int| k + 1 <= q < cs.len() && anc_at(t, x, depth) == cs[q];
                assert(cs[k as int] != cs[q]);
            }
        }
        lemma_no_dup_concat(a, b);
        assert forall|x: usize| #[trigger] (a + b).contains(x) implies {
            &&& 1 <= x < t.nodes@.len()
            &&& t.nodes@[x as int].depth >= depth
            &&& exists|q: int| k <= q < cs.len() && anc_at(t, x, depth) == cs[q]
        } by {
            if a.contains(x) {
                assert(anc_at(t, x, depth) == cs[k as int]);
            } else {
                let q = choose|q: int| k + 1 <= q < cs.len() && anc_at(t, x, depth) == cs[q];
            }
        }
    }
}

/// Completeness: the tokens of the file rows shown and those of the
/// aggregate row together make up the tree's file total: every file node is
/// shown at most once, so what is shown never exceeds that total.
pub proof fn lemma_completeness(t: WeightedTree, order: Seq<usize>)
    requires
        t.wf(),
        t.nodes@.len() <= usize::MAX,
    ensures
        ({
            let body = flatten(t, selection_mask(t.nodes@.len() as nat, order), 0, 0, true);
            displayed_tokens(body) + hidden_tokens(file_sum(t.nodes@), body) == file_sum(t.nodes@)
        }),
{
    let sel = selection_mask(t.nodes@.len() as nat, order);
    lemma_flatten_rows_nodes(t, sel, 0, 0, true);
    lemma_flatten_nodes_distinct(t, sel, 0, 0);
    let ns = flatten_nodes(t, sel, 0, 0);
    assert forall|k: int| 0 <= k < ns.len() implies #[trigger] ns[k] < t.nodes@.len() by {
        assert(ns.contains(ns[k]));
    }
    lemma_distinct_file_sum(t.nodes@, ns);
}

/// Two trees whose nodes have the same views.
pub open spec fn same_views(t1: WeightedTree, t2: WeightedTree) -> bool {
    nodes_view(t1.nodes@) == nodes_view(t2.nodes@)
}

proof fn lemma_same_views_fields(t1: WeightedTree, t2: WeightedTree)
    requires
        same_views(t1, t2),
    ensures
        t1.nodes@.len() == t2.nodes@.len(),
        forall|i: int| 0 <= i < t1.nodes@.len() ==> #[trigger] t1.nodes@[i]@ == t2.nodes@[i]@,
{
    assert(nodes_view(t1.nodes@).len() == t1.nodes@.len());
    assert forall|i: int| 0 <= i < t1.nodes@.len() implies #[trigger] t1.nodes@[i]@ == t2.nodes@[i]@ by {
        assert(nodes_view(t1.nodes@)[i] == t1.nodes@[i]@);
        assert(nodes_view(t2.nodes@)[i] == t2.nodes@[i]@);
    }
}

proof fn lemma_greedy_transfer(t1: WeightedTree, t2: WeightedTree, m: int, cap: int, s: Seq<usize>)
    requires
        same_views(t1, t2),
        is_greedy_selection(t2, m, cap, s),
    ensures
        is_greedy_selection(t1, m, cap, s),
{
    lemma_same_views_fields(t1, t2);
    assert forall|p: Seq<usize>, j: int| #[trigger] is_candidate(t1, m, p, j) == is_candidate(t2, m, p, j) by {
        if 0 <= j < t1.nodes@.len() {
            assert(t1.nodes@[j]@ == t2.nodes@[j]@);
        }
    }
    assert forall|k: int| 0 <= k < s.len() implies #[trigger] greedy_step(t1, m, s, k) by {
        assert(greedy_step(t2, m, s, k));
        let a = s[k] as int;
        assert(t1.nodes@[a]@ == t2.nodes@[a]@);
        assert forall|j: int| is_candidate(t1, m, s.subrange(0, k), j) && j != a implies #[trigger] outranks(t1, a, j) by {
            assert(is_candidate(t2, m, s.subrange(0, k), j));
            assert(t1.nodes@[j]@ == t2.nodes@[j]@);
            assert(outranks(t2, a, j));
        }
    }
    if s.len() < cap {
        assert forall|j: int| !#[trigger] is_candidate(t1, m, s, j) by {
            assert(!is_candidate(t2, m, s, j));
        }
    }
}

proof fn lemma_insert_shown_same(t1: WeightedTree, t2: WeightedTree, x: usize, s: Seq<usize>)
    requires
        same_views(t1, t2),
        x < t1.nodes@.len(),
        forall|q: int| 0 <= q < s.len() ==> #[trigger] s[q] < t1.nodes@.len(),
    ensures
        insert_shown(t1, x, s) == insert_shown(t2, x, s),
    decreases s.len(),
{
    lemma_same_views_fields(t1, t2);
    if s.len() > 0 {
        assert(t1.nodes@[x as int]@ == t2.nodes@[x as int]@);
        assert(t1.nodes@[s[0] as int]@ == t2.nodes@[s[0] as int]@);
        let r = s.drop_first();
        assert forall|q: int| 0 <= q < r.len() implies #[trigger] r[q] < t1.nodes@.len() by {
            assert(r[q] == s[q + 1]);
        }
        lemma_insert_shown_same(t1, t2, x, r);
    }
}

proof fn lemma_sorted_shown_same(t1: WeightedTree, t2: WeightedTree, sel: Seq<bool>, cs: Seq<usize>)
    requires
        same_views(t1, t2),
        forall|q: int| 0 <= q < cs.len() ==> #[trigger] cs[q] < t1.nodes@.len(),
    ensures
        sorted_shown(t1, sel, cs) == sorted_shown(t2, sel, cs),
    decreases cs.len(),
{
    if cs.len() > 0 {
        let init = cs.drop_last();
        assert forall|q: int| 0 <= q < init.len() implies #[trigger] init[q] < t1.nodes@.len() by {
            assert(init[q] == cs[q]);
        }
        lemma_sorted_shown_same(t1, t2, sel, init);
        lemma_sorted_shown_sum(t1, sel, init);
        let p = sorted_shown(t1, sel, init);
        assert forall|q: int| 0 <= q < p.len() implies #[trigger] p[q] < t1.nodes@.len() by {
            assert(p.contains(p[q]));
            assert(init.contains(p[q]));
        }
        assert(cs.last() == cs[cs.len() - 1]);
        if sel[cs.last() as int] {
            lemma_insert_shown_same(t1, t2, cs.last(), p);
        }
    }
}

proof fn lemma_flatten_same(t1: WeightedTree, t2: WeightedTree, sel: Seq<bool>, i: usize, depth: nat, is_last: bool)
    requires
        t1.wf(),
        same_views(t1, t2),
        i < t1.nodes@.len(),
    ensures
        flatten(t1, sel, i, depth, is_last) == flatten(t2, sel, i, depth, is_last),
    decreases t1.nodes@.len() - depth, 1nat, 0nat,
{
    lemma_same_views_fields(t1, t2);
    if depth < t1.nodes@.len() {
        assert(t1.nodes@[i as int]@ == t2.nodes@[i as int]@);
        let cs = t1.nodes@[i as int].children@;
        assert forall|q: int| 0 <= q < cs.len() implies #[trigger] cs[q] < t1.nodes@.len() by {
            assert(t1.child_ok(i as int, q));
        }
        lemma_sorted_shown_same(t1, t2, sel, cs);
        let dc = display_children(t1, sel, i);
        lemma_sorted_shown_sum(t1, sel, cs);
        assert forall|q: int| 0 <= q < dc.len() implies #[trigger] dc[q] < t1.nodes@.len() by {
            assert(dc.contains(dc[q]));
            assert(cs.contains(dc[q]));
        }
        lemma_flatten_list_same(t1, t2, sel, dc, 0, depth + 1);
    }
}

proof fn lemma_flatten_list_same(t1: WeightedTree, t2: WeightedTree, sel: Seq<bool>, cs: Seq<usize>, k: nat, depth: nat)
    requires
        t1.wf(),
        same_views(t1, t2),
        forall|q: int| 0 <= q < cs.len() ==> #[trigger] cs[q] < t1.nodes@.len(),
    ensures
        flatten_list(t1, sel, cs, k, depth) == flatten_list(t2, sel, cs, k, depth),
    decreases t1.nodes@.len() + 1 - depth, 0nat, cs.len() - k,
{
    lemma_same_views_fields(t1, t2);
    if !(depth > t1.nodes@.len() || k >= cs.len()) {
        lemma_flatten_same(t1, t2, sel, cs[k as int], depth, k == cs.len() - 1);
        lemma_flatten_list_same(t1, t2, sel, cs, k + 1, depth);
    }
}

proof fn lemma_file_sum_same(n1: Seq<crate::tree::TreeNode>, n2: Seq<crate::tree::TreeNode>)
    requires
        nodes_view(n1) == nodes_view(n2),
    ensures
        file_sum(n1) == file_sum(n2),
    decreases n1.len(),
{
    assert(nodes_view(n1).len() == n1.len() && nodes_view(n2).len() == n2.len());
    if n1.len() > 0 {
        assert(nodes_view(n1.drop_last()) =~= nodes_view(n1).drop_last());
        assert(nodes_view(n2.drop_last()) =~= nodes_view(n2).drop_last());
        lemma_file_sum_same(n1.drop_last(), n2.drop_last());
        assert(nodes_view(n1)[n1.len() - 1] == n1.last()@);
        assert(nodes_view(n2)[n2.len() - 1] == n2.last()@);
    }
}

/// Same entries, same map: two trees built from the same entries, with
/// admission sequences chosen best-first under the same line budget and
/// threshold, give the same token map. So two calls of
/// `generate_token_map_with_limit` with the same arguments agree.
pub proof fn lemma_same_entries_same_map(
    entries: Seq<ProcessedEntry>,
    max_lines: int,
    min_percent_milli: int,
    t1: WeightedTree,
    order1: Seq<usize>,
    t2: WeightedTree,
    order2: Seq<usize>,
)
    requires
        t1.wf(),
        t2.wf(),
        nodes_view(t1.nodes@) == tree_view_of(entries),
        nodes_view(t2.nodes@) == tree_view_of(entries),
        is_greedy_selection(t1, min_tokens_for(t1.total(), min_percent_milli), line_cap(max_lines), order1),
        is_greedy_selection(t2, min_tokens_for(t2.total(), min_percent_milli), line_cap(max_lines), order2),
    ensures
        token_map_rows(t1, order1) == token_map_rows(t2, order2),
{
    lemma_same_views_fields(t1, t2);
    assert(t1.nodes@[0]@ == t2.nodes@[0]@);
    lemma_greedy_transfer(t1, t2, min_tokens_for(t1.total(), min_percent_milli), line_cap(max_lines), order2);
    lemma_selection_unique(t1, min_tokens_for(t1.total(), min_percent_milli), line_cap(max_lines), order1, order2);
    let sel = selection_mask(t1.nodes@.len() as nat, order1);
    lemma_flatten_same(t1, t2, sel, 0, 0, true);
    lemma_file_sum_same(t1.nodes@, t2.nodes@);
}

} // verus!
