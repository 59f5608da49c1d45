//! A flat arena of directory nodes with per-node file and token counts, as
//! the interactive selector browses it.

use vstd::prelude::*;
use std::collections::HashMap;
use crate::model::ProcessedEntry;
use crate::text::{path_components, split_path, views_of};

verus! {

/// Node flag: the node is a directory.
pub const IS_DIR: u8 = 1;
/// Node flag: the directory is unfolded.
pub const EXPANDED: u8 = 2;
/// Node flag: the node is selected.
pub const SELECTED: u8 = 4;
/// Node flag: only part of the directory is selected.
pub const PARTIAL_SELECTION: u8 = 8;

/// Index of a node in the arena.
pub type Idx = u32;

/// What the arena needs to know of a listed path.
pub trait PathInfo {
    spec fn path_view(&self) -> Seq<char>;

    spec fn count_view(&self) -> nat;

    spec fn tokens_view(&self) -> Option<usize>;

    fn path(&self) -> (r: &str)
        ensures
            r@ == self.path_view();

    fn count(&self) -> (r: usize)
        ensures
            r as nat == self.count_view();

    fn extension(&self) -> Option<&String>;

    fn token_count(&self) -> (r: Option<usize>)
        ensures
            r == self.tokens_view();
}

impl PathInfo for ProcessedEntry {
    open spec fn path_view(&self) -> Seq<char> {
        self.relative_path@
    }

    open spec fn count_view(&self) -> nat {
        1
    }

    open spec fn tokens_view(&self) -> Option<usize> {
        self.token_count
    }

    /// The path relative to the scanned root.
    fn path(&self) -> (r: &str) {
        self.relative_path.as_str()
    }

    /// Each entry is one file.
    fn count(&self) -> (r: usize) {
        1
    }

    fn extension(&self) -> Option<&String> {
        match &self.extension {
            Some(e) => Some(e),
            None => None,
        }
    }

    fn token_count(&self) -> (r: Option<usize>) {
        self.token_count
    }
}

/// One node of the arena. Children form a list through `first_child` and
/// `next_sibling`, newest first.
#[derive(Debug)]
pub struct DirNode {
    pub name: String,
    pub parent: Option<Idx>,
    pub first_child: Option<Idx>,
    pub next_sibling: Option<Idx>,
    pub flags: u8,
    pub file_count: usize,
    pub total_toks: usize,
    pub visible_toks: usize,
    pub visible_files: usize,
    pub extension: Option<String>,
    pub ext_slot: u16,
}

/// A link points to an earlier node.
pub open spec fn link_ok(l: Option<Idx>, i: int) -> bool {
    l matches Some(p) ==> (p as int) < i
}

/// The arena's links all point backwards, to nodes that exist, and the
/// visible counts equal the full ones.
pub open spec fn arena_ok(a: Seq<DirNode>) -> bool {
    &&& a.len() >= 1
    &&& a[0].parent is None
    &&& forall|i: int| 0 <= i < a.len() ==> {
        &&& link_ok(#[trigger] a[i].parent, i)
        &&& (i > 0 ==> a[i].parent is Some)
        &&& link_ok(a[i].next_sibling, i)
        &&& (a[i].first_child matches Some(c) ==> i < (c as int) < a.len())
        &&& a[i].visible_files == a[i].file_count
        &&& a[i].visible_toks == a[i].total_toks
        &&& (i > 0 ==> a[i].flags == (IS_DIR | SELECTED) || a[i].flags == SELECTED)
    }
    &&& forall|i: int| 0 <= i < a.len() ==> #[trigger] a[i].file_count <= a[0].file_count
    &&& forall|i: int| 0 <= i < a.len() ==> #[trigger] a[i].total_toks <= a[0].total_toks
}

/// The number of components of a listed path (none for an empty path).
pub open spec fn comp_count<T: PathInfo>(p: T) -> nat {
    if p.path_view().len() == 0 { 0 } else { path_components(p.path_view()).len() }
}

/// Files counted at the root: every component of a path adds the path's
/// count once.
pub open spec fn file_total<T: PathInfo>(ps: Seq<T>) -> int
    decreases ps.len(),
{
    if ps.len() == 0 {
        0
    } else {
        file_total(ps.drop_last()) + if ps.last().count_view() > 0 {
            ps.last().count_view() * comp_count(ps.last())
        } else {
            0
        }
    }
}

/// Tokens counted at the root: each path with a positive count and at least
/// one component adds its token count (0 when unknown).
pub open spec fn token_total<T: PathInfo>(ps: Seq<T>) -> int
    decreases ps.len(),
{
    if ps.len() == 0 {
        0
    } else {
        token_total(ps.drop_last()) + if ps.last().count_view() > 0 && comp_count(ps.last()) > 0 {
            match ps.last().tokens_view() {
                Some(t) => t as int,
                None => 0,
            }
        } else {
            0
        }
    }
}

/// The total number of path components over all paths.
pub open spec fn comp_total<T: PathInfo>(ps: Seq<T>) -> int
    decreases ps.len(),
{
    if ps.len() == 0 { 0 } else { comp_total(ps.drop_last()) + comp_count(ps.last()) }
}

proof fn lemma_totals_prefix<T: PathInfo>(ps: Seq<T>, j: int)
    requires
        0 <= j <= ps.len(),
    ensures
        0 <= file_total(ps.subrange(0, j)) <= file_total(ps),
        0 <= token_total(ps.subrange(0, j)) <= token_total(ps),
        0 <= comp_total(ps.subrange(0, j)) <= comp_total(ps),
    decreases ps.len(),
{
    if ps.len() > 0 {
        if j == ps.len() {
            assert(ps.subrange(0, j) =~= ps);
            lemma_totals_prefix(ps.drop_last(), j - 1);
        } else {
            lemma_totals_prefix(ps.drop_last(), j);
            assert(ps.drop_last().subrange(0, j) =~= ps.subrange(0, j));
        }
    } else {
        assert(ps.subrange(0, j) =~= ps);
    }
}

/// The child of `parent_idx` called `part`, created (as a directory when
/// `is_dir`, selected) when there is none yet.
fn ensure_child(
    arena: &mut Vec<DirNode>,
    parent_idx: Idx,
    part: &String,
    is_dir: bool,
    extension: Option<&String>,
    ext_slot_val: u16,
) -> (r: Idx)
    requires
        arena_ok(old(arena)@),
        (parent_idx as int) < old(arena)@.len(),
        old(arena)@.len() < u32::MAX,
    ensures
        arena_ok(final(arena)@),
        (r as int) < final(arena)@.len(),
        (parent_idx as int) < (r as int),
        final(arena)@[r as int].parent == Some(parent_idx),
        final(arena)@[r as int].name@ == part@,
        final(arena)@.len() == old(arena)@.len() + 1 ==> final(arena)@[r as int].flags == if is_dir { IS_DIR | SELECTED } else { SELECTED },
        final(arena)@.len() == old(arena)@.len() || final(arena)@.len() == old(arena)@.len() + 1,
        final(arena)@[0].file_count == old(arena)@[0].file_count,
        final(arena)@[0].total_toks == old(arena)@[0].total_toks,
        is_root_node(old(arena)@[0]) ==> is_root_node(final(arena)@[0]),
{
    let mut cur = arena[parent_idx as usize].first_child;
    assert(link_ok(arena@[parent_idx as int].parent, parent_idx as int));
    while cur.is_some()
        invariant
            arena_ok(arena@),
            (parent_idx as int) < arena@.len(),
            cur matches Some(c) ==> (parent_idx as int) < (c as int) < arena@.len(),
        decreases match cur { Some(c) => c as int + 1, None => 0 },
    {
        let c = match cur {
            Some(c) => c,
            None => 0,
        };
        let node = &arena[c as usize];
        assert(link_ok(arena@[c as int].parent, c as int));
        if node.name == *part && node.parent == Some(parent_idx) {
            return c;
        }
        cur = match node.next_sibling {
            Some(s) => if s > parent_idx { Some(s) } else { None },
            None => None,
        };
    }
    let ghost pre = arena@;
    let new_idx = arena.len() as Idx;
    let flags = if is_dir { IS_DIR | SELECTED } else { SELECTED };
    let ext = match extension {
        Some(e) => Some(e.clone()),
        None => None,
    };
    let node = DirNode {
        name: part.clone(),
        parent: Some(parent_idx),
        first_child: None,
        next_sibling: arena[parent_idx as usize].first_child,
        flags,
        file_count: 0,
        total_toks: 0,
        visible_toks: 0,
        visible_files: 0,
        extension: ext,
        ext_slot: ext_slot_val,
    };
    arena.push(node);
    arena[parent_idx as usize].first_child = Some(new_idx);
    proof {
        let a = arena@;
        assert forall|i: int| 0 <= i < a.len() implies {
            &&& link_ok(#[trigger] a[i].parent, i)
            &&& (i > 0 ==> a[i].parent is Some)
            &&& link_ok(a[i].next_sibling, i)
            &&& (a[i].first_child matches Some(c) ==> i < (c as int) < a.len())
            &&& a[i].visible_files == a[i].file_count
            &&& a[i].visible_toks == a[i].total_toks
            &&& (i > 0 ==> a[i].flags == (IS_DIR | SELECTED) || a[i].flags == SELECTED)
        } by {
            if i < pre.len() {
                assert(link_ok(pre[i].parent, i));
            }
        }
        assert forall|i: int| 0 <= i < a.len() implies #[trigger] a[i].file_count <= a[0].file_count by {
            if i < pre.len() {
                assert(pre[i].file_count <= pre[0].file_count);
            }
        }
        assert forall|i: int| 0 <= i < a.len() implies #[trigger] a[i].total_toks <= a[0].total_toks by {
            if i < pre.len() {
                assert(pre[i].total_toks <= pre[0].total_toks);
            }
        }
    }
    new_idx
}

/// Adds `files` and `toks` to node `start` and to every node above it.
fn add_up_chain(arena: &mut Vec<DirNode>, start: Idx, files: usize, toks: usize)
    requires
        arena_ok(old(arena)@),
        (start as int) < old(arena)@.len(),
        old(arena)@[0].file_count + files <= usize::MAX,
        old(arena)@[0].total_toks + toks <= usize::MAX,
    ensures
        arena_ok(final(arena)@),
        final(arena)@.len() == old(arena)@.len(),
        final(arena)@[0].file_count == old(arena)@[0].file_count + files,
        final(arena)@[0].total_toks == old(arena)@[0].total_toks + toks,
        is_root_node(old(arena)@[0]) ==> is_root_node(final(arena)@[0]),
{
    let ghost pre = arena@;
    let ghost mut upd: Seq<bool> = Seq::new(pre.len(), |i: int| false);
    let mut cur: Option<Idx> = Some(start);
    while cur.is_some()
        invariant
            arena_ok(pre),
            arena@.len() == pre.len(),
            upd.len() == pre.len(),
            pre[0].file_count + files <= usize::MAX,
            pre[0].total_toks + toks <= usize::MAX,
            cur matches Some(c) ==> (c as int) < arena@.len(),
            forall|i: int| 0 <= i < arena@.len() ==> {
                &&& #[trigger] arena@[i].parent == pre[i].parent
                &&& arena@[i].name == pre[i].name
                &&& arena@[i].flags == pre[i].flags
                &&& arena@[i].extension == pre[i].extension
                &&& arena@[i].next_sibling == pre[i].next_sibling
                &&& arena@[i].first_child == pre[i].first_child
                &&& arena@[i].visible_files == arena@[i].file_count
                &&& arena@[i].visible_toks == arena@[i].total_toks
                &&& arena@[i].file_count == pre[i].file_count + if upd[i] { files as int } else { 0 }
                &&& arena@[i].total_toks == pre[i].total_toks + if upd[i] { toks as int } else { 0 }
                &&& (upd[i] ==> match cur { Some(c) => i > c as int, None => true })
            },
            cur is None <==> upd[0],
        decreases match cur { Some(c) => c as int + 1, None => 0 },
    {
        let c = match cur {
            Some(c) => c,
            None => 0,
        };
        let i = c as usize;
        let ghost before = arena@;
        assert(arena@[i as int].parent == pre[i as int].parent);
        assert(!upd[i as int]);
        assert(pre[i as int].file_count <= pre[0].file_count);
        assert(pre[i as int].total_toks <= pre[0].total_toks);
        let nf = arena[i].file_count + files;
        let nt = arena[i].total_toks + toks;
        arena[i].file_count = nf;
        arena[i].visible_files = nf;
        arena[i].total_toks = nt;
        arena[i].visible_toks = nt;
        proof {
            upd = upd.update(i as int, true);
            assert(link_ok(pre[i as int].parent, i as int));
            assert(i > 0 ==> pre[i as int].parent is Some);
        }
        cur = arena[i].parent;
    }
    proof {
        let a = arena@;
        assert forall|i: int| 0 <= i < a.len() implies {
            &&& link_ok(#[trigger] a[i].parent, i)
            &&& (i > 0 ==> a[i].parent is Some)
            &&& link_ok(a[i].next_sibling, i)
            &&& (a[i].first_child matches Some(c) ==> i < (c as int) < a.len())
            &&& a[i].visible_files == a[i].file_count
            &&& a[i].visible_toks == a[i].total_toks
            &&& (i > 0 ==> a[i].flags == (IS_DIR | SELECTED) || a[i].flags == SELECTED)
        } by {
            assert(link_ok(pre[i].parent, i));
        }
        assert(a[0].parent == pre[0].parent);
        assert forall|i: int| 0 <= i < a.len() implies #[trigger] a[i].file_count <= a[0].file_count by {
            assert(a[i].parent == pre[i].parent);
            assert(pre[i].file_count <= pre[0].file_count);
        }
        assert forall|i: int| 0 <= i < a.len() implies #[trigger] a[i].total_toks <= a[0].total_toks by {
            assert(a[i].parent == pre[i].parent);
            assert(pre[i].total_toks <= pre[0].total_toks);
        }
    }
}

/// The root node of an arena.
pub open spec fn is_root_node(n: DirNode) -> bool {
    &&& n.name@ == "(root)"@
    &&& n.parent is None
    &&& n.flags == IS_DIR | EXPANDED | SELECTED
    &&& n.extension is None
}

/// Builds the arena of `paths` (relative, like `src/ui/tui.rs`): one node per
/// distinct directory or file, under a root at index 0. For every component
/// of a path, the path's count is added to that component's node and to
/// every node above it; the path's tokens are added along the chain of its
/// last component. Extensions map to display slots through `ext_to_slot`
/// (slot 0 when unmapped).
pub fn build_dir_arena<T: PathInfo>(paths: &[T], ext_to_slot: &HashMap<String, u16>) -> (arena: Vec<DirNode>)
    requires
        comp_total(paths@) < u32::MAX,
        file_total(paths@) <= usize::MAX,
        token_total(paths@) <= usize::MAX,
    ensures
        arena_ok(arena@),
        is_root_node(arena@[0]),
        arena@.len() <= comp_total(paths@) + 1,
        arena@[0].file_count == file_total(paths@),
        arena@[0].total_toks == token_total(paths@),
{
    let ghost ps = paths@;
    let mut arena: Vec<DirNode> = Vec::new();
    arena.push(DirNode {
        name: "(root)".to_owned(),
        parent: None,
        first_child: None,
        next_sibling: None,
        flags: IS_DIR | EXPANDED | SELECTED,
        file_count: 0,
        total_toks: 0,
        visible_toks: 0,
        visible_files: 0,
        extension: None,
        ext_slot: 0,
    });
    assert(ps.subrange(0, 0) =~= Seq::<T>::empty());
    let mut j: usize = 0;
    while j < paths.len()
        invariant
            ps == paths@,
            comp_total(ps) < u32::MAX,
            file_total(ps) <= usize::MAX,
            token_total(ps) <= usize::MAX,
            j <= ps.len(),
            arena_ok(arena@),
            is_root_node(arena@[0]),
            arena@.len() <= comp_total(ps.subrange(0, j as int)) + 1,
            arena@[0].file_count == file_total(ps.subrange(0, j as int)),
            arena@[0].total_toks == token_total(ps.subrange(0, j as int)),
        decreases ps.len() - j,
    {
        let path_info = &paths[j];
        assert(paths.len() == ps.len());
        proof {
            let pre = ps.subrange(0, j as int + 1);
            assert(pre.drop_last() =~= ps.subrange(0, j as int));
            assert(pre.last() == *path_info);
            lemma_totals_prefix(ps, j as int + 1);
        }
        let path = path_info.path();
        if !path.is_empty() {
            let comps = split_path(path);
            let file_count = path_info.count();
            let tokens = match path_info.token_count() {
                Some(t) => t,
                None => 0,
            };
            let ghost base_f = arena@[0].file_count as int;
            let ghost base_t = arena@[0].total_toks as int;
            let ghost base_len = arena@.len() as int;
            proof {
                assert(views_of(comps@).len() == comps@.len());
                assert(comps@.len() == comp_count(*path_info));
                assert(file_total(ps.subrange(0, j as int + 1)) == base_f + file_count * comps@.len()) by {
                    if file_count == 0 {
                        assert(file_count * comps@.len() == 0) by (nonlinear_arith) requires file_count == 0;
                    }
                }
            }
            let mut parent: Idx = 0;
            let mut k: usize = 0;
            while k < comps.len()
                invariant
                    arena_ok(arena@),
                    is_root_node(arena@[0]),
                    (parent as int) < arena@.len(),
                    k <= comps@.len(),
                    comps@.len() == comp_count(*path_info),
                    file_count as nat == path_info.count_view(),
                    arena@.len() <= base_len + k,
                    base_len + comps@.len() <= comp_total(ps) + 1,
                    comp_total(ps) < u32::MAX,
                    arena@[0].file_count == base_f + file_count * k,
                    base_f + file_count * comps@.len() <= usize::MAX,
                    arena@[0].total_toks == base_t + if file_count > 0 && k == comps@.len() && k > 0 { tokens as int } else { 0 },
                    file_count > 0 && comps@.len() > 0 ==> base_t + tokens <= usize::MAX,
                decreases comps@.len() - k,
            {
                let is_last = k + 1 == comps.len();
                let file_extension = if is_last { path_info.extension() } else { None };
                let ext_slot = match file_extension {
                    Some(ext) => match ext_to_slot.get(ext) {
                        Some(s) => *s,
                        None => 0,
                    },
                    None => 0,
                };
                let child = ensure_child(&mut arena, parent, &comps[k], !is_last, file_extension, ext_slot);
                if file_count > 0 {
                    let token_count = if is_last { tokens } else { 0 };
                    proof {
                        assert(file_count * k + file_count == file_count * (k + 1)) by (nonlinear_arith);
                        assert(file_count * (k + 1) <= file_count * comps@.len()) by (nonlinear_arith)
                            requires k + 1 <= comps@.len();
                    }
                    add_up_chain(&mut arena, child, file_count, token_count);
                }
                proof {
                    assert(file_count * k + file_count == file_count * (k + 1)) by (nonlinear_arith);
                    if file_count == 0 {
                        assert(file_count * (k + 1) == 0) by (nonlinear_arith) requires file_count == 0;
                        assert(file_count * k == 0) by (nonlinear_arith) requires file_count == 0;
                    }
                }
                parent = child;
                k = k + 1;
            }
        }
        j = j + 1;
    }
    assert(ps.subrange(0, j as int) =~= ps);
    arena
}

} // verus!
