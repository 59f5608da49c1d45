//! Ordering of the processed files.

use vstd::prelude::*;
use crate::config::FileSortMethod;
use crate::model::ProcessedEntry;
use crate::order::{lex_lt, lex_less, lemma_lex_total};
use crate::text::{path_components, split_path, views_of};

verus! {

/// Component-by-component lexicographic order on paths.
pub open spec fn comps_lt(a: Seq<Seq<char>>, b: Seq<Seq<char>>) -> bool
    decreases a.len(),
{
    if a.len() == 0 {
        b.len() > 0
    } else if b.len() == 0 {
        false
    } else if a[0] != b[0] {
        lex_lt(a[0], b[0])
    } else {
        comps_lt(a.drop_first(), b.drop_first())
    }
}

/// Modification times in ascending order, unknown times first.
pub open spec fn mtime_lt(a: Option<u64>, b: Option<u64>) -> bool {
    match (a, b) {
        (None, Some(_)) => true,
        (Some(x), Some(y)) => x < y,
        _ => false,
    }
}

/// Entry `a` goes strictly before entry `b` under `m`.
pub open spec fn sorts_before(m: FileSortMethod, a: ProcessedEntry, b: ProcessedEntry) -> bool {
    match m {
        FileSortMethod::NameAsc => comps_lt(path_components(a.path@), path_components(b.path@)),
        FileSortMethod::NameDesc => comps_lt(path_components(b.path@), path_components(a.path@)),
        FileSortMethod::DateAsc => mtime_lt(a.mtime, b.mtime),
        FileSortMethod::DateDesc => mtime_lt(b.mtime, a.mtime),
    }
}

/// `s` with `x` inserted before the first element it goes strictly before.
pub open spec fn insert_sorted(m: FileSortMethod, x: ProcessedEntry, s: Seq<ProcessedEntry>) -> Seq<ProcessedEntry>
    decreases s.len(),
{
    if s.len() == 0 {
        seq![x]
    } else if sorts_before(m, x, s[0]) {
        seq![x] + s
    } else {
        seq![s[0]] + insert_sorted(m, x, s.drop_first())
    }
}

/// The stable sort of `s` under `m`: elements that neither goes before the
/// other keep their order.
pub open spec fn stable_sorted(m: FileSortMethod, s: Seq<ProcessedEntry>) -> Seq<ProcessedEntry>
    decreases s.len(),
{
    if s.len() == 0 {
        s
    } else {
        insert_sorted(m, s.last(), stable_sorted(m, s.drop_last()))
    }
}

proof fn lemma_insert_sorted_at(m: FileSortMethod, x: ProcessedEntry, s: Seq<ProcessedEntry>, p: int)
    requires
        0 <= p <= s.len(),
        forall|q: int| 0 <= q < p ==> !sorts_before(m, x, #[trigger] s[q]),
        p < s.len() ==> sorts_before(m, x, s[p]),
    ensures
        insert_sorted(m, x, s) == s.insert(p, x),
    decreases s.len(),
{
    if s.len() == 0 {
        assert(s.insert(p, x) =~= seq![x]);
    } else if p == 0 {
        assert(s.insert(p, x) =~= seq![x] + s);
    } else {
        let r = s.drop_first();
        assert forall|q: int| 0 <= q < p - 1 implies !sorts_before(m, x, #[trigger] r[q]) by {
            assert(r[q] == s[q + 1]);
        }
        if p < s.len() {
            assert(r[p - 1] == s[p]);
        }
        lemma_insert_sorted_at(m, x, r, p - 1);
        assert(s.insert(p, x) =~= seq![s[0]] + r.insert(p - 1, x));
    }
}

fn comps_less(a: &Vec<String>, b: &Vec<String>) -> (r: bool)
    ensures
        r == comps_lt(views_of(a@), views_of(b@)),
{
    let ghost va = views_of(a@);
    let ghost vb = views_of(b@);
    let mut i: usize = 0;
    assert(va.skip(0) =~= va && vb.skip(0) =~= vb);
    while i < a.len() && i < b.len()
        invariant
            va == views_of(a@),
            vb == views_of(b@),
            i <= a@.len(),
            i <= b@.len(),
            comps_lt(va, vb) == comps_lt(va.skip(i as int), vb.skip(i as int)),
        decreases a@.len() - i,
    {
        let x = crate::text::chars_of(a[i].as_str());
        let y = crate::text::chars_of(b[i].as_str());
        assert(va.skip(i as int)[0] == a@[i as int]@ && vb.skip(i as int)[0] == b@[i as int]@);
        proof {
            lemma_lex_total(x@, y@);
        }
        if lex_less(&x, &y) {
            return true;
        }
        if lex_less(&y, &x) {
            return false;
        }
        assert(x@ == y@);
        assert(va.skip(i as int).drop_first() =~= va.skip(i as int + 1));
        assert(vb.skip(i as int).drop_first() =~= vb.skip(i as int + 1));
        i = i + 1;
    }
    i < b.len()
}

fn mtime_less(a: Option<u64>, b: Option<u64>) -> (r: bool)
    ensures
        r == mtime_lt(a, b),
{
    match (a, b) {
        (None, Some(_)) => true,
        (Some(x), Some(y)) => x < y,
        _ => false,
    }
}

fn sorts_before_exec(m: FileSortMethod, a: &ProcessedEntry, b: &ProcessedEntry) -> (r: bool)
    ensures
        r == sorts_before(m, *a, *b),
{
    match m {
        FileSortMethod::NameAsc => comps_less(&split_path(a.path.as_str()), &split_path(b.path.as_str())),
        FileSortMethod::NameDesc => comps_less(&split_path(b.path.as_str()), &split_path(a.path.as_str())),
        FileSortMethod::DateAsc => mtime_less(a.mtime, b.mtime),
        FileSortMethod::DateDesc => mtime_less(b.mtime, a.mtime),
    }
}

impl FileSortMethod {
    /// Sorts `v` stably: by path (component by component) ascending or
    /// descending, or by modification time ascending or descending, with
    /// unknown times counting as earliest.
    pub fn apply(&self, v: &mut Vec<ProcessedEntry>)
        ensures
            final(v)@ == stable_sorted(*self, old(v)@),
    {
        let ghost input = v@;
        let mut src: Vec<ProcessedEntry> = Vec::new();
        std::mem::swap(v, &mut src);
        let mut out: Vec<ProcessedEntry> = Vec::new();
        let mut k: usize = 0;
        let n = src.len();
        assert(input.subrange(0, 0) =~= Seq::<ProcessedEntry>::empty());
        while src.len() > 0
            invariant
                n == input.len(),
                k + src@.len() == n,
                src@ == input.subrange(k as int, n as int),
                out@ == stable_sorted(*self, input.subrange(0, k as int)),
            decreases src@.len(),
        {
            let x = src.remove(0);
            let mut p: usize = 0;
            while p < out.len() && !sorts_before_exec(*self, &x, &out[p])
                invariant
                    p <= out@.len(),
                    forall|q: int| 0 <= q < p ==> !sorts_before(*self, x, #[trigger] out@[q]),
                decreases out@.len() - p,
            {
                p = p + 1;
            }
            proof {
                lemma_insert_sorted_at(*self, x, out@, p as int);
                let pre = input.subrange(0, k as int + 1);
                assert(pre.drop_last() =~= input.subrange(0, k as int));
                assert(pre.last() == x);
            }
            out.insert(p, x);
            k = k + 1;
            assert(src@ =~= input.subrange(k as int, n as int));
        }
        assert(input.subrange(0, k as int) =~= input);
        *v = out;
    }
}

} // verus!
