//! Include/exclude decisions for files, over glob patterns.

use vstd::prelude::*;
use crate::code::forward_slashed;
use crate::text::{path_components, split_path, views_of, string_of, chars_of};
use crate::tree::is_prefix;

verus! {

/// `glob::Pattern`, a compiled glob pattern, carried as an opaque value.
#[verifier::external_type_specification]
#[verifier::external_body]
pub struct ExPattern(glob::Pattern);

/// `glob::PatternError`, why a pattern did not compile, carried opaquely.
#[verifier::external_type_specification]
#[verifier::external_body]
pub struct ExPatternError(glob::PatternError);

/// `globset::GlobSet`, a set of compiled globs, carried as an opaque value.
#[verifier::external_type_specification]
#[verifier::external_body]
pub struct ExGlobSet(globset::GlobSet);

/// Whether `p` is a valid glob pattern.
pub uninterp spec fn is_valid_glob(p: Seq<char>) -> bool;

/// Relies on `glob::Pattern::new`: compiles `p`, failing exactly when `p` is
/// not a valid pattern, which depends on the text alone.
#[verifier::external_body]
fn compile_glob(p: &str) -> (r: Result<glob::Pattern, glob::PatternError>)
    ensures
        r is Ok <==> is_valid_glob(p@),
{
    glob::Pattern::new(p)
}

/// A pattern that does not compile.
#[derive(Clone, Debug)]
pub struct InvalidPattern {
    pub pattern: String,
}

/// Compiles every pattern of `v`, in order; the first invalid one is the
/// error.
pub fn patterns_from_strings(v: &Vec<String>) -> (r: Result<Vec<glob::Pattern>, InvalidPattern>)
    ensures
        r matches Ok(ps) ==> ps@.len() == v@.len() && forall|k: int| 0 <= k < v@.len() ==> is_valid_glob(#[trigger] v@[k]@),
        r matches Err(e) ==> exists|k: int| 0 <= k < v@.len() && !is_valid_glob(#[trigger] v@[k]@) && e.pattern@ == v@[k]@
            && forall|j: int| 0 <= j < k ==> is_valid_glob(#[trigger] v@[j]@),
{
    let mut out: Vec<glob::Pattern> = Vec::new();
    let mut k: usize = 0;
    while k < v.len()
        invariant
            k <= v@.len(),
            out@.len() == k,
            forall|j: int| 0 <= j < k ==> is_valid_glob(#[trigger] v@[j]@),
        decreases v@.len() - k,
    {
        match compile_glob(v[k].as_str()) {
            Ok(p) => out.push(p),
            Err(_) => {
                return Err(InvalidPattern { pattern: v[k].clone() });
            },
        }
        k = k + 1;
    }
    Ok(out)
}

/// Relies on `globset::GlobSet::is_empty`: whether the set holds no glob.
#[verifier::external_body]
fn glob_set_is_empty(set: &globset::GlobSet) -> bool {
    set.is_empty()
}

/// Relies on `globset::GlobSet::is_match`: whether some glob of the set
/// matches `path`.
#[verifier::external_body]
fn glob_set_matches(set: &globset::GlobSet, path: &str) -> bool {
    set.is_match(path)
}

/// The include/exclude decision. With no patterns at all a file is kept.
/// Otherwise it must match an include pattern (when there are any); an
/// included file that also matches an exclude pattern is kept only when
/// includes take priority.
pub open spec fn inclusion(include_empty: bool, exclude_empty: bool, include_match: bool, exclude_match: bool, include_priority: bool) -> bool {
    if include_empty && exclude_empty {
        true
    } else {
        let included = include_empty || include_match;
        if included && exclude_match {
            include_priority
        } else {
            included
        }
    }
}

/// The include/exclude decision (see `inclusion`) from the outcome of the
/// pattern checks.
pub fn include_decision(include_empty: bool, exclude_empty: bool, include_match: bool, exclude_match: bool, include_priority: bool) -> (r: bool)
    ensures
        r == inclusion(include_empty, exclude_empty, include_match, exclude_match, include_priority),
{
    if include_empty && exclude_empty {
        return true;
    }
    let included = include_empty || include_match;
    let excluded = if included { exclude_match } else { false };
    match (included, excluded) {
        (_, true) => include_priority,
        (true, false) => true,
        (false, false) => false,
    }
}

/// Components joined with `/`.
pub open spec fn join_components(c: Seq<Seq<char>>) -> Seq<char>
    decreases c.len(),
{
    if c.len() == 0 {
        Seq::<char>::empty()
    } else if c.len() == 1 {
        c[0]
    } else {
        join_components(c.drop_last()) + seq!['/'] + c.last()
    }
}

/// The text that patterns are matched against: `path` relative to `root`
/// when `root`'s components begin `path`'s, else `path` itself; with
/// forward slashes.
pub open spec fn match_text(path: Seq<char>, root: Seq<char>) -> Seq<char> {
    let pc = path_components(path);
    let rc = path_components(root);
    forward_slashed(if is_prefix(rc, pc) { join_components(pc.skip(rc.len() as int)) } else { path })
}

fn relative_text(path: &str, root: &str) -> (r: String)
    ensures
        r@ == match_text(path@, root@),
{
    let pc = split_path(path);
    let rc = split_path(root);
    let ghost pv = views_of(pc@);
    let ghost rv = views_of(rc@);
    let mut prefix = rc.len() <= pc.len();
    let mut k: usize = 0;
    while prefix && k < rc.len()
        invariant
            pv == views_of(pc@),
            rv == views_of(rc@),
            k <= rc@.len(),
            prefix ==> rc@.len() <= pc@.len() && forall|q: int| 0 <= q < k ==> #[trigger] pv[q] == rv[q],
            !prefix ==> !is_prefix(rv, pv),
        decreases rc@.len() - k, if prefix { 1int } else { 0int },
    {
        if pc[k] != rc[k] {
            prefix = false;
            assert(pv[k as int] != rv[k as int]);
            assert(pv.subrange(0, rv.len() as int)[k as int] == pv[k as int]);
        } else {
            k = k + 1;
        }
    }
    let base = if prefix {
        assert(pv.subrange(0, rv.len() as int) =~= rv);
        let mut out: Vec<char> = Vec::new();
        let mut j: usize = rc.len();
        let ghost rest = pv.skip(rv.len() as int);
        assert(rest.subrange(0, 0) =~= Seq::<Seq<char>>::empty());
        while j < pc.len()
            invariant
                pv == views_of(pc@),
                rv == views_of(rc@),
                rest == pv.skip(rv.len() as int),
                rc@.len() <= j <= pc@.len(),
                out@ == join_components(rest.subrange(0, j - rc@.len())),
            decreases pc@.len() - j,
        {
            let ghost before = out@;
            if j > rc.len() {
                out.push('/');
            }
            let part = chars_of(pc[j].as_str());
            let mut q: usize = 0;
            while q < part.len()
                invariant
                    q <= part@.len(),
                    out@ == (if j > rc@.len() { before.push('/') } else { before }) + part@.subrange(0, q as int),
                decreases part@.len() - q,
            {
                out.push(part[q]);
                q = q + 1;
                assert(out@ =~= (if j > rc@.len() { before.push('/') } else { before }) + part@.subrange(0, q as int));
            }
            proof {
                let s = rest.subrange(0, j + 1 - rc@.len());
                assert(s.drop_last() =~= rest.subrange(0, j - rc@.len()));
                assert(s.last() == pc@[j as int]@);
                assert(part@.subrange(0, q as int) =~= part@);
                if j == rc@.len() {
                    assert(rest.subrange(0, 0).len() == 0);
                    assert(out@ =~= join_components(s));
                } else {
                    assert(out@ =~= join_components(s));
                }
            }
            j = j + 1;
        }
        assert(rest.subrange(0, j - rc@.len()) =~= rest);
        out
    } else {
        chars_of(path)
    };
    let mut fwd: Vec<char> = Vec::new();
    let mut i: usize = 0;
    while i < base.len()
        invariant
            i <= base@.len(),
            fwd@ == forward_slashed(base@).subrange(0, i as int),
        decreases base@.len() - i,
    {
        let c = base[i];
        fwd.push(if c == '\\' { '/' } else { c });
        i = i + 1;
        assert(fwd@ =~= forward_slashed(base@).subrange(0, i as int));
    }
    assert(fwd@ =~= forward_slashed(base@));
    string_of(&fwd)
}

/// Whether the file at `path` is kept, given the include and exclude
/// pattern sets: the decision of `inclusion` for whether each set is empty
/// and whether it matches the path relative to `root_path` (see
/// `match_text`).
pub fn should_include_file(
    path: &str,
    root_path: &str,
    include_set: &globset::GlobSet,
    exclude_set: &globset::GlobSet,
    include_priority: bool,
) -> bool {
    let include_empty = glob_set_is_empty(include_set);
    let exclude_empty = glob_set_is_empty(exclude_set);
    if include_empty && exclude_empty {
        return true;
    }
    let text = relative_text(path, root_path);
    let include_match = if include_empty { false } else { glob_set_matches(include_set, text.as_str()) };
    let exclude_match = glob_set_matches(exclude_set, text.as_str());
    include_decision(include_empty, exclude_empty, include_match, exclude_match, include_priority)
}

} // verus!
