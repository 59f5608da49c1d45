//! Small parsers and matchers used around the selection of files.

use vstd::prelude::*;
use crate::model::ProcessedEntry;
use crate::text::{chars_of, string_of, path_components, split_path, views_of};

verus! {

/// ASCII lower-casing of one character; other characters are kept.
pub open spec fn ascii_lower(c: char) -> char {
    if 'A' <= c && c <= 'Z' {
        (((c as u32) + 32) as u8) as char
    } else {
        c
    }
}

fn ascii_lower_exec(c: char) -> (r: char)
    ensures
        r == ascii_lower(c),
{
    if 'A' <= c && c <= 'Z' {
        (((c as u32) + 32) as u8) as char
    } else {
        c
    }
}

/// The two sequences are equal up to ASCII case.
pub open spec fn eq_ignore_ascii_case(a: Seq<char>, b: Seq<char>) -> bool {
    a.len() == b.len() && forall|k: int| 0 <= k < a.len() ==> ascii_lower(#[trigger] a[k]) == ascii_lower(b[k])
}

/// Byte-level ASCII lower-casing.
pub open spec fn ascii_lower_byte(b: u8) -> u8 {
    if 65 <= b && b <= 90 {
        (b + 32) as u8
    } else {
        b
    }
}

/// `pat` occurs in `hay` at `i`, up to ASCII case.
pub open spec fn occurs_at(hay: Seq<u8>, pat: Seq<u8>, i: int) -> bool {
    &&& 0 <= i
    &&& i + pat.len() <= hay.len()
    &&& forall|k: int| 0 <= k < pat.len() ==> ascii_lower_byte(#[trigger] hay[i + k]) == ascii_lower_byte(pat[k])
}

/// Whether `pat` occurs in `hay` ignoring ASCII case; an empty pattern
/// always does.
pub fn find_substring_case_insensitive(hay: &[u8], pat: &[u8]) -> (r: bool)
    ensures
        r == (pat@.len() == 0 || exists|i: int| occurs_at(hay@, pat@, i)),
{
    if pat.len() == 0 {
        return true;
    }
    if pat.len() > hay.len() {
        assert forall|i: int| !occurs_at(hay@, pat@, i) by {}
        return false;
    }
    let hl = hay.len();
    let last = hl - pat.len();
    let mut i: usize = 0;
    while i <= last
        invariant
            pat@.len() > 0,
            hl == hay@.len(),
            last == hay@.len() - pat@.len(),
            i <= last + 1,
            forall|j: int| 0 <= j < i ==> !occurs_at(hay@, pat@, j),
        decreases last + 1 - i,
    {
        let mut k: usize = 0;
        let mut same = true;
        while k < pat.len() && same
            invariant
                i <= last,
                hl == hay@.len(),
                last == hay@.len() - pat@.len(),
                k <= pat@.len(),
                same ==> forall|q: int| 0 <= q < k ==> ascii_lower_byte(#[trigger] hay@[i + q]) == ascii_lower_byte(pat@[q]),
                !same ==> !occurs_at(hay@, pat@, i as int),
            decreases pat@.len() - k, if same { 1int } else { 0int },
        {
            let a = hay[i + k];
            let b = pat[k];
            let la = if 65 <= a && a <= 90 { a + 32 } else { a };
            let lb = if 65 <= b && b <= 90 { b + 32 } else { b };
            if la != lb {
                same = false;
                assert(ascii_lower_byte(hay@[i + k]) != ascii_lower_byte(pat@[k as int]));
            } else {
                k = k + 1;
            }
        }
        if same {
            assert(occurs_at(hay@, pat@, i as int));
            return true;
        }
        i = i + 1;
    }
    assert forall|j: int| !occurs_at(hay@, pat@, j) by {
        if 0 <= j && j <= last {
        }
    }
    false
}

/// The part of `s` before its first `=` and the part after it, if `s`
/// holds one.
pub open spec fn key_value_split(s: Seq<char>) -> Option<(Seq<char>, Seq<char>)> {
    if s.contains('=') {
        let p = choose|p: int| 0 <= p < s.len() && s[p] == '=' && forall|q: int| 0 <= q < p ==> s[q] != '=';
        Some((s.subrange(0, p), s.subrange(p + 1, s.len() as int)))
    } else {
        None
    }
}

/// The message for a template variable given without `=`.
pub const KEY_VALUE_ERROR: &'static str = "Variable must be in KEY=value format";

/// Parses a `KEY=value` argument: the key is what comes before the first `=`,
/// the value everything after it.
pub fn parse_key_val(s: &str) -> (r: Result<(String, String), String>)
    ensures
        r matches Ok(kv) ==> key_value_split(s@) == Some((kv.0@, kv.1@)),
        r is Err ==> key_value_split(s@) is None,
        r matches Err(e) ==> e@ == KEY_VALUE_ERROR@,
{
    let cs = chars_of(s);
    let mut p: usize = 0;
    while p < cs.len() && cs[p] != '='
        invariant
            cs@ == s@,
            p <= cs@.len(),
            forall|q: int| 0 <= q < p ==> cs@[q] != '=',
        decreases cs@.len() - p,
    {
        p = p + 1;
    }
    if p == cs.len() {
        assert(!s@.contains('='));
        return Err(KEY_VALUE_ERROR.to_owned());
    }
    proof {
        assert(s@.contains('='));
        let c = choose|c: int| 0 <= c < s@.len() && s@[c] == '=' && forall|q: int| 0 <= q < c ==> s@[q] != '=';
        assert(c == p as int) by {
            if c < p as int {
                assert(cs@[c] != '=');
            } else if c > p as int {
                assert(s@[p as int] == '=');
            }
        }
    }
    let mut key: Vec<char> = Vec::new();
    let mut i: usize = 0;
    while i < p
        invariant
            cs@ == s@,
            p < cs@.len(),
            i <= p,
            key@ == s@.subrange(0, i as int),
        decreases p - i,
    {
        key.push(cs[i]);
        i = i + 1;
        assert(key@ =~= s@.subrange(0, i as int));
    }
    let mut value: Vec<char> = Vec::new();
    let mut j: usize = p + 1;
    while j < cs.len()
        invariant
            cs@ == s@,
            p < cs@.len(),
            p + 1 <= j <= cs@.len(),
            value@ == s@.subrange(p + 1, j as int),
        decreases cs@.len() - j,
    {
        value.push(cs[j]);
        j = j + 1;
        assert(value@ =~= s@.subrange(p + 1, j as int));
    }
    Ok((string_of(&key), string_of(&value)))
}

/// The two branch names of a `--git-diff-branch`-style argument: present
/// only when exactly two were given.
pub fn parse_branch_pair(branches: &Option<Vec<String>>) -> (r: Option<(String, String)>)
    ensures
        r matches Some(p) ==> branches matches Some(v) && v@.len() == 2 && p.0@ == v@[0]@ && p.1@ == v@[1]@,
        r is None ==> !(branches matches Some(v) && v@.len() == 2),
{
    match branches {
        Some(v) => {
            if v.len() == 2 {
                Some((v[0].clone(), v[1].clone()))
            } else {
                None
            }
        },
        None => None,
    }
}

/// `prefix`'s path components, compared up to ASCII case, begin `full`'s.
pub open spec fn is_prefix_ignore_case(prefix: Seq<Seq<char>>, full: Seq<Seq<char>>) -> bool {
    &&& prefix.len() <= full.len()
    &&& forall|k: int| 0 <= k < prefix.len() ==> eq_ignore_ascii_case(#[trigger] prefix[k], full[k])
}

fn component_eq_ignore_case(a: &String, b: &String) -> (r: bool)
    ensures
        r == eq_ignore_ascii_case(a@, b@),
{
    let x = chars_of(a.as_str());
    let y = chars_of(b.as_str());
    if x.len() != y.len() {
        return false;
    }
    let mut k: usize = 0;
    while k < x.len()
        invariant
            x@ == a@,
            y@ == b@,
            x@.len() == y@.len(),
            k <= x@.len(),
            forall|q: int| 0 <= q < k ==> ascii_lower(#[trigger] x@[q]) == ascii_lower(y@[q]),
        decreases x@.len() - k,
    {
        if ascii_lower_exec(x[k]) != ascii_lower_exec(y[k]) {
            return false;
        }
        k = k + 1;
    }
    true
}

/// Whether `prefix` names `full` or a directory above it, comparing the
/// `/`-separated components up to ASCII case.
pub fn paths_match_case_insensitive(full_path: &str, prefix: &str) -> (r: bool)
    ensures
        r == is_prefix_ignore_case(path_components(prefix@), path_components(full_path@)),
{
    let f = split_path(full_path);
    let p = split_path(prefix);
    let ghost fv = views_of(f@);
    let ghost pv = views_of(p@);
    if p.len() > f.len() {
        return false;
    }
    let mut k: usize = 0;
    while k < p.len()
        invariant
            fv == views_of(f@),
            pv == views_of(p@),
            fv == path_components(full_path@),
            pv == path_components(prefix@),
            p@.len() <= f@.len(),
            k <= p@.len(),
            forall|q: int| 0 <= q < k ==> eq_ignore_ascii_case(#[trigger] pv[q], fv[q]),
        decreases p@.len() - k,
    {
        assert(pv[k as int] == p@[k as int]@ && fv[k as int] == f@[k as int]@);
        if !component_eq_ignore_case(&p[k], &f[k]) {
            return false;
        }
        k = k + 1;
    }
    true
}

/// Entry `e` passes the selection: its extension is among `exts` (when any
/// are given) and one of `paths` names it or a directory above it, up to
/// ASCII case (when any are given).
pub open spec fn keeps_entry(e: ProcessedEntry, exts: Seq<String>, paths: Seq<String>) -> bool {
    &&& (exts.len() == 0 || (e.extension matches Some(x) && exists|k: int| 0 <= k < exts.len() && #[trigger] exts[k]@ == x@))
    &&& (paths.len() == 0 || exists|k: int| 0 <= k < paths.len()
        && is_prefix_ignore_case(path_components(#[trigger] paths[k]@), path_components(e.relative_path@)))
}

/// The entries of `s` that pass the selection, in order.
pub open spec fn kept_entries(s: Seq<ProcessedEntry>, exts: Seq<String>, paths: Seq<String>) -> Seq<ProcessedEntry>
    decreases s.len(),
{
    if s.len() == 0 {
        s
    } else {
        let p = kept_entries(s.drop_last(), exts, paths);
        if keeps_entry(s.last(), exts, paths) { p.push(s.last()) } else { p }
    }
}

fn keeps_entry_exec(e: &ProcessedEntry, exts: &Vec<String>, paths: &Vec<String>) -> (r: bool)
    ensures
        r == keeps_entry(*e, exts@, paths@),
{
    let ext_ok = if exts.len() == 0 {
        true
    } else {
        match &e.extension {
            Some(x) => {
                let mut found = false;
                let mut k: usize = 0;
                while k < exts.len() && !found
                    invariant
                        k <= exts@.len(),
                        found ==> exists|q: int| 0 <= q < exts@.len() && #[trigger] exts@[q]@ == x@,
                        !found ==> forall|q: int| 0 <= q < k ==> #[trigger] exts@[q]@ != x@,
                    decreases exts@.len() - k, if found { 0int } else { 1int },
                {
                    if exts[k] == *x {
                        found = true;
                    } else {
                        k = k + 1;
                    }
                }
                found
            },
            None => false,
        }
    };
    let path_ok = if paths.len() == 0 {
        true
    } else {
        let mut found = false;
        let mut k: usize = 0;
        while k < paths.len() && !found
            invariant
                k <= paths@.len(),
                found ==> exists|q: int| 0 <= q < paths@.len()
                    && is_prefix_ignore_case(path_components(#[trigger] paths@[q]@), path_components(e.relative_path@)),
                !found ==> forall|q: int| 0 <= q < k
                    ==> !is_prefix_ignore_case(path_components(#[trigger] paths@[q]@), path_components(e.relative_path@)),
            decreases paths@.len() - k, if found { 0int } else { 1int },
        {
            if paths_match_case_insensitive(e.relative_path.as_str(), paths[k].as_str()) {
                found = true;
            } else {
                k = k + 1;
            }
        }
        found
    };
    ext_ok && path_ok
}

/// Keeps the entries whose extension is among `sel_exts` and whose path lies
/// under one of `sel_paths` (an empty list selects everything), in order.
pub fn filter_session_entries(entries: &mut Vec<ProcessedEntry>, sel_exts: &Vec<String>, sel_paths: &Vec<String>)
    ensures
        final(entries)@ == kept_entries(old(entries)@, sel_exts@, sel_paths@),
{
    let ghost input = entries@;
    let mut src: Vec<ProcessedEntry> = Vec::new();
    std::mem::swap(entries, &mut src);
    let n = src.len();
    let mut out: Vec<ProcessedEntry> = Vec::new();
    let mut k: usize = 0;
    assert(input.subrange(0, 0) =~= Seq::<ProcessedEntry>::empty());
    while src.len() > 0
        invariant
            n == input.len(),
            k + src@.len() == n,
            src@ == input.subrange(k as int, n as int),
            out@ == kept_entries(input.subrange(0, k as int), sel_exts@, sel_paths@),
        decreases src@.len(),
    {
        let e = src.remove(0);
        proof {
            let pre = input.subrange(0, k as int + 1);
            assert(pre.drop_last() =~= input.subrange(0, k as int));
            assert(pre.last() == e);
        }
        if keeps_entry_exec(&e, sel_exts, sel_paths) {
            out.push(e);
        }
        k = k + 1;
        assert(src@ =~= input.subrange(k as int, n as int));
    }
    assert(input.subrange(0, k as int) =~= input);
    *entries = out;
}

} // verus!
