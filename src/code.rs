//! Presentation of file contents inside the prompt.

use vstd::prelude::*;
use crate::config::Code2PromptConfig;
use crate::model::ProcessedEntry;
use crate::text::{chars_of, decimal, push_decimal_wide, string_of, path_components, split_path, views_of};
use crate::view::pad_left;

verus! {

/// `cur` without one trailing carriage return.
pub open spec fn strip_cr(cur: Seq<char>) -> Seq<char> {
    if cur.len() > 0 && cur.last() == '\r' {
        cur.drop_last()
    } else {
        cur
    }
}

/// Splitting on `\n`: the finished lines and the one being read.
pub open spec fn lines_state(s: Seq<char>) -> (Seq<Seq<char>>, Seq<char>)
    decreases s.len(),
{
    if s.len() == 0 {
        (Seq::<Seq<char>>::empty(), Seq::<char>::empty())
    } else {
        let st = lines_state(s.drop_last());
        if s.last() == '\n' {
            (st.0.push(strip_cr(st.1)), Seq::<char>::empty())
        } else {
            (st.0, st.1.push(s.last()))
        }
    }
}

/// The lines of `s`: split at each `\n` (a `\r` right before it is dropped);
/// a last line without `\n` counts only if it is not empty.
pub open spec fn text_lines(s: Seq<char>) -> Seq<Seq<char>> {
    let st = lines_state(s);
    if st.1.len() > 0 { st.0.push(st.1) } else { st.0 }
}

/// Lines `k..` of `lines`, each prefixed with its number (counting from 1)
/// right-aligned in four characters and ` | `, and ended by `\n`.
pub open spec fn numbered(lines: Seq<Seq<char>>, k: nat) -> Seq<char>
    decreases lines.len() - k,
{
    if k >= lines.len() {
        Seq::<char>::empty()
    } else {
        pad_left(decimal(k + 1), 4) + seq![' ', '|', ' '] + lines[k as int] + seq!['\n'] + numbered(lines, k + 1)
    }
}

/// The code block for `code`: the code itself when `no_block`; otherwise
/// fenced with three backticks and the language `ext`, with numbered lines
/// when `line_numbers`.
pub open spec fn wrapped(code: Seq<char>, ext: Seq<char>, line_numbers: bool, no_block: bool) -> Seq<char> {
    if no_block {
        code
    } else {
        let body = if line_numbers { numbered(text_lines(code), 0) } else { code };
        seq!['`', '`', '`'] + ext + seq!['\n'] + body + seq!['`', '`', '`']
    }
}

fn split_lines(cs: &Vec<char>) -> (r: Vec<Vec<char>>)
    ensures
        r@.map_values(|l: Vec<char>| l@) == text_lines(cs@),
{
    let mut done: Vec<Vec<char>> = Vec::new();
    let mut cur: Vec<char> = Vec::new();
    let mut i: usize = 0;
    while i < cs.len()
        invariant
            i <= cs@.len(),
            done@.map_values(|l: Vec<char>| l@) == lines_state(cs@.subrange(0, i as int)).0,
            cur@ == lines_state(cs@.subrange(0, i as int)).1,
        decreases cs@.len() - i,
    {
        let c = cs[i];
        proof {
            let p = cs@.subrange(0, i as int + 1);
            assert(p.drop_last() =~= cs@.subrange(0, i as int));
            assert(p.last() == c);
        }
        if c == '\n' {
            if cur.len() > 0 && cur[cur.len() - 1] == '\r' {
                cur.pop();
            }
            let ghost before = done@;
            done.push(cur);
            assert(done@.map_values(|l: Vec<char>| l@) =~= before.map_values(|l: Vec<char>| l@).push(done@.last()@));
            cur = Vec::new();
        } else {
            cur.push(c);
        }
        i = i + 1;
    }
    assert(cs@.subrange(0, i as int) =~= cs@);
    if cur.len() > 0 {
        let ghost before = done@;
        done.push(cur);
        assert(done@.map_values(|l: Vec<char>| l@) =~= before.map_values(|l: Vec<char>| l@).push(done@.last()@));
    }
    done
}

/// Wraps code in a markdown block, optionally with a language and line
/// numbers (see `wrapped`).
pub fn wrap(code: &str, ext: &str, line_numbers: bool, no_block: bool) -> (r: String)
    ensures
        r@ == wrapped(code@, ext@, line_numbers, no_block),
{
    if no_block {
        return code.to_owned();
    }
    let cs = chars_of(code);
    let mut out: Vec<char> = Vec::new();
    out.push('`');
    out.push('`');
    out.push('`');
    let ecs = chars_of(ext);
    append(&mut out, &ecs);
    out.push('\n');
    let ghost head = out@;
    if line_numbers {
        let lines = split_lines(&cs);
        let ghost ls = text_lines(cs@);
        let mut k: usize = 0;
        while k < lines.len()
            invariant
                lines@.map_values(|l: Vec<char>| l@) == ls,
                k <= lines@.len(),
                out@ + numbered(ls, k as nat) == head + numbered(ls, 0),
            decreases lines@.len() - k,
        {
            let ghost before = out@;
            let mut num: Vec<char> = Vec::new();
            push_decimal_wide(&mut num, k as u128 + 1);
            assert(num@ =~= decimal((k + 1) as nat));
            let padded = pad_chars(&num, 4);
            append(&mut out, &padded);
            out.push(' ');
            out.push('|');
            out.push(' ');
            append(&mut out, &lines[k]);
            out.push('\n');
            proof {
                assert(lines@[k as int]@ == ls[k as int]);
                assert(out@ =~= before + (pad_left(decimal((k + 1) as nat), 4) + seq![' ', '|', ' '] + ls[k as int] + seq!['\n']));
            }
            k = k + 1;
        }
        assert(numbered(ls, k as nat) =~= Seq::<char>::empty());
    } else {
        append(&mut out, &cs);
    }
    out.push('`');
    out.push('`');
    out.push('`');
    assert(out@ =~= wrapped(code@, ext@, line_numbers, no_block));
    string_of(&out)
}

fn append(v: &mut Vec<char>, w: &Vec<char>)
    ensures
        final(v)@ == old(v)@ + w@,
{
    let mut i: usize = 0;
    while i < w.len()
        invariant
            i <= w@.len(),
            v@ == old(v)@ + w@.subrange(0, i as int),
        decreases w@.len() - i,
    {
        v.push(w[i]);
        i = i + 1;
        assert(v@ =~= old(v)@ + w@.subrange(0, i as int));
    }
    assert(w@.subrange(0, i as int) =~= w@);
}

fn pad_chars(s: &Vec<char>, w: usize) -> (r: Vec<char>)
    ensures
        r@ == pad_left(s@, w as nat),
{
    let mut r: Vec<char> = Vec::new();
    if s.len() < w {
        let n = w - s.len();
        let mut i: usize = 0;
        while i < n
            invariant
                i <= n,
                r@ == crate::text::repeat_char(' ', i as nat),
            decreases n - i,
        {
            r.push(' ');
            i = i + 1;
            assert(r@ =~= crate::text::repeat_char(' ', i as nat));
        }
    }
    append(&mut r, s);
    r
}

/// `s` with every backslash turned into a forward slash.
pub open spec fn forward_slashed(s: Seq<char>) -> Seq<char> {
    Seq::new(s.len(), |i: int| if s[i] == '\\' { '/' } else { s[i] })
}

/// Turns Windows-style separators into forward slashes: `foo\bar` becomes
/// `foo/bar`.
pub fn to_fwd_slash(p: &str) -> (r: String)
    ensures
        r@ == forward_slashed(p@),
{
    let cs = chars_of(p);
    let mut out: Vec<char> = Vec::new();
    let mut i: usize = 0;
    while i < cs.len()
        invariant
            cs@ == p@,
            i <= cs@.len(),
            out@ == forward_slashed(p@).subrange(0, i as int),
        decreases cs@.len() - i,
    {
        let c = cs[i];
        out.push(if c == '\\' { '/' } else { c });
        i = i + 1;
        assert(out@ =~= forward_slashed(p@).subrange(0, i as int));
    }
    assert(out@ =~= forward_slashed(p@));
    string_of(&out)
}

/// Index of the last `.` in `s`, or -1 when there is none.
pub open spec fn last_dot(s: Seq<char>) -> int
    decreases s.len(),
{
    if s.len() == 0 {
        -1
    } else if s.last() == '.' {
        s.len() - 1
    } else {
        last_dot(s.drop_last())
    }
}

/// The extension of the file a path names: what follows the last `.` of its
/// last component, unless that component has no `.` other than a leading
/// one, or is `..`.
pub open spec fn extension_of(path: Seq<char>) -> Option<Seq<char>> {
    let cs = path_components(path);
    if cs.len() == 0 {
        None
    } else {
        let name = cs.last();
        if name == seq!['.', '.'] || last_dot(name) <= 0 {
            None
        } else {
            Some(name.subrange(last_dot(name) + 1, name.len() as int))
        }
    }
}

proof fn lemma_last_dot(s: Seq<char>)
    ensures
        -1 <= last_dot(s) < s.len(),
        last_dot(s) >= 0 ==> s[last_dot(s)] == '.',
        forall|k: int| last_dot(s) < k < s.len() ==> s[k] != '.',
    decreases s.len(),
{
    if s.len() > 0 && s.last() != '.' {
        lemma_last_dot(s.drop_last());
        assert forall|k: int| last_dot(s) < k < s.len() implies s[k] != '.' by {
            if k < s.len() - 1 {
                assert(s.drop_last()[k] == s[k]);
            }
        }
    }
}

/// The extension of the file at `path` (see `extension_of`).
pub fn path_extension(path: &str) -> (r: Option<String>)
    ensures
        r matches Some(e) ==> extension_of(path@) == Some(e@),
        r is None ==> extension_of(path@) is None,
{
    let comps = split_path(path);
    proof {
        assert(views_of(comps@).len() == comps@.len());
    }
    if comps.len() == 0 {
        return None;
    }
    let name = chars_of(comps[comps.len() - 1].as_str());
    proof {
        assert(views_of(comps@)[comps@.len() - 1] == comps@[comps@.len() - 1]@);
        assert(name@ == path_components(path@).last());
        lemma_last_dot(name@);
    }
    if name.len() == 2 && name[0] == '.' && name[1] == '.' {
        assert(name@ =~= seq!['.', '.']);
        return None;
    }
    assert(name@ != seq!['.', '.']) by {
        if name@ == seq!['.', '.'] {
            assert(name@.len() == 2 && name@[0] == '.' && name@[1] == '.');
        }
    }
    let mut d: usize = name.len();
    while d > 0 && name[d - 1] != '.'
        invariant
            d <= name@.len(),
            forall|k: int| d <= k < name@.len() ==> name@[k] != '.',
        decreases d,
    {
        d = d - 1;
    }
    proof {
        if d > 0 {
            assert(last_dot(name@) == d - 1) by {
                lemma_last_dot(name@);
                if last_dot(name@) > d - 1 {
                    assert(name@[last_dot(name@)] == '.');
                }
                if last_dot(name@) < d - 1 {
                    assert(name@[d - 1] == '.');
                }
            }
        } else {
            assert(last_dot(name@) == -1) by {
                lemma_last_dot(name@);
                if last_dot(name@) >= 0 {
                    assert(name@[last_dot(name@)] == '.');
                }
            }
        }
    }
    if d <= 1 {
        return None;
    }
    let mut ext: Vec<char> = Vec::new();
    let mut k: usize = d;
    while k < name.len()
        invariant
            d <= k <= name@.len(),
            ext@ == name@.subrange(d as int, k as int),
        decreases name@.len() - k,
    {
        ext.push(name[k]);
        k = k + 1;
        assert(ext@ =~= name@.subrange(d as int, k as int));
    }
    Some(string_of(&ext))
}

/// A processed file record: the file's extension comes from `path`; its
/// contents, when read, are wrapped as the configuration asks.
pub fn make_entry(
    path: &str,
    relative_path: &str,
    code_str: Option<&str>,
    cfg: &Code2PromptConfig,
    tok_cnt: Option<usize>,
    mtime: Option<u64>,
) -> (r: ProcessedEntry)
    ensures
        r.path@ == path@,
        r.relative_path@ == relative_path@,
        r.is_file,
        r.extension is Some <==> extension_of(path@) is Some,
        r.extension matches Some(e) ==> extension_of(path@) == Some(e@),
        r.code is Some <==> code_str is Some,
        r.code matches Some(c) ==> c@ == wrapped(
            code_str->0@,
            match extension_of(path@) { Some(e) => e, None => Seq::<char>::empty() },
            cfg.line_numbers,
            cfg.no_codeblock,
        ),
        r.token_count == tok_cnt,
        r.mtime == mtime,
{
    let ext = path_extension(path);
    proof {
        reveal_strlit("");
    }
    let wrapped_code = match code_str {
        Some(c) => {
            let e: &str = match &ext {
                Some(x) => x.as_str(),
                None => "",
            };
            Some(wrap(c, e, cfg.line_numbers, cfg.no_codeblock))
        },
        None => None,
    };
    ProcessedEntry {
        path: path.to_owned(),
        relative_path: relative_path.to_owned(),
        is_file: true,
        code: wrapped_code,
        extension: ext,
        token_count: tok_cnt,
        mtime,
    }
}

} // verus!
