//! Text layout of a token map: aligned token counts, tree-drawing prefixes,
//! names cut or padded to a fixed column, and nested proportional bars.

use vstd::prelude::*;
use crate::model::{RowView, TokenMapEntry};
use crate::render::{OTHER_FILES, rows_view};
use crate::text::{decimal, decimal_string, push_decimal, chars_of, string_of, repeat_char};

verus! {

/// Display width of a string in terminal columns, as the unicode-width crate
/// counts it.
pub uninterp spec fn str_width(s: Seq<char>) -> usize;

/// Display width of one character in terminal columns, as the unicode-width
/// crate counts it; `None` for control characters.
pub uninterp spec fn char_width(c: char) -> Option<usize>;

/// Relies on `unicode_width::UnicodeWidthStr::width`: the displayed width of
/// `s` in columns, a function of its characters alone.
#[verifier::external_body]
fn display_width(s: &str) -> (r: usize)
    ensures
        r == str_width(s@),
{
    unicode_width::UnicodeWidthStr::width(s)
}

/// Relies on `unicode_width::UnicodeWidthChar::width`: the displayed width of
/// `c` in columns, or `None` for a control character.
#[verifier::external_body]
fn char_display_width(c: char) -> (r: Option<usize>)
    ensures
        r == char_width(c),
{
    unicode_width::UnicodeWidthChar::width(c)
}

/// Compact token count: below 1000 as is; below a million in thousands with
/// a `K`; else in millions with an `M`; rounded half up.
pub open spec fn token_label(n: nat) -> Seq<char> {
    if n >= 1_000_000 {
        decimal((n + 500_000) / 1_000_000).push('M')
    } else if n >= 1_000 {
        decimal((n + 500) / 1_000).push('K')
    } else {
        decimal(n)
    }
}

/// Formats a token count for the map, e.g. `999`, `2K`, `3M`.
pub fn format_tokens_integer_arithmetic(tokens: usize) -> (r: String)
    ensures
        r@ == token_label(tokens as nat),
{
    if tokens >= 1_000_000 {
        let millions = tokens / 1_000_000 + if tokens % 1_000_000 >= 500_000 { 1 } else { 0 };
        assert(millions == (tokens + 500_000) / 1_000_000);
        let mut r = String::new();
        push_decimal(&mut r, millions);
        crate::text::push_char(&mut r, 'M');
        assert(r@ =~= token_label(tokens as nat));
        r
    } else if tokens >= 1_000 {
        let thousands = (tokens + 500) / 1_000;
        let mut r = String::new();
        push_decimal(&mut r, thousands);
        crate::text::push_char(&mut r, 'K');
        assert(r@ =~= token_label(tokens as nat));
        r
    } else {
        decimal_string(tokens)
    }
}

/// `s` right-aligned in a field of `w` characters.
pub open spec fn pad_left(s: Seq<char>, w: nat) -> Seq<char> {
    if s.len() >= w {
        s
    } else {
        repeat_char(' ', (w - s.len()) as nat) + s
    }
}

fn pad_left_chars(s: &Vec<char>, w: usize) -> (r: Vec<char>)
    ensures
        r@ == pad_left(s@, w as nat),
{
    let mut r: Vec<char> = Vec::new();
    if s.len() < w {
        let n = w - s.len();
        let mut i: usize = 0;
        while i < n
            invariant
                i <= n,
                r@ == repeat_char(' ', i as nat),
            decreases n - i,
        {
            r.push(' ');
            i = i + 1;
            assert(r@ =~= repeat_char(' ', i as nat));
        }
    }
    append_chars(&mut r, s);
    assert(r@ =~= pad_left(s@, w as nat));
    r
}

/// Appends the characters of `w` to `v`.
fn append_chars(v: &mut Vec<char>, w: &Vec<char>)
    ensures
        final(v)@ == old(v)@ + w@,
{
    let mut i: usize = 0;
    while i < w.len()
        invariant
            i <= w@.len(),
            v@ == old(v)@ + w@.subrange(0, i as int),
        decreases w@.len() - i,
    {
        v.push(w[i]);
        i = i + 1;
        assert(v@ =~= old(v)@ + w@.subrange(0, i as int));
    }
    assert(w@.subrange(0, i as int) =~= w@);
}

/// Number of filled bar cells for `tokens` out of `total` on a bar of
/// `width` cells: the share rounded half up; none when the total is 0.
pub open spec fn filled_cells(tokens: nat, total: nat, width: nat) -> nat {
    if total == 0 {
        0
    } else {
        (2 * tokens * width + total) / (2 * total)
    }
}

/// The shade level of a row at `depth`: `max(depth, 1) % 4`, so the four
/// shades rotate with depth.
pub open spec fn shade_level(depth: nat) -> nat {
    (if depth == 0 { 1 } else { depth }) % 4
}

/// The shade that marks the part of a parent bar a row does not fill,
/// keyed by the shade level: 1 blank, 2 light, 3 medium, 0 dark.
pub open spec fn shade_char(depth: nat) -> char {
    let k = shade_level(depth);
    if k == 1 {
        ' '
    } else if k == 2 {
        '░'
    } else if k == 3 {
        '▒'
    } else {
        '▓'
    }
}

/// A bar of `width` cells: `filled` solid cells, then the parent's bar with
/// its solid cells shaded, then blanks past the parent's end.
pub open spec fn make_bar(width: nat, parent: Seq<char>, filled: nat, depth: nat) -> Seq<char> {
    Seq::new(width, |k: int|
        if k < filled {
            '█'
        } else if k < parent.len() {
            if parent[k] == '█' { shade_char(depth) } else { parent[k] }
        } else {
            ' '
        })
}

/// The filled-cell count of `filled_cells`, computed without overflow.
fn filled_count(tokens: usize, total: usize, width: usize) -> (r: u128)
    ensures
        r as nat == filled_cells(tokens as nat, total as nat, width as nat),
{
    if total == 0 {
        0
    } else {
        assert((tokens as int) * (width as int) <= 0xffff_ffff_ffff_ffffint * 0xffff_ffff_ffff_ffffint) by (nonlinear_arith)
            requires
                tokens <= 0xffff_ffff_ffff_ffffint,
                width <= 0xffff_ffff_ffff_ffffint,
        ;
        let prod: u128 = (tokens as u128) * (width as u128);
        let q: u128 = prod / (total as u128);
        let rem: u128 = prod % (total as u128);
        let up: u128 = if 2 * rem >= total as u128 { 1 } else { 0 };
        proof {
            let x = prod as int;
            let t = total as int;
            vstd::arithmetic::div_mod::lemma_fundamental_div_mod(x, t);
            vstd::arithmetic::div_mod::lemma_mod_pos_bound(x, t);
            assert(0 <= rem < total);
            assert(x == t * (q as int) + rem as int);
            let big = 2 * x + t;
            let rr = if up == 1 { 2 * (rem as int) - t } else { 2 * (rem as int) + t };
            assert(big == (q as int + up as int) * (2 * t) + rr) by (nonlinear_arith)
                requires
                    x == t * (q as int) + rem as int,
                    big == 2 * x + t,
                    rr == (if up == 1 { 2 * (rem as int) - t } else { 2 * (rem as int) + t }),
                    up == 0 || up == 1,
            ;
            vstd::arithmetic::div_mod::lemma_fundamental_div_mod_converse(big, 2 * t, q as int + up as int, rr);
            assert(2 * (tokens as int) * (width as int) + t == big) by (nonlinear_arith)
                requires
                    x == (tokens as int) * (width as int),
                    big == 2 * x + t,
            ;
        }
        q + up
    }
}

/// The bar of a row with `tokens` out of `total`, nested in `parent`.
pub fn generate_hierarchical_bar(bar_width: usize, parent: &Vec<char>, tokens: usize, total: usize, depth: usize) -> (r: Vec<char>)
    ensures
        r@ == make_bar(bar_width as nat, parent@, filled_cells(tokens as nat, total as nat, bar_width as nat), depth as nat),
{
    let filled = filled_count(tokens, total, bar_width);
    let key = (if depth == 0 { 1 } else { depth }) % 4;
    let shade = if key == 1 {
        ' '
    } else if key == 2 {
        '░'
    } else if key == 3 {
        '▒'
    } else {
        '▓'
    };
    let ghost target = make_bar(bar_width as nat, parent@, filled as nat, depth as nat);
    let mut r: Vec<char> = Vec::new();
    let mut i: usize = 0;
    while i < bar_width
        invariant
            i <= bar_width,
            shade == shade_char(depth as nat),
            target == make_bar(bar_width as nat, parent@, filled as nat, depth as nat),
            r@ == target.subrange(0, i as int),
        decreases bar_width - i,
    {
        let c = if (i as u128) < filled {
            '█'
        } else if i < parent.len() {
            let p = parent[i];
            if p == '█' { shade } else { p }
        } else {
            ' '
        };
        r.push(c);
        i = i + 1;
        assert(r@ =~= target.subrange(0, i as int));
    }
    assert(r@ =~= target);
    r
}

/// Some row after row `i` sits at depth `level`, with only deeper rows in
/// between: the guide line at that level continues below row `i`.
pub open spec fn sibling_below(rows: Seq<RowView>, i: int, level: nat) -> bool {
    exists|j: int| i < j < rows.len() && #[trigger] rows[j].depth == level
        && forall|m: int| i < m < j ==> #[trigger] rows[m].depth > level
}

/// The guide columns of row `i` for levels `1..=n`.
pub open spec fn guides(rows: Seq<RowView>, i: int, n: nat) -> Seq<char>
    decreases n,
{
    if n == 0 {
        Seq::<char>::empty()
    } else {
        guides(rows, i, (n - 1) as nat) + if sibling_below(rows, i, n) { seq!['│', ' '] } else { seq![' ', ' '] }
    }
}

pub open spec fn is_other_row(r: RowView) -> bool {
    r.name == OTHER_FILES@
}

/// The row right after row `i` is deeper: row `i` opens a branch.
pub open spec fn opens_branch(rows: Seq<RowView>, i: int) -> bool {
    i + 1 < rows.len() && rows[i + 1].depth > rows[i].depth
}

/// The tree-drawing prefix of row `i`: guides, the row's own connector, a
/// tee when the row opens a branch, and a space.
pub open spec fn prefix_of(rows: Seq<RowView>, i: int) -> Seq<char> {
    let e = rows[i];
    let other = is_other_row(e);
    let conn = if e.depth > 0 || other {
        if e.is_last { seq!['└', '─'] } else { seq!['├', '─'] }
    } else if i == 0 {
        seq!['┌', '─']
    } else {
        Seq::<char>::empty()
    };
    let tee = if e.depth > 0 || other || i == 0 {
        if opens_branch(rows, i) { seq!['┬'] } else { seq!['─'] }
    } else {
        Seq::<char>::empty()
    };
    guides(rows, i, e.depth) + conn + tee + seq![' ']
}

/// Width of a character for layout: control characters count 0.
pub open spec fn cell_width(c: char) -> nat {
    match char_width(c) {
        Some(w) => w as nat,
        None => 0,
    }
}

/// How many leading characters of `s` fit in `budget` columns.
pub open spec fn fit_count(s: Seq<char>, budget: nat) -> nat
    decreases s.len(),
{
    if s.len() == 0 {
        0
    } else if cell_width(s[0]) > budget {
        0
    } else {
        1 + fit_count(s.drop_first(), (budget - cell_width(s[0])) as nat)
    }
}

/// The name column of a row with `avail` columns left: a name that is too
/// wide is cut and ends in an ellipsis; one that fits is padded with spaces.
pub open spec fn name_cell(name: Seq<char>, avail: nat) -> Seq<char> {
    let w = str_width(name) as nat;
    if w > avail {
        name.subrange(0, fit_count(name, if avail >= 1 { (avail - 1) as nat } else { 0 }) as int).push('…')
    } else {
        name + repeat_char(' ', (avail - w) as nat)
    }
}

/// `100 * tokens / total` rounded to the nearest integer, ties to even; 0
/// when the total is 0.
pub open spec fn percent_rounded(tokens: nat, total: nat) -> nat {
    if total == 0 {
        0
    } else {
        let x = 100 * tokens;
        let q = x / total;
        let r = x % total;
        if 2 * r > total {
            q + 1
        } else if 2 * r < total {
            q
        } else if q % 2 == 1 {
            q + 1
        } else {
            q
        }
    }
}

/// The percentage column: the rounded share right-aligned in four
/// characters, then `%`.
pub open spec fn percent_label(tokens: nat, total: nat) -> Seq<char> {
    pad_left(decimal(percent_rounded(tokens, total)), 4).push('%')
}

pub open spec fn prefix_width(depth: nat) -> nat {
    if depth == 0 {
        3
    } else {
        2 * depth + 3
    }
}

/// Width of the token column: the widest count label among the rows and the
/// total, and at least 4.
pub open spec fn token_col_width(rows: Seq<RowView>, total: nat) -> nat
    decreases rows.len(),
{
    if rows.len() == 0 {
        if token_label(total).len() > 4 { token_label(total).len() } else { 4 }
    } else {
        let w = token_col_width(rows.drop_last(), total);
        let l = token_label(rows.last().tokens).len();
        if l > w { l } else { w }
    }
}

/// The widest prefix plus name among the rows.
pub open spec fn max_name_span(rows: Seq<RowView>) -> nat
    decreases rows.len(),
{
    if rows.len() == 0 {
        0
    } else {
        let w = max_name_span(rows.drop_last());
        let l = prefix_width(rows.last().depth) + str_width(rows.last().name) as nat;
        if l > w { l } else { w }
    }
}

/// Width of the name column: the widest prefix plus name, capped at half
/// the terminal width.
pub open spec fn name_col_width(rows: Seq<RowView>, tw: nat) -> nat {
    if max_name_span(rows) < tw / 2 { max_name_span(rows) } else { tw / 2 }
}

/// Width of the bar column: what the terminal leaves after the other
/// columns and the decorations, and at least 10.
pub open spec fn bar_col_width(tokw: nat, namew: nat, tw: nat) -> nat {
    let used = tokw + namew + 12;
    if tw >= used + 10 { (tw - used) as nat } else { 10 }
}

pub open spec fn parent_level(d: nat) -> nat {
    if d == 0 { 0 } else { (d - 1) as nat }
}

/// The bar of row `i`, nested in the bar of the last row before it at the
/// parent level.
pub open spec fn row_bar(rows: Seq<RowView>, total: nat, bw: nat, i: nat) -> Seq<char>
    decreases i, 1nat,
{
    make_bar(bw, last_bar(rows, total, bw, i, parent_level(rows[i as int].depth)),
        filled_cells(rows[i as int].tokens, total, bw), rows[i as int].depth)
}

/// The bar of the last row before row `i` at depth `d`; a full bar at depth
/// 0 and nothing at other depths when there is none.
pub open spec fn last_bar(rows: Seq<RowView>, total: nat, bw: nat, i: nat, d: nat) -> Seq<char>
    decreases i, 0nat,
{
    if i == 0 {
        if d == 0 { repeat_char('█', bw) } else { Seq::<char>::empty() }
    } else if rows[i - 1].depth == d {
        row_bar(rows, total, bw, (i - 1) as nat)
    } else {
        last_bar(rows, total, bw, (i - 1) as nat, d)
    }
}

/// Line `i` of the map of `rows` for a terminal `tw` columns wide.
pub open spec fn map_line(rows: Seq<RowView>, total: nat, tw: nat, i: int) -> Seq<char> {
    let tokw = token_col_width(rows, total);
    let namew = name_col_width(rows, tw);
    let bw = bar_col_width(tokw, namew, tw);
    let e = rows[i];
    let prefix = prefix_of(rows, i);
    let pw = str_width(prefix) as nat;
    let avail = if namew > pw { (namew - pw) as nat } else { 0 };
    pad_left(token_label(e.tokens), tokw) + seq![' ', ' ', ' '] + prefix + name_cell(e.name, avail)
        + seq![' ', '│'] + row_bar(rows, total, bw, i as nat) + seq!['│', ' '] + percent_label(e.tokens, total)
}

/// What is shown for a map without rows.
pub const EMPTY_MAP_MESSAGE: &'static str = "No files to display in token map.";

fn has_sibling_below(rows: &Vec<TokenMapEntry>, i: usize, level: usize) -> (r: bool)
    requires
        i < rows@.len(),
    ensures
        r == sibling_below(rows_view(rows@), i as int, level as nat),
{
    let ghost rv = rows_view(rows@);
    let n = rows.len();
    let mut j: usize = i + 1;
    while j < rows.len()
        invariant
            rv == rows_view(rows@),
            i < j <= rows@.len(),
            forall|m: int| i < m < j ==> #[trigger] rv[m].depth > level,
        decreases rows@.len() - j,
    {
        assert(rv[j as int] == rows@[j as int]@);
        if rows[j].depth < level {
            proof {
                assert forall|j2: int| i < j2 < rv.len() && #[trigger] rv[j2].depth == level implies
                    !(forall|m: int| i < m < j2 ==> #[trigger] rv[m].depth > level) by {
                    if j2 > j {
                        assert(rv[j as int].depth <= level);
                    }
                }
            }
            return false;
        }
        if rows[j].depth == level {
            proof {
                assert(i < j < rv.len() && rv[j as int].depth == level as nat);
                assert(forall|m: int| i < m < j ==> #[trigger] rv[m].depth > level);
            }
            return true;
        }
        j = j + 1;
    }
    proof {
        assert forall|j2: int| i < j2 < rv.len() && #[trigger] rv[j2].depth == level implies
            !(forall|m: int| i < m < j2 ==> #[trigger] rv[m].depth > level) by {
        }
    }
    false
}

/// The tree-drawing prefix of row `i` (see `prefix_of`).
fn tree_prefix(rows: &Vec<TokenMapEntry>, i: usize) -> (r: Vec<char>)
    requires
        i < rows@.len(),
    ensures
        r@ == prefix_of(rows_view(rows@), i as int),
{
    let ghost rv = rows_view(rows@);
    let n = rows.len();
    let e = &rows[i];
    assert(rv[i as int] == e@);
    let mut p: Vec<char> = Vec::new();
    let mut d: usize = 0;
    while d < e.depth
        invariant
            rv == rows_view(rows@),
            i < rows@.len(),
            *e == rows@[i as int],
            d <= e.depth,
            p@ == guides(rv, i as int, d as nat),
        decreases e.depth - d,
    {
        let below = has_sibling_below(rows, i, d + 1);
        if below {
            p.push('│');
            p.push(' ');
        } else {
            p.push(' ');
            p.push(' ');
        }
        d = d + 1;
        assert(p@ =~= guides(rv, i as int, d as nat));
    }
    let other_label = OTHER_FILES.to_owned();
    let other = e.name == other_label;
    let ghost g = p@;
    if e.depth > 0 || other {
        if e.is_last {
            p.push('└');
        } else {
            p.push('├');
        }
        p.push('─');
    } else if i == 0 {
        p.push('┌');
        p.push('─');
    }
    if e.depth > 0 || other || i == 0 {
        let opens = i + 1 < rows.len() && rows[i + 1].depth > e.depth;
        proof {
            if i + 1 < rows@.len() {
                assert(rv[i as int + 1] == rows@[i as int + 1]@);
            }
        }
        if opens {
            p.push('┬');
        } else {
            p.push('─');
        }
    }
    p.push(' ');
    assert(p@ =~= prefix_of(rv, i as int));
    p
}

proof fn lemma_fit_count_le(s: Seq<char>, budget: nat)
    ensures
        fit_count(s, budget) <= s.len(),
    decreases s.len(),
{
    if s.len() > 0 && cell_width(s[0]) <= budget {
        lemma_fit_count_le(s.drop_first(), (budget - cell_width(s[0])) as nat);
    }
}

/// The name column of a row (see `name_cell`).
fn name_cell_exec(name: &String, avail: usize) -> (r: Vec<char>)
    ensures
        r@ == name_cell(name@, avail as nat),
{
    let w = display_width(name.as_str());
    let cs = chars_of(name.as_str());
    if w > avail {
        let max_width: usize = if avail >= 1 { avail - 1 } else { 0 };
        let mut used: usize = 0;
        let mut take: usize = 0;
        let mut stop = false;
        assert(name@.skip(0) =~= name@);
        while !stop && take < cs.len()
            invariant
                cs@ == name@,
                take <= cs@.len(),
                used <= max_width,
                fit_count(name@, max_width as nat) == take + fit_count(name@.skip(take as int), (max_width - used) as nat),
                stop ==> fit_count(name@.skip(take as int), (max_width - used) as nat) == 0,
            decreases cs@.len() - take, if stop { 0int } else { 1int },
        {
            let cw: usize = match char_display_width(cs[take]) {
                Some(x) => x,
                None => 0,
            };
            proof {
                assert(name@.skip(take as int)[0] == cs@[take as int]);
                assert(name@.skip(take as int).drop_first() =~= name@.skip(take as int + 1));
            }
            if cw > max_width - used {
                stop = true;
            } else {
                used = used + cw;
                take = take + 1;
            }
        }
        proof {
            if take == cs@.len() {
                assert(name@.skip(take as int).len() == 0);
            }
            lemma_fit_count_le(name@, max_width as nat);
        }
        let mut r: Vec<char> = Vec::new();
        let mut k: usize = 0;
        while k < take
            invariant
                cs@ == name@,
                take <= cs@.len(),
                k <= take,
                r@ == name@.subrange(0, k as int),
            decreases take - k,
        {
            r.push(cs[k]);
            k = k + 1;
            assert(r@ =~= name@.subrange(0, k as int));
        }
        r.push('…');
        r
    } else {
        let mut r = cs;
        let n = avail - w;
        let mut k: usize = 0;
        while k < n
            invariant
                k <= n,
                r@ == name@ + repeat_char(' ', k as nat),
            decreases n - k,
        {
            r.push(' ');
            k = k + 1;
            assert(r@ =~= name@ + repeat_char(' ', k as nat));
        }
        r
    }
}

/// The percentage column of a row (see `percent_label`).
fn percent_label_exec(tokens: usize, total: usize) -> (r: Vec<char>)
    ensures
        r@ == percent_label(tokens as nat, total as nat),
{
    let rounded: u128 = if total == 0 {
        0
    } else {
        let x: u128 = 100 * (tokens as u128);
        let q: u128 = x / (total as u128);
        let rem: u128 = x % (total as u128);
        if 2 * rem > total as u128 {
            q + 1
        } else if 2 * rem < total as u128 {
            q
        } else if q % 2 == 1 {
            q + 1
        } else {
            q
        }
    };
    let mut digits: Vec<char> = Vec::new();
    crate::text::push_decimal_wide(&mut digits, rounded);
    assert(digits@ =~= decimal(rounded as nat));
    let mut r = pad_left_chars(&digits, 4);
    r.push('%');
    r
}

fn token_col_width_exec(rows: &Vec<TokenMapEntry>, total: usize) -> (r: usize)
    ensures
        r as nat == token_col_width(rows_view(rows@), total as nat),
{
    let ghost rv = rows_view(rows@);
    let tl = format_tokens_integer_arithmetic(total).unicode_len();
    let mut w: usize = if tl > 4 { tl } else { 4 };
    let mut k: usize = 0;
    assert(rv.subrange(0, 0).len() == 0);
    while k < rows.len()
        invariant
            rv == rows_view(rows@),
            k <= rows@.len(),
            w as nat == token_col_width(rv.subrange(0, k as int), total as nat),
        decreases rows@.len() - k,
    {
        let l = format_tokens_integer_arithmetic(rows[k].tokens).unicode_len();
        proof {
            assert(rv.subrange(0, k as int + 1).drop_last() =~= rv.subrange(0, k as int));
            assert(rv.subrange(0, k as int + 1).last() == rows@[k as int]@);
        }
        if l > w {
            w = l;
        }
        k = k + 1;
    }
    assert(rv.subrange(0, k as int) =~= rv);
    w
}

fn max_name_span_exec(rows: &Vec<TokenMapEntry>) -> (r: u128)
    ensures
        r as nat == max_name_span(rows_view(rows@)),
{
    let ghost rv = rows_view(rows@);
    let mut m: u128 = 0;
    let mut k: usize = 0;
    assert(rv.subrange(0, 0).len() == 0);
    while k < rows.len()
        invariant
            rv == rows_view(rows@),
            k <= rows@.len(),
            m as nat == max_name_span(rv.subrange(0, k as int)),
            m <= 0x3_ffff_ffff_ffff_fffe,
        decreases rows@.len() - k,
    {
        let d = rows[k].depth as u128;
        let pw: u128 = if d == 0 { 3 } else { 2 * d + 3 };
        let l: u128 = pw + display_width(rows[k].name.as_str()) as u128;
        proof {
            assert(rv.subrange(0, k as int + 1).drop_last() =~= rv.subrange(0, k as int));
            assert(rv.subrange(0, k as int + 1).last() == rows@[k as int]@);
        }
        if l > m {
            m = l;
        }
        k = k + 1;
    }
    assert(rv.subrange(0, k as int) =~= rv);
    m
}

/// The bar of the last row before row `i` at depth `d` (see `last_bar`).
fn last_bar_exec(rows: &Vec<TokenMapEntry>, bars: &Vec<Vec<char>>, i: usize, d: usize, bw: usize, total: usize) -> (r: Vec<char>)
    requires
        i <= rows@.len(),
        bars@.len() == i,
        forall|j: int| 0 <= j < i ==> (#[trigger] bars@[j])@ == row_bar(rows_view(rows@), total as nat, bw as nat, j as nat),
    ensures
        r@ == last_bar(rows_view(rows@), total as nat, bw as nat, i as nat, d as nat),
{
    let ghost rv = rows_view(rows@);
    let mut j: usize = i;
    while j > 0
        invariant
            rv == rows_view(rows@),
            j <= i,
            i <= rows@.len(),
            bars@.len() == i,
            forall|q: int| 0 <= q < i ==> (#[trigger] bars@[q])@ == row_bar(rv, total as nat, bw as nat, q as nat),
            last_bar(rv, total as nat, bw as nat, i as nat, d as nat) == last_bar(rv, total as nat, bw as nat, j as nat, d as nat),
        decreases j,
    {
        assert(rv[j - 1] == rows@[j - 1]@);
        if rows[j - 1].depth == d {
            let mut r: Vec<char> = Vec::new();
            append_chars(&mut r, &bars[j - 1]);
            assert(r@ =~= bars@[j - 1]@);
            return r;
        }
        j = j - 1;
    }
    let mut r: Vec<char> = Vec::new();
    if d == 0 {
        let mut k: usize = 0;
        while k < bw
            invariant
                k <= bw,
                r@ == repeat_char('█', k as nat),
            decreases bw - k,
        {
            r.push('█');
            k = k + 1;
            assert(r@ =~= repeat_char('█', k as nat));
        }
    }
    r
}

/// Lays the rows of a token map out as text lines for a terminal
/// `terminal_width` columns wide (see `map_line`); a map without rows is a
/// single line saying so.
#[verifier::rlimit(60)]
pub fn token_map_lines(rows: &Vec<TokenMapEntry>, total_tokens: usize, terminal_width: usize) -> (lines: Vec<String>)
    ensures
        rows@.len() == 0 ==> lines@.len() == 1 && lines@[0]@ == EMPTY_MAP_MESSAGE@,
        rows@.len() > 0 ==> lines@.len() == rows@.len(),
        rows@.len() > 0 ==> forall|i: int| 0 <= i < lines@.len() ==>
            (#[trigger] lines@[i])@ == map_line(rows_view(rows@), total_tokens as nat, terminal_width as nat, i),
{
    let ghost rv = rows_view(rows@);
    if rows.len() == 0 {
        let mut lines: Vec<String> = Vec::new();
        lines.push(EMPTY_MAP_MESSAGE.to_owned());
        return lines;
    }
    let tokw = token_col_width_exec(rows, total_tokens);
    let span = max_name_span_exec(rows);
    let half = terminal_width / 2;
    let namew: usize = if span < half as u128 { span as usize } else { half };
    let used: u128 = tokw as u128 + namew as u128 + 12;
    let bw: usize = if terminal_width as u128 >= used + 10 { (terminal_width as u128 - used) as usize } else { 10 };
    let ghost tw = terminal_width as nat;
    let ghost total = total_tokens as nat;
    assert(namew as nat == name_col_width(rv, tw));
    assert(bw as nat == bar_col_width(tokw as nat, namew as nat, tw));
    let mut bars: Vec<Vec<char>> = Vec::new();
    let mut lines: Vec<String> = Vec::new();
    let mut i: usize = 0;
    while i < rows.len()
        invariant
            rv == rows_view(rows@),
            rv.len() > 0,
            i <= rows@.len(),
            tokw as nat == token_col_width(rv, total),
            namew as nat == name_col_width(rv, tw),
            bw as nat == bar_col_width(tokw as nat, namew as nat, tw),
            total == total_tokens as nat,
            tw == terminal_width as nat,
            bars@.len() == i,
            forall|j: int| 0 <= j < i ==> (#[trigger] bars@[j])@ == row_bar(rv, total, bw as nat, j as nat),
            lines@.len() == i,
            forall|j: int| 0 <= j < i ==> (#[trigger] lines@[j])@ == map_line(rv, total, tw, j),
        decreases rows@.len() - i,
    {
        let e = &rows[i];
        assert(rv[i as int] == e@);
        let prefix = tree_prefix(rows, i);
        let pd: usize = if e.depth == 0 { 0 } else { e.depth - 1 };
        let parent = last_bar_exec(rows, &bars, i, pd, bw, total_tokens);
        let bar = generate_hierarchical_bar(bw, &parent, e.tokens, total_tokens, e.depth);
        assert(bar@ == row_bar(rv, total, bw as nat, i as nat));
        let pstr = string_of(&prefix);
        let pw = display_width(pstr.as_str());
        let avail: usize = if namew > pw { namew - pw } else { 0 };
        let name = name_cell_exec(&e.name, avail);
        let tok_label = format_tokens_integer_arithmetic(e.tokens);
        let tok_chars = chars_of(tok_label.as_str());
        let mut line = pad_left_chars(&tok_chars, tokw);
        line.push(' ');
        line.push(' ');
        line.push(' ');
        append_chars(&mut line, &prefix);
        append_chars(&mut line, &name);
        line.push(' ');
        line.push('│');
        append_chars(&mut line, &bar);
        line.push('│');
        line.push(' ');
        let pct = percent_label_exec(e.tokens, total_tokens);
        append_chars(&mut line, &pct);
        assert(line@ =~= map_line(rv, total, tw, i as int));
        lines.push(string_of(&line));
        bars.push(bar);
        i = i + 1;
    }
    lines
}

} // verus!
