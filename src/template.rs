//! Discovery of the user variables that a prompt template asks for.

use vstd::prelude::*;

verus! {

/// The top-level elements of template `t`, when it parses: for each
/// expression element `{{...}}`, the text of the name it refers to (a plain
/// name or a path such as `user.name`); nothing for any other element.
pub uninterp spec fn template_expression_names(t: Seq<char>) -> Option<Seq<Option<Seq<char>>>>;

/// The views of a list of optional names.
pub open spec fn option_views(v: Seq<Option<String>>) -> Seq<Option<Seq<char>>> {
    v.map_values(|o: Option<String>| match o {
        Some(s) => Some(s@),
        None => None,
    })
}

/// Relies on `handlebars::Template::compile`, which parses `template`
/// (failing on a syntax error) into its top-level elements, and on
/// `Parameter::as_name`, which gives the text of an expression's name. The
/// outcome depends on the text alone.
#[verifier::external_body]
fn expression_names(template: &str) -> (r: Option<Vec<Option<String>>>)
    ensures
        r is None <==> template_expression_names(template@) is None,
        r matches Some(v) ==> template_expression_names(template@) == Some(option_views(v@)),
{
    match handlebars::Template::compile(template) {
        Ok(t) => Some(t.elements.into_iter().map(|e| match e {
            handlebars::template::TemplateElement::Expression(h) => h.name.as_name().map(str::to_owned),
            _ => None,
        }).collect()),
        Err(_) => None,
    }
}

/// Names that the prompt fills in by itself.
pub open spec fn builtin_names() -> Seq<Seq<char>> {
    seq![
        "path"@,
        "code"@,
        "git_diff"@,
        "source_tree"@,
        "absolute_code_path"@,
        "files"@,
        "git_diff_branch"@,
        "git_log_branch"@,
    ]
}

/// A name made of identifier characters only: not a path such as
/// `user.name`, `../x` or `@root`.
pub open spec fn is_plain_name(n: Seq<char>) -> bool {
    &&& n.len() > 0
    &&& forall|k: int| 0 <= k < n.len() ==> {
        let c = #[trigger] n[k];
        c != '.' && c != '/' && c != '@' && c != '[' && c != ']'
    }
}

/// The user variables among `names`: each plain name that is not built in,
/// once, in order of first appearance.
pub open spec fn placeholders_of(names: Seq<Option<Seq<char>>>) -> Seq<Seq<char>>
    decreases names.len(),
{
    if names.len() == 0 {
        Seq::<Seq<char>>::empty()
    } else {
        let p = placeholders_of(names.drop_last());
        match names.last() {
            Some(n) => if !is_plain_name(n) || builtin_names().contains(n) || p.contains(n) { p } else { p.push(n) },
            None => p,
        }
    }
}

/// A template that does not parse.
#[derive(Clone, Copy, Debug, PartialEq, Eq, Structural)]
pub struct TemplateParseError;

fn contains_string(v: &Vec<String>, n: &String) -> (r: bool)
    ensures
        r == views_contain(v@, n@),
{
    let mut k: usize = 0;
    while k < v.len()
        invariant
            k <= v@.len(),
            forall|q: int| 0 <= q < k ==> #[trigger] v@[q]@ != n@,
        decreases v@.len() - k,
    {
        if v[k] == *n {
            assert(v@.map_values(|s: String| s@)[k as int] == n@);
            return true;
        }
        k = k + 1;
    }
    let ghost vv = v@.map_values(|s: String| s@);
    assert(!vv.contains(n@)) by {
        if vv.contains(n@) {
            let q = choose|q: int| 0 <= q < vv.len() && #[trigger] vv[q] == n@;
            assert(v@[q]@ == n@);
        }
    }
    false
}

/// Some element of `v` has the view `n`.
pub open spec fn views_contain(v: Seq<String>, n: Seq<char>) -> bool {
    v.map_values(|s: String| s@).contains(n)
}

fn plain_name(n: &String) -> (r: bool)
    ensures
        r == is_plain_name(n@),
{
    let cs = crate::text::chars_of(n.as_str());
    if cs.len() == 0 {
        return false;
    }
    let mut k: usize = 0;
    while k < cs.len()
        invariant
            cs@ == n@,
            k <= cs@.len(),
            forall|q: int| 0 <= q < k ==> {
                let c = #[trigger] n@[q];
                c != '.' && c != '/' && c != '@' && c != '[' && c != ']'
            },
        decreases cs@.len() - k,
    {
        let c = cs[k];
        if c == '.' || c == '/' || c == '@' || c == '[' || c == ']' {
            return false;
        }
        k = k + 1;
    }
    true
}

fn builtin_list() -> (r: Vec<String>)
    ensures
        r@.map_values(|s: String| s@) == builtin_names(),
{
    let mut r: Vec<String> = Vec::new();
    r.push("path".to_owned());
    r.push("code".to_owned());
    r.push("git_diff".to_owned());
    r.push("source_tree".to_owned());
    r.push("absolute_code_path".to_owned());
    r.push("files".to_owned());
    r.push("git_diff_branch".to_owned());
    r.push("git_log_branch".to_owned());
    assert(r@.map_values(|s: String| s@) =~= builtin_names());
    r
}

/// The user variables among the expression names of a parsed template
/// (see `placeholders_of`).
pub fn placeholders_from_names(names: &Vec<Option<String>>) -> (r: Vec<String>)
    ensures
        r@.map_values(|s: String| s@) == placeholders_of(option_views(names@)),
{
    let ghost nv = option_views(names@);
    let builtins = builtin_list();
    let mut out: Vec<String> = Vec::new();
    let mut k: usize = 0;
    assert(nv.subrange(0, 0) =~= Seq::<Option<Seq<char>>>::empty());
    while k < names.len()
        invariant
            nv == option_views(names@),
            builtins@.map_values(|s: String| s@) == builtin_names(),
            k <= names@.len(),
            out@.map_values(|s: String| s@) == placeholders_of(nv.subrange(0, k as int)),
        decreases names@.len() - k,
    {
        proof {
            let p = nv.subrange(0, k as int + 1);
            assert(p.drop_last() =~= nv.subrange(0, k as int));
            assert(p.last() == nv[k as int]);
        }
        match &names[k] {
            Some(n) => {
                let plain = plain_name(n);
                let is_builtin = contains_string(&builtins, n);
                let seen = contains_string(&out, n);
                if plain && !is_builtin && !seen {
                    let ghost before = out@;
                    out.push(n.clone());
                    assert(out@.map_values(|s: String| s@) =~= before.map_values(|s: String| s@).push(n@));
                }
            },
            None => {},
        }
        k = k + 1;
    }
    assert(nv.subrange(0, k as int) =~= nv);
    out
}

/// The user variables that `template_str` asks for (see `placeholders_of`),
/// or an error when it does not parse.
pub fn extract_placeholders(template_str: &str) -> (r: Result<Vec<String>, TemplateParseError>)
    ensures
        r is Err <==> template_expression_names(template_str@) is None,
        r matches Ok(v) ==> template_expression_names(template_str@) matches Some(names)
            && v@.map_values(|s: String| s@) == placeholders_of(names),
{
    match expression_names(template_str) {
        Some(names) => Ok(placeholders_from_names(&names)),
        None => Err(TemplateParseError),
    }
}

} // verus!
