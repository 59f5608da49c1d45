use std::collections::HashMap;

use code2prompt::arena::{build_dir_arena, IS_DIR};
use code2prompt::config::FileSortMethod;
use code2prompt::matching::{
    filter_session_entries, find_substring_case_insensitive, parse_branch_pair, parse_key_val,
    paths_match_case_insensitive,
};
use code2prompt::model::ProcessedEntry;
use code2prompt::tree::WeightedTree;

fn entry(path: &str, ext: Option<&str>, tokens: usize, mtime: Option<u64>) -> ProcessedEntry {
    ProcessedEntry {
        path: format!("/repo/{}", path),
        relative_path: path.to_string(),
        is_file: true,
        code: None,
        extension: ext.map(|e| e.to_string()),
        token_count: Some(tokens),
        mtime,
    }
}

#[test]
fn arena_counts_every_component() {
    let paths = vec![
        entry("src/ui/tui.rs", Some("rs"), 10, None),
        entry("src/ui/cli.rs", Some("rs"), 20, None),
        entry("src/lib.rs", Some("rs"), 30, None),
        entry("README.md", Some("md"), 40, None),
    ];
    let mut slots = HashMap::new();
    slots.insert("rs".to_string(), 1u16);
    let arena = build_dir_arena(&paths, &slots);
    // root, src, ui, tui.rs, cli.rs, lib.rs, README.md
    assert_eq!(arena.len(), 7);
    let root = &arena[0];
    assert_eq!(root.name, "(root)");
    assert!(root.flags & IS_DIR != 0);
    assert_eq!(root.total_toks, 100);
    // each component of a path adds the path's count along its chain
    assert_eq!(root.file_count, 3 + 3 + 2 + 1);
    let find = |name: &str| arena.iter().position(|n| n.name == name).unwrap();
    let src = &arena[find("src")];
    assert!(src.flags & IS_DIR != 0);
    assert_eq!(src.total_toks, 60);
    assert_eq!(src.file_count, 3 + 3 + 2);
    let ui = &arena[find("ui")];
    assert_eq!(ui.total_toks, 30);
    let readme = &arena[find("README.md")];
    assert_eq!(readme.file_count, 1);
    assert!(readme.flags & IS_DIR == 0);
    assert_eq!(readme.ext_slot, 0);
    assert_eq!(arena[find("lib.rs")].ext_slot, 1);
    assert_eq!(readme.parent, Some(0));
}

#[test]
fn key_value_arguments() {
    assert_eq!(parse_key_val("issue=123"), Ok(("issue".to_string(), "123".to_string())));
    assert_eq!(parse_key_val("a=b=c"), Ok(("a".to_string(), "b=c".to_string())));
    assert_eq!(parse_key_val("=x"), Ok(("".to_string(), "x".to_string())));
    assert_eq!(parse_key_val("novalue"), Err("Variable must be in KEY=value format".to_string()));
}

#[test]
fn branch_pairs() {
    let two = Some(vec!["main".to_string(), "dev".to_string()]);
    assert_eq!(parse_branch_pair(&two), Some(("main".to_string(), "dev".to_string())));
    assert_eq!(parse_branch_pair(&Some(vec!["main".to_string()])), None);
    assert_eq!(parse_branch_pair(&None), None);
}

#[test]
fn substring_ignoring_case() {
    assert!(find_substring_case_insensitive(b"Hello World", b"WORLD"));
    assert!(find_substring_case_insensitive(b"abc", b""));
    assert!(!find_substring_case_insensitive(b"abc", b"abcd"));
    assert!(!find_substring_case_insensitive(b"abc", b"bd"));
}

#[test]
fn path_prefixes_ignoring_case() {
    assert!(paths_match_case_insensitive("Src/UI/tui.rs", "src/ui"));
    assert!(paths_match_case_insensitive("src/ui/tui.rs", "src/ui/tui.rs"));
    assert!(!paths_match_case_insensitive("src/ui", "src/ui/tui.rs"));
    assert!(!paths_match_case_insensitive("src/uix/a.rs", "src/ui"));
}

#[test]
fn session_filter_by_extension_and_path() {
    let mut entries = vec![
        entry("src/main.rs", Some("rs"), 1, None),
        entry("src/ui/tui.rs", Some("rs"), 1, None),
        entry("README.md", Some("md"), 1, None),
        entry("SRC/UI/notes.txt", Some("txt"), 1, None),
    ];
    filter_session_entries(&mut entries, &vec!["rs".to_string(), "txt".to_string()], &vec!["src/ui".to_string()]);
    let kept: Vec<&str> = entries.iter().map(|e| e.relative_path.as_str()).collect();
    assert_eq!(kept, vec!["src/ui/tui.rs", "SRC/UI/notes.txt"]);
    let mut all = vec![entry("a", None, 1, None)];
    filter_session_entries(&mut all, &Vec::new(), &Vec::new());
    assert_eq!(all.len(), 1);
}

#[test]
fn sorting_by_name_and_date() {
    let base = vec![
        entry("b/x.rs", None, 1, Some(30)),
        entry("a-b.rs", None, 1, None),
        entry("a/z.rs", None, 1, Some(10)),
        entry("c.rs", None, 1, Some(10)),
    ];
    let names = |v: &Vec<ProcessedEntry>| v.iter().map(|e| e.relative_path.clone()).collect::<Vec<_>>();
    let mut v = base.clone();
    FileSortMethod::NameAsc.apply(&mut v);
    // component by component: "a" comes before "a-b.rs"
    assert_eq!(names(&v), vec!["a/z.rs", "a-b.rs", "b/x.rs", "c.rs"]);
    let mut v = base.clone();
    FileSortMethod::NameDesc.apply(&mut v);
    assert_eq!(names(&v), vec!["c.rs", "b/x.rs", "a-b.rs", "a/z.rs"]);
    let mut v = base.clone();
    FileSortMethod::DateAsc.apply(&mut v);
    // unknown times first, equal times keep their order
    assert_eq!(names(&v), vec!["a-b.rs", "a/z.rs", "c.rs", "b/x.rs"]);
    let mut v = base.clone();
    FileSortMethod::DateDesc.apply(&mut v);
    assert_eq!(names(&v), vec!["b/x.rs", "a/z.rs", "c.rs", "a-b.rs"]);
}

#[test]
fn nodes_found_by_path() {
    let entries = vec![entry("src/a.rs", None, 5, None), entry("docs/readme.md", None, 2, None)];
    let tree = WeightedTree::from_entries(&entries);
    let i = tree.find_node_by_path("src/a.rs").unwrap();
    assert_eq!(tree.nodes[i].tokens, 5);
    assert_eq!(tree.nodes[i].name, "a.rs");
    let d = tree.find_node_by_path("/docs/").unwrap();
    assert_eq!(tree.nodes[d].path, "docs");
    assert_eq!(tree.find_node_by_path(""), Some(0));
    assert_eq!(tree.find_node_by_path("src/b.rs"), None);
    assert_eq!(tree.find_node_by_path("docs/readme.md/x"), None);
}
