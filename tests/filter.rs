use code2prompt::cache::{hash_content, hex_encode, CacheManager};
use code2prompt::config::RepoCachePath;
use code2prompt::filter::{include_decision, patterns_from_strings, should_include_file};
use globset::{Glob, GlobSet, GlobSetBuilder};

fn build_globset(patterns: &[String]) -> GlobSet {
    let mut builder = GlobSetBuilder::new();
    for p in patterns {
        if let Ok(glob) = Glob::new(p) {
            builder.add(glob);
        }
    }
    builder.build().unwrap()
}

fn compile_patterns(patterns: &[&str]) -> GlobSet {
    let owned: Vec<String> = patterns.iter().map(|p| p.to_string()).collect();
    build_globset(&owned)
}

#[test]
fn test_only_include_filters_correctly() {
    let include_set = build_globset(&["**/*.rs".to_string()]);
    let exclude_set = build_globset(&[]);
    assert!(should_include_file("src/main.rs", ".", &include_set, &exclude_set, false));
    assert!(!should_include_file("README.md", ".", &include_set, &exclude_set, false));
}

#[test]
fn test_only_exclude_filters_correctly() {
    let include_set = build_globset(&[]);
    let exclude_set = build_globset(&["**/*.log".to_string()]);
    assert!(should_include_file("src/main.rs", ".", &include_set, &exclude_set, false));
    assert!(!should_include_file("debug.log", ".", &include_set, &exclude_set, false));
}

#[test]
fn test_should_include_file_no_patterns() {
    let include_patterns = compile_patterns(&[]);
    let exclude_patterns = compile_patterns(&[]);
    assert!(should_include_file("src/main.rs", ".", &include_patterns, &exclude_patterns, false));
}

#[test]
fn test_should_exclude_file_with_patterns() {
    let include_patterns = compile_patterns(&[]);
    let exclude_patterns = compile_patterns(&["src/*.rs"]);
    assert!(!should_include_file("src/main.rs", ".", &include_patterns, &exclude_patterns, false));
}

#[test]
fn no_patterns_include_everything() {
    let empty = build_globset(&[]);
    for path in ["a", "deep/nested/file.txt", "weird name", ""] {
        assert!(should_include_file(path, ".", &empty, &empty, false));
    }
}

#[test]
fn include_priority_on_conflict() {
    let set = build_globset(&["**/*.py".to_string()]);
    assert!(should_include_file("lowercase/foo.py", ".", &set, &set, true));
    assert!(!should_include_file("lowercase/foo.py", ".", &set, &set, false));
}

#[test]
fn paths_are_matched_relative_to_the_root() {
    let wanted = build_globset(&["src/*.rs".to_string()]);
    let empty = build_globset(&[]);
    assert!(should_include_file("/repo/src/main.rs", "/repo", &wanted, &empty, false));
    assert!(!should_include_file("/repo/lib/main.rs", "/repo", &wanted, &empty, false));
    assert!(should_include_file("src\\main.rs", ".", &wanted, &empty, false));
}

#[test]
fn decision_table() {
    assert!(include_decision(true, true, false, false, false));
    assert!(include_decision(false, true, true, false, false));
    assert!(!include_decision(false, true, false, false, true));
    assert!(include_decision(true, false, false, false, false));
    assert!(!include_decision(true, false, false, true, false));
    assert!(include_decision(false, false, true, true, true));
    assert!(!include_decision(false, false, true, true, false));
}

#[test]
fn invalid_patterns_are_reported() {
    let ok = patterns_from_strings(&vec!["**/*.rs".to_string(), "src/[ab].rs".to_string()]).unwrap();
    assert_eq!(ok.len(), 2);
    assert!(ok[1].matches("src/a.rs"));
    let err = patterns_from_strings(&vec!["*.rs".to_string(), "a[".to_string(), "b[".to_string()]).unwrap_err();
    assert_eq!(err.pattern, "a[");
}

#[test]
fn sha256_hex_of_content() {
    assert_eq!(hash_content(""), "e3b0c44298fc1c149afbf4c8996fb92427ae41e4649b934ca495991b7852b855");
    assert_eq!(hash_content("abc"), "ba7816bf8f01cfea414140de5dae2223b00361a396177a9cb410ff61f20015ad");
    assert_eq!(hex_encode(&[0x00, 0x0f, 0xa5, 0xff]), "000fa5ff");
}

#[test]
fn cache_file_names() {
    let r = RepoCachePath::new("abc");
    assert_eq!(r.repo_hash, "ba7816bf8f01cfea414140de5dae2223b00361a396177a9cb410ff61f20015ad");
    assert_eq!(
        r.cache_file_name("selection", "json"),
        "selection_ba7816bf8f01cfea414140de5dae2223b00361a396177a9cb410ff61f20015ad.json"
    );
    let m = CacheManager::new("abc");
    assert_eq!(m.get_path_for("vars", "toml"), format!("vars_{}.toml", r.repo_hash));
}
