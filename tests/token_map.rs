use code2prompt::model::{EntryMetadata, ProcessedEntry, TokenMapEntry};
use code2prompt::render::{generate_token_map_with_limit, token_map_for_tree};
use code2prompt::select::select_nodes_to_display;
use code2prompt::tree::WeightedTree;
use code2prompt::view::{format_tokens_integer_arithmetic, generate_hierarchical_bar, token_map_lines};

fn file(path: &str, tokens: usize) -> ProcessedEntry {
    ProcessedEntry {
        path: format!("/repo/{}", path),
        relative_path: path.to_string(),
        is_file: true,
        code: None,
        extension: None,
        token_count: Some(tokens),
        mtime: None,
    }
}

fn file_tokens(rows: &[TokenMapEntry]) -> usize {
    rows.iter()
        .filter(|r| !r.metadata.is_dir && r.name != "(other files)")
        .map(|r| r.tokens)
        .sum()
}

fn three_files_in_two_dirs() -> Vec<ProcessedEntry> {
    vec![file("src/a.rs", 500), file("src/b.rs", 300), file("docs/readme.md", 200)]
}

#[test]
fn token_map_view_test_format_tokens_integer_arithmetic() {
    assert_eq!(format_tokens_integer_arithmetic(999), "999");
    assert_eq!(format_tokens_integer_arithmetic(1_000), "1K");
    assert_eq!(format_tokens_integer_arithmetic(1_499), "1K");
    assert_eq!(format_tokens_integer_arithmetic(1_500), "2K");
    assert_eq!(format_tokens_integer_arithmetic(1_501), "2K");
    assert_eq!(format_tokens_integer_arithmetic(1_999), "2K");
    assert_eq!(format_tokens_integer_arithmetic(1_000_000), "1M");
    assert_eq!(format_tokens_integer_arithmetic(2_499_999), "2M");
    assert_eq!(format_tokens_integer_arithmetic(2_500_000), "3M");
}

#[test]
fn token_map_view_test_test_format_tokens_integer_arithmetic() {
    assert_eq!(format_tokens_integer_arithmetic(999), "999");
    assert_eq!(format_tokens_integer_arithmetic(1_000), "1K");
    assert_eq!(format_tokens_integer_arithmetic(1_499), "1K");
    assert_eq!(format_tokens_integer_arithmetic(1_500), "2K");
    assert_eq!(format_tokens_integer_arithmetic(1_501), "2K");
    assert_eq!(format_tokens_integer_arithmetic(1_999), "2K");
    assert_eq!(format_tokens_integer_arithmetic(1_000_000), "1M");
    assert_eq!(format_tokens_integer_arithmetic(2_499_999), "2M");
    assert_eq!(format_tokens_integer_arithmetic(2_500_000), "3M");
}

#[test]
fn format_tokens_largest_count() {
    assert_eq!(format_tokens_integer_arithmetic(0), "0");
    assert_eq!(format_tokens_integer_arithmetic(usize::MAX), "18446744073710M");
}

#[test]
fn two_directories_three_files() {
    let entries = three_files_in_two_dirs();
    let tree = WeightedTree::from_entries(&entries);
    assert_eq!(tree.nodes[0].tokens, 1000);
    let rows = generate_token_map_with_limit(&entries, Some(20), Some(100));
    let got: Vec<(&str, usize, usize, bool)> =
        rows.iter().map(|r| (r.path.as_str(), r.tokens, r.depth, r.is_last)).collect();
    assert_eq!(
        got,
        vec![
            ("src", 800, 1, false),
            ("src/a.rs", 500, 2, false),
            ("src/b.rs", 300, 2, true),
            ("docs", 200, 1, true),
            ("docs/readme.md", 200, 2, true),
        ]
    );
    assert!(rows.iter().all(|r| r.name != "(other files)"));
    assert!(rows[0].metadata.is_dir);
    assert!(!rows[1].metadata.is_dir);
    assert_eq!(rows[4].name, "readme.md");
}

#[test]
fn admission_prefers_more_tokens() {
    let entries = three_files_in_two_dirs();
    let tree = WeightedTree::from_entries(&entries);
    let sel = select_nodes_to_display(&tree, 1000, 20, 100);
    let paths: Vec<&str> = sel.order.iter().map(|&i| tree.nodes[i].path.as_str()).collect();
    assert_eq!(paths, vec!["src", "src/a.rs", "src/b.rs", "docs", "docs/readme.md"]);
    assert_eq!(sel.depths, vec![0, 1, 1, 0, 1]);
}

#[test]
fn fifty_equal_files_fill_the_budget() {
    let entries: Vec<ProcessedEntry> = (0..50).map(|i| file(&format!("f{:02}.txt", i), 10)).collect();
    let rows = generate_token_map_with_limit(&entries, Some(5), Some(100));
    assert_eq!(rows.len(), 5);
    let last = &rows[4];
    assert_eq!(last.name, "(other files)");
    assert_eq!(last.path, "(other files)");
    assert_eq!(last.tokens, 460);
    assert_eq!(last.depth, 0);
    assert!(last.is_last);
    let pct = last.tokens as f64 / 500.0 * 100.0;
    assert_eq!(pct, 92.0);
    // the later paths win the ties; equal siblings are then listed by name
    let names: Vec<&str> = rows[..4].iter().map(|r| r.name.as_str()).collect();
    assert_eq!(names, vec!["f46.txt", "f47.txt", "f48.txt", "f49.txt"]);
}

#[test]
fn empty_input_gives_empty_map() {
    let entries: Vec<ProcessedEntry> = Vec::new();
    let tree = WeightedTree::from_entries(&entries);
    assert_eq!(tree.nodes[0].tokens, 0);
    assert_eq!(tree.nodes.len(), 1);
    let sel = select_nodes_to_display(&tree, 0, 20, 100);
    assert!(sel.order.is_empty());
    assert!(generate_token_map_with_limit(&entries, None, None).is_empty());
}

#[test]
fn zero_token_file_is_skipped() {
    let entries = vec![file("a.txt", 0)];
    let tree = WeightedTree::from_entries(&entries);
    assert_eq!(tree.nodes[0].tokens, 0);
    assert_eq!(tree.nodes.len(), 1);
    assert!(generate_token_map_with_limit(&entries, None, None).is_empty());
}

#[test]
fn skipped_entries_add_nothing() {
    let mut dir = file("src", 40);
    dir.is_file = false;
    let mut unknown = file("src/c.rs", 0);
    unknown.token_count = None;
    let entries = vec![dir, unknown, file("src//a.rs/", 7), file("", 9)];
    let tree = WeightedTree::from_entries(&entries);
    assert_eq!(tree.nodes[0].tokens, 7);
    assert_eq!(tree.calculate_file_tokens(), 7);
    let rows = generate_token_map_with_limit(&entries, None, None);
    assert_eq!(rows.len(), 2);
    assert_eq!(rows[1].path, "src/a.rs");
}

#[test]
fn directory_tokens_are_sums() {
    let entries = vec![file("a/b/c.rs", 3), file("a/b/d.rs", 4), file("a/e.rs", 5), file("f.rs", 6)];
    let tree = WeightedTree::from_entries(&entries);
    assert_eq!(tree.nodes[0].tokens, 18);
    for node in &tree.nodes {
        let is_dir = node.metadata.map(|m| m.is_dir).unwrap_or(true);
        if is_dir && !node.children.is_empty() {
            let sum: usize = node.children.iter().map(|&c| tree.nodes[c].tokens).sum();
            assert_eq!(node.tokens, sum, "node {}", node.path);
        }
    }
    assert_eq!(tree.calculate_file_tokens(), 18);
}

#[test]
fn budget_is_respected() {
    let entries: Vec<ProcessedEntry> =
        (0..30).map(|i| file(&format!("d{}/f{}.rs", i % 4, i), i + 1)).collect();
    let tree = WeightedTree::from_entries(&entries);
    for max_lines in 0..40 {
        let sel = select_nodes_to_display(&tree, tree.nodes[0].tokens, max_lines, 100);
        assert!(sel.order.len() <= max_lines.saturating_sub(1));
    }
    assert!(select_nodes_to_display(&tree, tree.nodes[0].tokens, 1, 100).order.is_empty());
}

#[test]
fn same_input_same_rows() {
    let entries: Vec<ProcessedEntry> =
        (0..12).map(|i| file(&format!("p{}/q{}.rs", i % 3, i), 10)).collect();
    let tree = WeightedTree::from_entries(&entries);
    let a = token_map_for_tree(&tree, 6, 100);
    let b = token_map_for_tree(&tree, 6, 100);
    assert_eq!(a, b);
    let c = generate_token_map_with_limit(&entries, Some(6), Some(100));
    let d = generate_token_map_with_limit(&entries, Some(6), Some(100));
    assert_eq!(c, d);
    assert_eq!(token_map_lines(&c, 120, 80), token_map_lines(&d, 120, 80));
}

#[test]
fn displayed_and_hidden_cover_file_tokens() {
    let entries: Vec<ProcessedEntry> =
        (0..20).map(|i| file(&format!("m{}/n{}.rs", i % 5, i), 3 * i + 1)).collect();
    let tree = WeightedTree::from_entries(&entries);
    let total_files = tree.calculate_file_tokens();
    for max_lines in [2usize, 4, 7, 30] {
        let rows = token_map_for_tree(&tree, max_lines, 100);
        let shown = file_tokens(&rows);
        let hidden = rows.iter().find(|r| r.name == "(other files)").map(|r| r.tokens).unwrap_or(0);
        assert_eq!(shown + hidden, total_files);
    }
}

#[test]
fn percentages_stay_in_range() {
    let entries: Vec<ProcessedEntry> =
        (0..25).map(|i| file(&format!("x{}/y{}/z{}.rs", i % 2, i % 5, i), 7 * i + 2)).collect();
    let tree = WeightedTree::from_entries(&entries);
    let total = tree.nodes[0].tokens;
    for max_lines in [1usize, 3, 8, 50] {
        for row in token_map_for_tree(&tree, max_lines, 100) {
            let pct = row.tokens as f64 / total as f64 * 100.0;
            assert!((0.0..=100.0).contains(&pct), "{} {}", row.path, pct);
        }
    }
}

#[test]
fn min_percent_filters_small_files_but_not_directories() {
    let entries = vec![file("big.rs", 990), file("dir/tiny.rs", 1), file("small.rs", 9)];
    // 1% of 1000 is 10 tokens: small.rs and tiny.rs are too small, dir stays.
    let rows = generate_token_map_with_limit(&entries, Some(20), Some(1000));
    let paths: Vec<&str> = rows.iter().map(|r| r.path.as_str()).collect();
    assert_eq!(paths, vec!["big.rs", "dir", "(other files)"]);
    assert_eq!(rows[2].tokens, 10);
}

#[test]
fn single_file_line_layout() {
    let rows = vec![TokenMapEntry {
        path: "a.txt".to_string(),
        name: "a.txt".to_string(),
        tokens: 100,
        depth: 1,
        is_last: true,
        metadata: EntryMetadata { is_dir: false, is_symlink: false },
    }];
    let lines = token_map_lines(&rows, 100, 80);
    let expected = format!(" 100     └── a.t… │{}│  100%", "█".repeat(54));
    assert_eq!(lines, vec![expected]);
}

#[test]
fn empty_map_message() {
    assert_eq!(token_map_lines(&Vec::new(), 0, 80), vec!["No files to display in token map.".to_string()]);
}

#[test]
fn nested_bars_shade_the_parent() {
    let entries = three_files_in_two_dirs();
    let rows = generate_token_map_with_limit(&entries, Some(20), Some(100));
    let lines = token_map_lines(&rows, 1000, 100);
    assert_eq!(lines.len(), 5);
    assert!(lines[0].contains("├─┬ src"));
    assert!(lines[1].contains("│ ├── a.rs"));
    // the widest name loses its last character to the connector column
    assert!(lines[4].contains("    └── readme.… │"));
    assert!(lines[0].ends_with("  80%"));
    assert!(lines[1].contains('░'));
}

#[test]
fn hierarchical_bar_cells() {
    let parent: Vec<char> = "████      ".chars().collect();
    let bar = generate_hierarchical_bar(10, &parent, 1, 10, 2);
    assert_eq!(bar.iter().collect::<String>(), "█░░░      ");
    let bar = generate_hierarchical_bar(10, &parent, 5, 10, 3);
    assert_eq!(bar.iter().collect::<String>(), "█████     ");
    let none = generate_hierarchical_bar(4, &Vec::new(), 0, 0, 1);
    assert_eq!(none.iter().collect::<String>(), "    ");
}

#[test]
fn wide_names_are_measured_in_columns() {
    let rows = vec![TokenMapEntry {
        path: "日本語.rs".to_string(),
        name: "日本語.rs".to_string(),
        tokens: 5,
        depth: 1,
        is_last: true,
        metadata: EntryMetadata { is_dir: false, is_symlink: false },
    }];
    // the name is 9 columns wide: the name column is 5 + 9 = 14 wide and the
    // prefix takes 6, so 8 are left; 7 of them hold the three wide
    // characters and the dot, the ellipsis takes the last one.
    let lines = token_map_lines(&rows, 5, 80);
    assert!(lines[0].contains("└── 日本語.… │"), "{}", lines[0]);
}

#[test]
fn shades_rotate_every_four_levels() {
    let parent: Vec<char> = "██████████".chars().collect();
    let at = |d: usize| generate_hierarchical_bar(10, &parent, 0, 10, d).iter().collect::<String>();
    assert_eq!(at(2), "░░░░░░░░░░");
    assert_eq!(at(3), "▒▒▒▒▒▒▒▒▒▒");
    assert_eq!(at(4), "▓▓▓▓▓▓▓▓▓▓");
    assert_eq!(at(5), "          ");
    assert_eq!(at(6), at(2));
    assert_eq!(at(0), at(1));
    assert_eq!(at(9), at(5));
}

#[test]
fn defaults_match_explicit_values() {
    let entries: Vec<ProcessedEntry> = (0..40).map(|i| file(&format!("d{}/f{}.rs", i % 6, i), i + 1)).collect();
    assert_eq!(
        generate_token_map_with_limit(&entries, None, None),
        generate_token_map_with_limit(&entries, Some(20), Some(100))
    );
}
