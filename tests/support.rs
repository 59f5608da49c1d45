use code2prompt::code::{make_entry, path_extension, to_fwd_slash, wrap};
use code2prompt::config::{Code2PromptConfigBuilder, FileSortMethod, SettingFlag, TuiSettings};
use code2prompt::token::{count_tokens, get_model_info, TokenizerChoice};

#[test]
fn tokenizer_cycle_forward_and_back() {
    let all = [
        TokenizerChoice::O200kBase,
        TokenizerChoice::Cl100k,
        TokenizerChoice::P50kBase,
        TokenizerChoice::P50kEdit,
        TokenizerChoice::R50kBase,
    ];
    for (i, c) in all.iter().enumerate() {
        assert_eq!(c.next(), all[(i + 1) % 5]);
        assert_eq!(c.previous(), all[(i + 4) % 5]);
        assert_eq!(c.next().previous(), *c);
    }
    assert_eq!(TokenizerChoice::R50kBase.next(), TokenizerChoice::O200kBase);
    assert_eq!(TokenizerChoice::O200kBase.previous(), TokenizerChoice::R50kBase);
    assert_eq!(TokenizerChoice::default(), TokenizerChoice::Cl100k);
    assert_eq!(TokenizerChoice::P50kEdit.as_str(), "p50k_edit");
}

#[test]
fn model_info_per_encoding() {
    assert_eq!(get_model_info(TokenizerChoice::O200kBase), "GPT-4o models, o1 models");
    assert_eq!(get_model_info(TokenizerChoice::Cl100k), "ChatGPT models, text-embedding-ada-002");
    assert_eq!(get_model_info(TokenizerChoice::R50kBase), "GPT-3 models like davinci");
}

#[test]
fn counts_tokens_with_cl100k() {
    assert_eq!(count_tokens("hello world", TokenizerChoice::Cl100k), Ok(2));
    assert_eq!(count_tokens("", TokenizerChoice::Cl100k), Ok(0));
    let long = "fn main() { println!(\"hi\"); }".repeat(10);
    let n = count_tokens(&long, TokenizerChoice::O200kBase).unwrap();
    assert!(n > 10 && n < long.len());
}

#[test]
fn wrap_plain_block() {
    assert_eq!(wrap("let x = 1;", "rs", false, false), "```rs\nlet x = 1;```");
    assert_eq!(wrap("let x = 1;", "rs", true, true), "let x = 1;");
}

#[test]
fn wrap_with_line_numbers() {
    assert_eq!(wrap("a\r\nb\n\nc", "", true, false), "```\n   1 | a\n   2 | b\n   3 | \n   4 | c\n```");
    assert_eq!(wrap("x\n", "py", true, false), "```py\n   1 | x\n```");
    assert_eq!(wrap("", "py", true, false), "```py\n```");
}

#[test]
fn forward_slashes() {
    assert_eq!(to_fwd_slash("foo\\bar\\baz.rs"), "foo/bar/baz.rs");
    assert_eq!(to_fwd_slash("already/fine"), "already/fine");
}

#[test]
fn builder_defaults_and_overrides() {
    let c = Code2PromptConfigBuilder::new().build().unwrap();
    assert_eq!(c.path, ".");
    assert!(c.include_patterns.is_empty());
    assert_eq!(c.tokenizer, TokenizerChoice::Cl100k);
    assert!(!c.line_numbers && !c.hidden && c.sort.is_none());
    let mut b = Code2PromptConfigBuilder::new();
    b.path = Some("/src".to_string());
    b.line_numbers = Some(true);
    b.tokenizer = Some(TokenizerChoice::O200kBase);
    b.sort = Some(Some(FileSortMethod::DateDesc));
    b.include_patterns = Some(vec!["**/*.rs".to_string()]);
    let c = b.build().unwrap();
    assert_eq!(c.path, "/src");
    assert!(c.line_numbers);
    assert_eq!(c.tokenizer, TokenizerChoice::O200kBase);
    assert_eq!(c.sort, Some(FileSortMethod::DateDesc));
    assert_eq!(c.include_patterns, vec!["**/*.rs".to_string()]);
}

#[test]
fn settings_cycle() {
    let mut s = TuiSettings {
        line_numbers: false,
        hidden: true,
        follow_symlinks: false,
        no_codeblock: false,
        tokenizer: TokenizerChoice::Cl100k,
    };
    SettingFlag::Hidden.cycle_next(&mut s);
    assert!(!s.hidden);
    SettingFlag::LineNumbers.cycle_previous(&mut s);
    assert!(s.line_numbers);
    SettingFlag::Tokenizer.cycle_next(&mut s);
    assert_eq!(s.tokenizer, TokenizerChoice::P50kBase);
    SettingFlag::Tokenizer.cycle_previous(&mut s);
    SettingFlag::Tokenizer.cycle_previous(&mut s);
    assert_eq!(s.tokenizer, TokenizerChoice::O200kBase);
    assert_eq!(SettingFlag::NoCodeblock.label(), "Disable ``` code blocks");
}

#[test]
fn extensions_follow_the_last_dot() {
    assert_eq!(path_extension("src/main.rs"), Some("rs".to_string()));
    assert_eq!(path_extension("a/b.tar.gz"), Some("gz".to_string()));
    assert_eq!(path_extension("a/.bashrc"), None);
    assert_eq!(path_extension("Makefile"), None);
    assert_eq!(path_extension("a/b."), Some("".to_string()));
    assert_eq!(path_extension("a/.."), None);
    assert_eq!(path_extension("dir.d/"), Some("d".to_string()));
    assert_eq!(path_extension(""), None);
}

#[test]
fn entries_wrap_their_code() {
    let mut b = Code2PromptConfigBuilder::new();
    b.line_numbers = Some(true);
    let cfg = b.build().unwrap();
    let e = make_entry("/r/src/x.py", "src/x.py", Some("print(1)"), &cfg, Some(3), Some(7));
    assert_eq!(e.extension.as_deref(), Some("py"));
    assert_eq!(e.code.as_deref(), Some("```py\n   1 | print(1)\n```"));
    assert_eq!(e.token_count, Some(3));
    assert_eq!(e.mtime, Some(7));
    assert!(e.is_file);
    let none = make_entry("/r/README", "README", None, &cfg, None, None);
    assert_eq!(none.extension, None);
    assert_eq!(none.code, None);
}
