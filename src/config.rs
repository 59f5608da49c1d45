//! Configuration records: run options, the configuration file, the
//! interactive settings and the small caches kept between runs.

use vstd::prelude::*;
use std::collections::HashMap;
use crate::token::TokenizerChoice;

verus! {

/// Output format of the generated prompt.
#[derive(Clone, Copy, Debug, PartialEq, Eq, Structural)]
pub enum OutputFormat {
    Markdown,
    Json,
    Xml,
}

impl OutputFormat {
    /// The format's name, e.g. `markdown`.
    pub fn as_str(&self) -> (r: &'static str)
        ensures
            r@ == match self {
                OutputFormat::Markdown => "markdown"@,
                OutputFormat::Json => "json"@,
                OutputFormat::Xml => "xml"@,
            },
    {
        match self {
            OutputFormat::Markdown => "markdown",
            OutputFormat::Json => "json",
            OutputFormat::Xml => "xml",
        }
    }
}

impl Default for OutputFormat {
    fn default() -> (r: OutputFormat)
        ensures
            r == OutputFormat::Markdown,
    {
        OutputFormat::Markdown
    }
}

/// How the token count of the prompt is printed.
#[derive(Clone, Copy, Debug, PartialEq, Eq, Structural)]
pub enum TokenFormat {
    /// Human readable.
    Format,
    /// Machine parsable.
    Raw,
}

impl TokenFormat {
    /// The format's name, e.g. `raw`.
    pub fn as_str(&self) -> (r: &'static str)
        ensures
            r@ == match self {
                TokenFormat::Format => "format"@,
                TokenFormat::Raw => "raw"@,
            },
    {
        match self {
            TokenFormat::Format => "format",
            TokenFormat::Raw => "raw",
        }
    }
}

impl Default for TokenFormat {
    fn default() -> (r: TokenFormat)
        ensures
            r == TokenFormat::Format,
    {
        TokenFormat::Format
    }
}

/// The style used to format a token count.
#[derive(Clone, Copy, Debug, PartialEq, Eq, Structural)]
pub enum TokenFormatStyle {
    /// A compact format suitable for narrow columns (e.g. "3.2k", "11k").
    Compact,
    /// The format of the token map (e.g. "123K", "2M").
    TokenMap,
}

/// The order in which files are listed.
#[derive(Clone, Copy, Debug, PartialEq, Eq, Structural)]
pub enum FileSortMethod {
    NameAsc,
    NameDesc,
    DateAsc,
    DateDesc,
}

impl Default for FileSortMethod {
    fn default() -> (r: FileSortMethod)
        ensures
            r == FileSortMethod::NameAsc,
    {
        FileSortMethod::NameAsc
    }
}

/// What a directory walk collects.
#[derive(Clone, Copy, Debug, PartialEq, Eq, Structural)]
pub enum ProcessingMode {
    FullProcess,
    ExtensionCollection,
}

/// The serialization format of a cache file.
#[derive(Clone, Copy, Debug, PartialEq, Eq, Structural)]
pub enum CacheFormat {
    Json,
    Toml,
}

/// The options of one run. Glob patterns are kept as their source text.
#[derive(Clone, Debug)]
pub struct Code2PromptConfig {
    pub path: String,
    pub include_patterns: Vec<String>,
    pub exclude_patterns: Vec<String>,
    pub include_priority: bool,
    pub line_numbers: bool,
    pub absolute_path: bool,
    pub full_directory_tree: bool,
    pub no_codeblock: bool,
    pub tokenizer: TokenizerChoice,
    pub token_map_enabled: bool,
    pub no_ignore: bool,
    pub hidden: bool,
    pub follow_symlinks: bool,
    pub sort: Option<FileSortMethod>,
}

/// Collects the options of a run; unset options take their defaults.
#[derive(Clone, Debug)]
pub struct Code2PromptConfigBuilder {
    pub path: Option<String>,
    pub include_patterns: Option<Vec<String>>,
    pub exclude_patterns: Option<Vec<String>>,
    pub include_priority: Option<bool>,
    pub line_numbers: Option<bool>,
    pub absolute_path: Option<bool>,
    pub full_directory_tree: Option<bool>,
    pub no_codeblock: Option<bool>,
    pub tokenizer: Option<TokenizerChoice>,
    pub token_map_enabled: Option<bool>,
    pub no_ignore: Option<bool>,
    pub hidden: Option<bool>,
    pub follow_symlinks: Option<bool>,
    pub sort: Option<Option<FileSortMethod>>,
}

/// Why a configuration could not be built.
#[derive(Clone, Debug)]
pub enum Code2PromptConfigBuilderError {
    UninitializedField(&'static str),
    ValidationError(String),
}

pub open spec fn or_default<T>(o: Option<T>, d: T) -> T {
    match o {
        Some(v) => v,
        None => d,
    }
}

fn flag(o: Option<bool>) -> (r: bool)
    ensures
        r == or_default(o, false),
{
    match o {
        Some(v) => v,
        None => false,
    }
}

impl Code2PromptConfigBuilder {
    /// A builder with nothing set.
    pub fn new() -> (r: Code2PromptConfigBuilder)
        ensures
            r.path is None && r.include_patterns is None && r.exclude_patterns is None,
            r.include_priority is None && r.line_numbers is None && r.absolute_path is None,
            r.full_directory_tree is None && r.no_codeblock is None && r.tokenizer is None,
            r.token_map_enabled is None && r.no_ignore is None && r.hidden is None,
            r.follow_symlinks is None && r.sort is None,
    {
        Code2PromptConfigBuilder {
            path: None,
            include_patterns: None,
            exclude_patterns: None,
            include_priority: None,
            line_numbers: None,
            absolute_path: None,
            full_directory_tree: None,
            no_codeblock: None,
            tokenizer: None,
            token_map_enabled: None,
            no_ignore: None,
            hidden: None,
            follow_symlinks: None,
            sort: None,
        }
    }

    /// The configuration: each option as set, or its default (path `.`, no
    /// patterns, tokenizer `Cl100k`, no sort order, every flag off). Every
    /// option has a default, so building always succeeds.
    pub fn build(&self) -> (r: Result<Code2PromptConfig, Code2PromptConfigBuilderError>)
        ensures
            r matches Ok(c) && {
                &&& c.path@ == match self.path { Some(p) => p@, None => "."@ }
                &&& c.include_patterns@ == match self.include_patterns { Some(v) => v@, None => Seq::empty() }
                &&& c.exclude_patterns@ == match self.exclude_patterns { Some(v) => v@, None => Seq::empty() }
                &&& c.include_priority == or_default(self.include_priority, false)
                &&& c.line_numbers == or_default(self.line_numbers, false)
                &&& c.absolute_path == or_default(self.absolute_path, false)
                &&& c.full_directory_tree == or_default(self.full_directory_tree, false)
                &&& c.no_codeblock == or_default(self.no_codeblock, false)
                &&& c.tokenizer == or_default(self.tokenizer, TokenizerChoice::Cl100k)
                &&& c.token_map_enabled == or_default(self.token_map_enabled, false)
                &&& c.no_ignore == or_default(self.no_ignore, false)
                &&& c.hidden == or_default(self.hidden, false)
                &&& c.follow_symlinks == or_default(self.follow_symlinks, false)
                &&& c.sort == or_default(self.sort, None)
            },
    {
        let path = match &self.path {
            Some(p) => p.clone(),
            None => ".".to_owned(),
        };
        let include_patterns = match &self.include_patterns {
            Some(v) => clone_strings(v),
            None => Vec::new(),
        };
        let exclude_patterns = match &self.exclude_patterns {
            Some(v) => clone_strings(v),
            None => Vec::new(),
        };
        let tokenizer = match self.tokenizer {
            Some(t) => t,
            None => TokenizerChoice::Cl100k,
        };
        let sort = match self.sort {
            Some(s) => s,
            None => None,
        };
        Ok(Code2PromptConfig {
            path,
            include_patterns,
            exclude_patterns,
            include_priority: flag(self.include_priority),
            line_numbers: flag(self.line_numbers),
            absolute_path: flag(self.absolute_path),
            full_directory_tree: flag(self.full_directory_tree),
            no_codeblock: flag(self.no_codeblock),
            tokenizer,
            token_map_enabled: flag(self.token_map_enabled),
            no_ignore: flag(self.no_ignore),
            hidden: flag(self.hidden),
            follow_symlinks: flag(self.follow_symlinks),
            sort,
        })
    }
}

/// A copy of a list of strings.
pub fn clone_strings(v: &Vec<String>) -> (r: Vec<String>)
    ensures
        r@ == v@,
{
    let mut r: Vec<String> = Vec::new();
    let mut i: usize = 0;
    while i < v.len()
        invariant
            i <= v@.len(),
            r@ == v@.subrange(0, i as int),
        decreases v@.len() - i,
    {
        r.push(v[i].clone());
        i = i + 1;
        assert(r@ =~= v@.subrange(0, i as int));
    }
    assert(r@ =~= v@);
    r
}

/// The settings that can be changed in the interactive selector.
#[derive(Clone, Debug, PartialEq, Eq, Structural)]
pub struct TuiSettings {
    pub line_numbers: bool,
    pub hidden: bool,
    pub follow_symlinks: bool,
    pub no_codeblock: bool,
    pub tokenizer: TokenizerChoice,
}

/// One line of the settings menu.
#[derive(Clone, Copy, Debug, PartialEq, Eq, Structural)]
pub enum SettingFlag {
    LineNumbers,
    Hidden,
    FollowSymlinks,
    NoCodeblock,
    Tokenizer,
}

impl SettingFlag {
    /// The text shown for the setting.
    pub fn label(self) -> (r: &'static str)
        ensures
            r@ == match self {
                SettingFlag::LineNumbers => "Show line numbers"@,
                SettingFlag::Hidden => "Include hidden files"@,
                SettingFlag::FollowSymlinks => "Follow symlinks"@,
                SettingFlag::NoCodeblock => "Disable ``` code blocks"@,
                SettingFlag::Tokenizer => "Tokenizer"@,
            },
    {
        match self {
            SettingFlag::LineNumbers => "Show line numbers",
            SettingFlag::Hidden => "Include hidden files",
            SettingFlag::FollowSymlinks => "Follow symlinks",
            SettingFlag::NoCodeblock => "Disable ``` code blocks",
            SettingFlag::Tokenizer => "Tokenizer",
        }
    }

    /// Moves the setting to its next value: a flag is toggled, the tokenizer
    /// steps forward in its cycle. Nothing else changes.
    pub fn cycle_next(&self, s: &mut TuiSettings)
        ensures
            final(s).line_numbers == (old(s).line_numbers != (*self == SettingFlag::LineNumbers)),
            final(s).hidden == (old(s).hidden != (*self == SettingFlag::Hidden)),
            final(s).follow_symlinks == (old(s).follow_symlinks != (*self == SettingFlag::FollowSymlinks)),
            final(s).no_codeblock == (old(s).no_codeblock != (*self == SettingFlag::NoCodeblock)),
            *self == SettingFlag::Tokenizer ==> final(s).tokenizer.index() == (old(s).tokenizer.index() + 1) % 5,
            *self != SettingFlag::Tokenizer ==> final(s).tokenizer == old(s).tokenizer,
    {
        match self {
            SettingFlag::LineNumbers => s.line_numbers = !s.line_numbers,
            SettingFlag::Hidden => s.hidden = !s.hidden,
            SettingFlag::FollowSymlinks => s.follow_symlinks = !s.follow_symlinks,
            SettingFlag::NoCodeblock => s.no_codeblock = !s.no_codeblock,
            SettingFlag::Tokenizer => s.tokenizer = s.tokenizer.next(),
        }
    }

    /// Moves the setting to its previous value: a flag is toggled, the
    /// tokenizer steps back in its cycle. Nothing else changes.
    pub fn cycle_previous(&self, s: &mut TuiSettings)
        ensures
            final(s).line_numbers == (old(s).line_numbers != (*self == SettingFlag::LineNumbers)),
            final(s).hidden == (old(s).hidden != (*self == SettingFlag::Hidden)),
            final(s).follow_symlinks == (old(s).follow_symlinks != (*self == SettingFlag::FollowSymlinks)),
            final(s).no_codeblock == (old(s).no_codeblock != (*self == SettingFlag::NoCodeblock)),
            *self == SettingFlag::Tokenizer ==> final(s).tokenizer.index() == (old(s).tokenizer.index() + 4) % 5,
            *self != SettingFlag::Tokenizer ==> final(s).tokenizer == old(s).tokenizer,
    {
        match self {
            SettingFlag::LineNumbers | SettingFlag::Hidden | SettingFlag::FollowSymlinks | SettingFlag::NoCodeblock => {
                self.cycle_next(s)
            },
            SettingFlag::Tokenizer => s.tokenizer = s.tokenizer.previous(),
        }
    }
}

/// Template defaults from the configuration file.
#[derive(Clone, Debug)]
pub struct TemplateConfig {
    pub defaults: Option<HashMap<String, String>>,
}

/// The `[gui]` section of the configuration file.
#[derive(Clone, Debug)]
pub struct GuiSection {
    pub settings: TuiSettings,
}

/// The configuration file. Every field is optional, so a file only needs to
/// name what it overrides.
#[derive(Clone, Debug)]
pub struct ConfigFile {
    pub exclude: Option<Vec<String>>,
    pub tokenizer: Option<TokenizerChoice>,
    pub no_codeblock: Option<bool>,
    pub line_numbers: Option<bool>,
    pub no_default_excludes: Option<bool>,
    pub template: TemplateConfig,
    pub gui: GuiSection,
}

/// The last choices made in the interactive selector for a repository.
#[derive(Clone, Debug)]
pub struct LastSelection {
    pub extensions: Vec<String>,
    pub directories: Vec<String>,
}

/// Template variables kept between runs.
#[derive(Clone, Debug)]
pub struct TemplateVariables(pub HashMap<String, String>);

/// What the scan cache keeps for a file.
#[derive(Clone, Copy, Debug)]
pub struct CachedMeta {
    pub token_count: usize,
    pub sha256: [u8; 32],
}

/// The per-repository part of cache file names: the hex SHA-256 of the
/// repository's canonical path.
#[derive(Clone, Debug)]
pub struct RepoCachePath {
    pub repo_hash: String,
}

/// The outcome of the interactive selector.
#[derive(Clone, Debug)]
pub enum TuiAction {
    /// The selections were confirmed.
    Confirm { exts: Vec<String>, paths: Vec<String> },
    /// The user quit.
    Cancel,
    /// Settings changed; the codebase is scanned again.
    RescanWithConfig { settings: TuiSettings, show_msg: bool },
}

/// Everything the prompt template is rendered with.
#[derive(Clone, Debug)]
pub struct TemplateContext {
    pub absolute_code_path: String,
    pub files: Vec<FileContext>,
    pub source_tree: String,
    pub git_diff: Option<String>,
    pub git_diff_branch: Option<String>,
    pub git_log_branch: Option<String>,
}

/// One file as the prompt template sees it.
#[derive(Clone, Debug)]
pub struct FileContext {
    pub path: String,
    pub extension: String,
    pub code: String,
    pub token_count: Option<usize>,
}

} // verus!
