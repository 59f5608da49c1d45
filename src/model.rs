//! Records handed to the token-map engine and the rows it produces.

use vstd::prelude::*;

verus! {

/// What kind of filesystem object a tree node or a display row stands for.
#[derive(Clone, Copy, Debug, PartialEq, Eq, Structural)]
pub struct EntryMetadata {
    pub is_dir: bool,
    pub is_symlink: bool,
}

/// One processed file record, as the directory walker hands it over.
///
/// `mtime` is the modification time in nanoseconds since the Unix epoch.
#[derive(Clone, Debug)]
pub struct ProcessedEntry {
    pub path: String,
    pub relative_path: String,
    pub is_file: bool,
    pub code: Option<String>,
    pub extension: Option<String>,
    pub token_count: Option<usize>,
    pub mtime: Option<u64>,
}

/// One row of the token map.
///
/// The share of the total that a row stands for is `tokens / total * 100`
/// percent, where `total` is the token total the map was built for.
#[derive(Clone, Debug, PartialEq, Eq)]
pub struct TokenMapEntry {
    pub path: String,
    pub name: String,
    pub tokens: usize,
    pub depth: usize,
    pub is_last: bool,
    pub metadata: EntryMetadata,
}

/// The mathematical content of a row.
pub struct RowView {
    pub path: Seq<char>,
    pub name: Seq<char>,
    pub tokens: nat,
    pub depth: nat,
    pub is_last: bool,
    pub metadata: EntryMetadata,
}

impl View for TokenMapEntry {
    type V = RowView;

    open spec fn view(&self) -> RowView {
        RowView {
            path: self.path@,
            name: self.name@,
            tokens: self.tokens as nat,
            depth: self.depth as nat,
            is_last: self.is_last,
            metadata: self.metadata,
        }
    }
}

} // verus!
