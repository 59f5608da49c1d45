//! Turning a codebase into a prompt, and measuring it.
//!
//! The heart is the token map: `tree` aggregates per-file token counts into
//! a weighted path tree, `select` picks the nodes worth a row under a line
//! budget, `render` flattens them into display rows, and `view` lays those
//! rows out as aligned, proportional text bars.
//!
//! Around it: token counting (`token`), code blocks (`code`), include and
//! exclude decisions (`filter`, `matching`), file ordering (`sort`), template
//! variables (`template`), cache naming (`cache`), the directory arena of the
//! interactive selector (`arena`) and the run configuration (`config`).

pub mod arena;
pub mod cache;
pub mod code;
pub mod config;
pub mod filter;
pub mod matching;
pub mod model;
pub mod order;
pub mod render;
pub mod select;
pub mod sort;
pub mod template;
pub mod text;
pub mod token;
pub mod tree;
pub mod view;
