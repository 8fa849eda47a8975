//! Assembles a textual prompt from a user-selected subset of files in a
//! directory tree, respecting per-directory ignore rules.
//!
//! The library holds the pure logic: cascading ignore-rule evaluation,
//! deterministic directory listing, prefix-trie tree rendering, placeholder
//! template substitution, and per-file metrics computation. All filesystem,
//! clipboard and network traffic stays with the caller, which hands in plain
//! values (paths, file contents, template strings) and receives plain values
//! back.

use vstd::prelude::*;

pub mod listing;
pub mod metrics;
pub mod paths;
pub mod rules;
pub mod prompt;
pub mod template;
pub mod tree;
pub mod text;

verus! {

/// A final path component paired with the absolute path it came from.
pub struct FileNodeInput {
    pub name: String,
    pub path: String,
}

} // verus!
