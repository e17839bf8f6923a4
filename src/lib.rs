//! In-source vendoring for Git repositories.
//!
//! Vendored dependencies are declared as attribute lines in `.gitattributes`:
//!
//! ```text
//! path/to/dep/** vendored url=https://example.com/owner/repo.git branch=main
//! ```
//!
//! The library holds the logic of the tool: gitattributes-style path patterns,
//! the filter that restricts a tree to the paths a pattern set selects, the
//! three-way merge rule that brings upstream content into the host tree, the
//! checks that precede a merge, and the reading and editing of declaration
//! lines. Repository access stays with the caller.

pub mod attributes;
pub mod cli;
pub mod destination;
pub mod merge;
pub mod pattern;
pub mod text;
pub mod tree;
