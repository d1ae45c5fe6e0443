//! Follows files through a Git history, across renames and copies.
//!
//! The crate has two halves. [`parsing`] turns the line-oriented output of
//! `git log --name-status -M -C --pretty=format:%H%n%at` into [`ParsedCommit`]
//! values. [`history`] consumes those commits, newest first, and links one
//! node per change of every watched file into a chain that runs backwards in
//! time, the way `git log --follow` does for a single file.
//!
//! Every executable function carries a contract stated over the mathematical
//! models in [`hex`], [`decimal`], [`grammar`] and [`model`]. What holds of
//! every history is proved in [`laws`], and [`printing`] proves that reading
//! the log of given commits gives the commits back.

pub mod decimal;
pub mod grammar;
pub mod hex;
pub mod history;
pub mod laws;
pub mod model;
pub mod parsing;
pub mod paths;
pub mod printing;
pub mod types;

pub use crate::history::HistoryTree;
pub use crate::paths::PathSet;
pub use crate::types::{Change, FileDelta, HistoryNode, SHA1ParseError, Timestamp, SHA1};
