//! Change-detection and diff-computation engine for browsing the files that
//! differ between a base revision and a working copy.
//!
//! The library holds the logic: parsing of version-control output, the
//! rename-aware changed-file list, the compacted directory tree, the
//! watcher's escalation decisions and the reconciliation of updates with the
//! state a user sees. Running the version-control tool, reading files and
//! drawing are left to the caller.

pub mod model;
pub mod text;
pub mod git;
pub mod tree;
pub mod tree_facts;
pub mod watch;
pub mod reconcile;
pub mod cache;
pub mod fold;
pub mod theme;
pub mod modal;
pub mod diffline;
pub mod revision;
pub mod args;
