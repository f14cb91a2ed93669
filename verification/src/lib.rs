//! Distributed ownership declarations, resolved into a single CODEOWNERS map.
//!
//! A source tree may carry one ownership declaration file per directory.
//! This crate parses those files (including their `include` directives, with
//! cycle detection), builds a tree of the directories that declare owners,
//! resolves inheritance top-down, and renders the result as canonical
//! CODEOWNERS text.
#![verifier::loop_isolation(false)]

pub mod allow_filter;
pub mod codeowners;
pub mod errors;
pub mod kvlist;
pub mod owners_file;
pub mod owners_set;
pub mod owners_tree;
pub mod paths;
pub mod strutil;
