//! Verified core of a directory-synchronization daemon.
//!
//! The daemon watches a working directory, stages and commits drift, and
//! reconciles the local branch with a remote. This crate holds the logic that
//! makes those decisions — drift classification, index updating, merge
//! analysis over the commit graph, fast-forward and three-way merge
//! resolution, and the per-cycle state machine — verified over an explicit
//! model of repository state. The surrounding binary performs the actual
//! filesystem, network and object-store operations and feeds their results
//! back into these functions.

pub mod change;
pub mod debounce;
pub mod engine;
pub mod errors;
pub mod history;
pub mod merge;
pub mod message;
pub mod order;
pub mod tree;
