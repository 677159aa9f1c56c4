//! A patch-queue layer over a Git repository.
//!
//! A queue is a named, ordered stack of patches (each patch a single commit)
//! owned by a dedicated branch, together with an append-only operation log
//! kept as a chain of commits on `refs/queuelogs/<queue>`.  Every log entry
//! carries a `meta` blob describing the stack state, and its parent set pins
//! every object the state references against garbage collection.

pub mod cli;
pub mod codec;
pub mod ctx;
pub mod error;
pub mod oid;
pub mod queue;
pub mod repo;
