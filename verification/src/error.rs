//! Error taxonomy of the library.
//!
//! Repository-service failures are carried as plain values ([`GitError`]):
//! the numeric error code and class reported by the underlying Git library,
//! and its message text.

use vstd::prelude::*;

verus! {

/// libgit2 error code: a looked-up object does not exist.
pub const GIT_CODE_NOT_FOUND: i32 = -3;

/// libgit2 error code: an object to be created already exists.
pub const GIT_CODE_EXISTS: i32 = -4;

/// libgit2 error code: HEAD names an unborn branch.
pub const GIT_CODE_UNBORN_BRANCH: i32 = -9;

/// libgit2 error code: a name or specification is not valid.
pub const GIT_CODE_INVALID_SPEC: i32 = -12;

/// libgit2 error code: an object or value is not valid.
pub const GIT_CODE_INVALID: i32 = -21;

/// libgit2 error class: out of memory.
pub const GIT_CLASS_NO_MEMORY: i32 = 1;

/// libgit2 error class: operating-system failure.
pub const GIT_CLASS_OS: i32 = 2;

/// libgit2 error class: reference database.
pub const GIT_CLASS_REFERENCE: i32 = 4;

/// libgit2 error class: network failure.
pub const GIT_CLASS_NET: i32 = 12;

/// libgit2 error class: filesystem failure.
pub const GIT_CLASS_FILESYSTEM: i32 = 30;

/// A repository-service failure, reduced to plain values: the numeric
/// libgit2 error code and class, and the reported message.
#[derive(Debug)]
pub struct GitError {
    pub code: i32,
    pub class: i32,
    pub message: String,
}

/// Everything that can go wrong in a queue operation.
#[derive(Debug)]
pub enum QueueError {
    /// The working directory is not inside a repository.
    NotInRepository,
    /// The repository exists but has no queue-ready state.
    NotInitialized,
    /// The on-disk layout violates a queue invariant; the payload is a short
    /// human tag naming the area.
    Inconsistency(&'static str),
    /// A queue or branch name is not accepted by the reference database.
    InvalidName,
    /// A ref that must be created already exists; the payload names it.
    AlreadyExists(&'static str),
    /// A name that must be displayed is not valid UTF-8.
    NonUtf8,
    /// Pass-through for repository-service errors.
    Git(GitError),
}

impl GitError {
    /// Is this the repository service's "not found" report?
    pub fn is_not_found(&self) -> (r: bool)
        ensures
            r == (self.code == GIT_CODE_NOT_FOUND),
    {
        self.code == GIT_CODE_NOT_FOUND
    }
}

} // verus!
