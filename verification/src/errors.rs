//! The engine's error taxonomy.
//!
//! User errors are invalid input detected before mutation; immutable-commit
//! errors abort a rewrite of a protected commit before any write; backend
//! errors mean an object id could not be read; a concurrent-modification
//! error means the operation log moved under an open transaction.

use vstd::prelude::*;

verus! {

/// Invalid input, detected before any mutation.
#[derive(Debug)]
pub enum UserError {
    /// A bookmark of this name already exists.
    BookmarkAlreadyExists { name: Vec<u8> },
    /// The local bookmark is gone but tracked remote counterparts remain.
    TrackedRemoteExists { name: Vec<u8> },
    /// The move is neither a fast-forward nor explicitly allowed.
    NonFastForward { name: Vec<u8> },
    /// The working copy is required but not set.
    NoWorkingCopy,
    /// The root commit cannot be duplicated.
    CannotDuplicateRoot,
    /// A path holds something besides files where files were required.
    NotAFile { path: usize },
}

/// The object store could not produce a referenced object.
#[derive(Debug)]
pub enum BackendError {
    MissingCommit { id: usize },
    MissingTree { id: usize },
}

/// Everything a transaction-level call can fail with.
#[derive(Debug)]
pub enum EngineError {
    User(UserError),
    /// The target of a rewrite is protected.
    ImmutableCommit { id: usize },
    Backend(BackendError),
    /// The operation-log head moved since the transaction began.
    ConcurrentModification,
}

} // verus!
