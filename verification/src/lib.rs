//! Rewrite and transaction engine for a version-control tool: an in-memory,
//! content-addressed commit graph together with the algorithms that mutate it
//! while keeping descendants consistent. The engine merges tree content
//! structurally, rewrites every descendant of a changed commit exactly once,
//! and records each mutation as one atomic operation in an append-only log.

use vstd::prelude::*;

pub mod bytes;
pub mod commands;
pub mod errors;
pub mod extern_set;
pub mod graph;
pub mod ids;
pub mod merge;
pub mod repo;
pub mod rewrite;
pub mod store;
pub mod transaction;
pub mod tree;
pub mod view;

pub use bytes::bytes_eq;
pub use commands::cmd_abandon;
pub use commands::cmd_absorb;
pub use commands::cmd_commit;
pub use commands::cmd_diff;
pub use commands::cmd_duplicate;
pub use commands::cmd_file_chmod;
pub use commands::cmd_new;
pub use commands::cmd_revert;
pub use commands::AbsorbStats;
pub use commands::ChmodStats;
pub use commands::CommitStats;
pub use commands::DiffEntry;
pub use commands::DuplicateStats;
pub use commands::NewStats;
pub use commands::RevertStats;
pub use commands::cmd_bookmark_create;
pub use commands::cmd_bookmark_set;
pub use commands::BookmarkCreateArgs;
pub use commands::BookmarkSetArgs;
pub use commands::BookmarkSetStats;
pub use commands::cmd_describe;
pub use commands::cmd_edit;
pub use commands::cmd_file_list;
pub use commands::cmd_unsign;
pub use commands::AbandonStats;
pub use commands::DescribeStats;
pub use commands::UnsignArgs;
pub use commands::UnsignStats;
pub use merge::EntryValue;
pub use merge::MergeValue;
pub use errors::BackendError;
pub use errors::EngineError;
pub use errors::UserError;
pub use repo::MutRepo;
pub use rewrite::CommitEdit;
pub use rewrite::Instruction;
pub use rewrite::RewriteAction;
pub use rewrite::TransformOptions;
pub use store::CommitData;
pub use store::Signature;
pub use store::Store;
pub use tree::Tree;
pub use tree::TreeEntry;
pub use transaction::Operation;
pub use transaction::RepoState;
pub use transaction::Transaction;
pub use view::Bookmark;
pub use view::RepoView;
pub use view::Workspace;

verus! {

} // verus!
