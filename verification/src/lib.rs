//! Reading and rewriting the history of a bare Git repository: object
//! identifiers, pack indexes and packfiles, delta reconstruction, the commit,
//! tree and tag codecs, reference handling, history walks and the rewrite
//! rules that sit on top of them.
//!
//! Everything here works on plain values. Opening files, mapping packs into
//! memory and running worker threads is left to the caller.

pub mod bytes;
pub mod commits;
pub mod compression;
pub mod contributors;
pub mod error;
pub mod hashing;
pub mod idx_reader;
pub mod object_hash;
pub mod objs;
pub mod oid_map;
pub mod ordering;
pub mod pack_diff;
pub mod packreader;
pub mod prune;
pub mod refs;
pub mod remove;
pub mod repository;
pub mod rewrite_runs;
pub mod shared;
pub mod tree_runs;
pub mod walk_laws;
pub mod walk_runs;

pub use hashing::{calculate_hash, WriteObject};
pub use objs::commit::WriteBytes;
