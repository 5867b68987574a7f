//! Commits, trees and tags: reading them from their payload, editing them
//! and writing them back.

use vstd::prelude::*;

pub mod commit;
pub mod tag;
pub mod tree;

pub use commit::{CommitBase, CommitEditable, WriteBytes};
pub use tag::Tag;
pub use tree::{Tree, TreeLine, TreeLineIndex};

pub use crate::object_hash::{CommitHash, TreeHash};

verus! {

/// An object that was read: a commit, a tree or a tag.
#[derive(Debug)]
pub enum GitObject {
    Commit(CommitBase),
    Tree(Tree),
    Tag(Tag),
}

/// The kind of object that a tag points at.
#[derive(Clone, Copy, Debug, PartialEq, Eq, Structural)]
pub enum TagTargetType {
    Tag,
    Commit,
    Tree,
}

} // verus!
