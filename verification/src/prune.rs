use crate::contributors::reparented;
use crate::hashing::{kind_commit, object_id, WriteObject};
use crate::object_hash::{hex_decoded, is_hex_oid, lemma_hex_encode_decode, CommitHash, ObjectHash};
use crate::objs::commit::{serialized, CommitBase, CommitEditable, CommitView};
use crate::oid_map::{lemma_same_bytes_same_hash, oid_map_get, oid_map_insert};
use crate::packreader::oid_with;
use crate::refs::{remap, remapped};
use rustc_hash::FxHashMap;
use vstd::prelude::*;

verus! {

/// The parent that an empty commit gives way to: a commit with exactly one
/// parent is empty where the tree recorded for what stands for that parent
/// is the commit's own tree. A commit with no parent or with several is
/// never empty.
pub open spec fn empty_parent(
    commit: CommitView,
    rewritten: Map<ObjectHash, ObjectHash>,
    commit_trees: Map<ObjectHash, ObjectHash>,
) -> Option<ObjectHash> {
    if commit.parents.len() == 1 {
        let parent = remapped(rewritten, oid_with(hex_decoded(commit.parents[0])));
        if commit_trees.contains_key(parent) && commit_trees[parent]@ == hex_decoded(commit.tree) {
            Some(parent)
        } else {
            None
        }
    } else {
        None
    }
}

/// A commit with several parents is never empty, nor is one without
/// parents.
pub proof fn lemma_merge_never_pruned(
    commit: CommitView,
    rewritten: Map<ObjectHash, ObjectHash>,
    commit_trees: Map<ObjectHash, ObjectHash>,
)
    requires
        commit.parents.len() != 1,
    ensures
        empty_parent(commit, rewritten, commit_trees) is None,
{
}

/// A commit that is not empty and has exactly one parent does not have the
/// tree that is recorded for what stands for that parent.
pub proof fn lemma_kept_commit_differs(
    commit: CommitView,
    rewritten: Map<ObjectHash, ObjectHash>,
    commit_trees: Map<ObjectHash, ObjectHash>,
)
    requires
        empty_parent(commit, rewritten, commit_trees) is None,
        commit.parents.len() == 1,
        commit_trees.contains_key(remapped(rewritten, oid_with(hex_decoded(commit.parents[0])))),
    ensures
        commit_trees[remapped(rewritten, oid_with(hex_decoded(commit.parents[0])))]@ != hex_decoded(
            commit.tree,
        ),
{
}

/// The parent that `commit` gives way to, where `commit` is empty.
pub fn get_parent_if_empty_commit(
    commit: &CommitEditable,
    rewritten_commits: &FxHashMap<ObjectHash, ObjectHash>,
    commit_trees: &FxHashMap<ObjectHash, ObjectHash>,
) -> (parent: Option<CommitHash>)
    ensures
        match empty_parent(commit@, rewritten_commits@, commit_trees@) {
            None => parent is None,
            Some(found) => parent == Some(CommitHash(found)),
        },
{
    let parents = commit.parents();
    if parents.len() == 1 {
        let commit_tree = commit.tree();
        let first = parents[0];
        proof {
            lemma_same_bytes_same_hash(first.0, oid_with(hex_decoded(commit@.parents[0])));
        }
        let parent = remap(rewritten_commits, &first.0);
        match oid_map_get(commit_trees, &parent) {
            Some(parent_tree) => {
                if parent_tree.same(&commit_tree.0) {
                    Some(CommitHash(parent))
                } else {
                    None
                }
            },
            None => None,
        }
    } else {
        None
    }
}

/// What became of a commit when empty commits were pruned.
#[derive(Debug)]
pub enum Pruning {
    /// The commit was empty: this parent stands for it from now on.
    Dropped(CommitHash),
    /// The commit stays as it is.
    Kept,
    /// The commit is written anew, with the parents that stand for its own.
    Rewritten(WriteObject),
}

/// The fields of a commit whose parents are replaced by what stands for
/// them.
pub open spec fn pruned_view(commit: CommitView, rewritten: Map<ObjectHash, ObjectHash>) -> CommitView {
    CommitView {
        parents: Seq::new(commit.parents.len(), |i: int| reparented(rewritten, commit.parents[i])),
        ..commit
    }
}

/// What a commit is mapped to once it is handled: the parent that it gave
/// way to, its new identifier where that differs from its own, else
/// nothing new.
pub open spec fn rewritten_after(
    rewritten: Map<ObjectHash, ObjectHash>,
    old_hash: ObjectHash,
    new_hash: ObjectHash,
) -> Map<ObjectHash, ObjectHash> {
    if old_hash == new_hash {
        rewritten
    } else {
        rewritten.insert(old_hash, new_hash)
    }
}

/// Handles one commit when empty commits are pruned. The commits must come
/// parents first. An empty commit is dropped and mapped to what stands for
/// its parent. Any other commit gets the parents that stand for its own;
/// its tree is recorded under its identifier, and it is written anew where
/// that identifier is a new one. No commit that stays has exactly one
/// parent whose recorded tree is its own tree, and a commit with several
/// parents is never dropped.
#[verifier::rlimit(30)]
pub fn find_empty_commits(
    commit: CommitBase,
    rewritten_commits: &mut FxHashMap<ObjectHash, ObjectHash>,
    commit_trees: &mut FxHashMap<ObjectHash, ObjectHash>,
) -> (pruning: Pruning)
    ensures
        match empty_parent(commit@, old(rewritten_commits)@, old(commit_trees)@) {
            Some(parent) => {
                &&& pruning is Dropped
                &&& pruning->Dropped_0 == CommitHash(parent)
                &&& commit@.parents.len() == 1
                &&& final(rewritten_commits)@ == old(rewritten_commits)@.insert(
                    commit.spec_hash().0,
                    parent,
                )
                &&& final(commit_trees)@ == old(commit_trees)@
            },
            None => {
                let payload = serialized(pruned_view(commit@, old(rewritten_commits)@));
                &&& !(pruning is Dropped)
                &&& exists|new_hash: ObjectHash, tree: ObjectHash|
                    {
                        &&& new_hash@ == object_id(kind_commit(), payload)
                        &&& tree@ == hex_decoded(commit@.tree)
                        &&& #[trigger] final(commit_trees)@ == old(commit_trees)@.insert(new_hash, tree)
                        &&& final(rewritten_commits)@ == rewritten_after(
                            old(rewritten_commits)@,
                            commit.spec_hash().0,
                            new_hash,
                        )
                        &&& pruning is Kept <==> new_hash == commit.spec_hash().0
                        &&& pruning is Rewritten ==> pruning->Rewritten_0.spec_hash() == new_hash
                            && pruning->Rewritten_0.payload() == payload
                            && pruning->Rewritten_0.kind() == kind_commit()
                    }
            },
        },
{
    let ghost view = commit@;
    let ghost before = rewritten_commits@;
    let mut commit = CommitEditable::create(commit);
    match get_parent_if_empty_commit(&commit, rewritten_commits, commit_trees) {
        Some(parent) => {
            let old_hash = commit.base_hash().0;
            oid_map_insert(rewritten_commits, old_hash, parent.0);
            return Pruning::Dropped(parent);
        },
        None => {},
    }
    let base_hash = commit.base_hash().0;
    let parents = commit.parents();
    let mut i: usize = 0;
    proof {
        assert(commit@.parents =~= Seq::new(
            view.parents.len(),
            |j: int|
                if j < 0 {
                    reparented(before, view.parents[j])
                } else {
                    view.parents[j]
                },
        ));
    }
    while i < parents.len()
        invariant
            i <= parents@.len(),
            parents@.len() == view.parents.len(),
            rewritten_commits@ == before,
            forall|j: int| 0 <= j < view.parents.len() ==> is_hex_oid(#[trigger] view.parents[j]),
            forall|j: int|
                0 <= j < parents@.len() ==> (#[trigger] parents@[j])@ == hex_decoded(view.parents[j]),
            commit@ == (CommitView {
                parents: Seq::new(
                    view.parents.len(),
                    |j: int|
                        if j < i {
                            reparented(before, view.parents[j])
                        } else {
                            view.parents[j]
                        },
                ),
                ..view
            }),
        decreases parents@.len() - i,
    {
        let parent = parents[i];
        proof {
            lemma_same_bytes_same_hash(parent.0, oid_with(hex_decoded(view.parents[i as int])));
            lemma_hex_encode_decode(view.parents[i as int]);
        }
        let mapped = remap(rewritten_commits, &parent.0);
        commit.set_parent(i, CommitHash(mapped));
        assert(commit@.parents =~= Seq::new(
            view.parents.len(),
            |j: int|
                if j < i + 1 {
                    reparented(before, view.parents[j])
                } else {
                    view.parents[j]
                },
        ));
        i += 1;
    }
    proof {
        assert(commit@.parents =~= pruned_view(view, before).parents);
    }
    let commit_tree = commit.tree();
    let w = WriteObject::from_commit(commit);
    let new_hash = *w.hash();
    oid_map_insert(commit_trees, new_hash, commit_tree.0);
    if !base_hash.same(&new_hash) {
        oid_map_insert(rewritten_commits, base_hash, new_hash);
        Pruning::Rewritten(w)
    } else {
        Pruning::Kept
    }
}

} // verus!
