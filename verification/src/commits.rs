use crate::bytes::{has_prefix, starts_with};
use crate::error::GitError;
use crate::object_hash::{hex_decoded, CommitHash, ObjectHash, TreeHash};
use crate::objs::commit::{parsed_commit, CommitBase};
use crate::objs::tag::{parsed_tag, Tag};
use crate::objs::tree::{parsed_tree, Tree};
use crate::objs::{GitObject, TagTargetType};
use crate::oid_map::{
    lemma_same_bytes_same_hash, oid_set_contains, oid_set_insert, oid_set_new, oid_set_remove,
};
use crate::packreader::oid_with;
use rustc_hash::FxHashSet;
use vstd::prelude::*;

verus! {

/// A commit as a walk sees it: its identifier and its parents.
pub struct Node {
    pub id: ObjectHash,
    pub parents: Seq<ObjectHash>,
}

/// The state of a walk: the commits that wait to be looked at, the last
/// being the next; the commits that were handed out; the commits that were
/// put back once to let their parents go first; and the parents that the
/// walk waits to be given before it goes on.
pub struct WalkState {
    pub stack: Seq<Node>,
    pub processed: Set<ObjectHash>,
    pub parents_seen: Set<ObjectHash>,
    pub awaiting: Option<Seq<ObjectHash>>,
}

/// What a walk does next.
pub enum WalkOutcome {
    /// It hands out a commit.
    Emit(Node),
    /// It asks for these commits.
    Fetch(Seq<ObjectHash>),
    /// It is over.
    Done,
}

/// Of `parents`, those that were not handed out, in order.
pub open spec fn unprocessed(parents: Seq<ObjectHash>, processed: Set<ObjectHash>) -> Seq<ObjectHash>
    decreases parents.len(),
{
    if parents.len() == 0 {
        Seq::empty()
    } else {
        let earlier = unprocessed(parents.drop_last(), processed);
        if processed.contains(parents.last()) {
            earlier
        } else {
            earlier.push(parents.last())
        }
    }
}

/// The next step of the walk that hands out parents before children. While
/// it waits for commits it asks for them again. Else it takes the last
/// commit that waits. One that was handed out is dropped, and the walk goes
/// on. One that was put back before, or whose parents were all handed out,
/// is handed out. Any other is put back, and its parents that were not
/// handed out are asked for, to wait behind it.
pub open spec fn topo_next(s: WalkState) -> (WalkOutcome, WalkState)
    decreases s.stack.len(),
{
    if s.awaiting is Some {
        (WalkOutcome::Fetch(s.awaiting->Some_0), s)
    } else if s.stack.len() == 0 {
        (WalkOutcome::Done, s)
    } else {
        let commit = s.stack.last();
        let wanted = unprocessed(commit.parents, s.processed);
        if s.processed.contains(commit.id) {
            topo_next(
                WalkState {
                    stack: s.stack.drop_last(),
                    parents_seen: s.parents_seen.remove(commit.id),
                    ..s
                },
            )
        } else if s.parents_seen.contains(commit.id) || wanted.len() == 0 {
            (
                WalkOutcome::Emit(commit),
                WalkState {
                    stack: s.stack.drop_last(),
                    processed: s.processed.insert(commit.id),
                    parents_seen: s.parents_seen.insert(commit.id),
                    ..s
                },
            )
        } else {
            (
                WalkOutcome::Fetch(wanted),
                WalkState {
                    parents_seen: s.parents_seen.insert(commit.id),
                    awaiting: Some(wanted),
                    ..s
                },
            )
        }
    }
}

/// The next step of the walk that hands out each commit once, children
/// before parents. While it waits for commits it asks for them again. Else
/// it takes the last commit that waits. One that was handed out is dropped,
/// and the walk goes on. Any other is handed out, and its parents that were
/// not handed out are asked for next.
pub open spec fn lifo_next(s: WalkState) -> (WalkOutcome, WalkState)
    decreases s.stack.len(),
{
    if s.awaiting is Some {
        (WalkOutcome::Fetch(s.awaiting->Some_0), s)
    } else if s.stack.len() == 0 {
        (WalkOutcome::Done, s)
    } else {
        let commit = s.stack.last();
        if s.processed.contains(commit.id) {
            lifo_next(WalkState { stack: s.stack.drop_last(), ..s })
        } else {
            let processed = s.processed.insert(commit.id);
            let wanted = unprocessed(commit.parents, processed);
            (
                WalkOutcome::Emit(commit),
                WalkState {
                    stack: s.stack.drop_last(),
                    processed,
                    awaiting: if wanted.len() == 0 {
                        None
                    } else {
                        Some(wanted)
                    },
                    ..s
                },
            )
        }
    }
}

/// The state once the commits that the walk waited for wait behind the
/// others.
pub open spec fn supplied(s: WalkState, nodes: Seq<Node>) -> WalkState {
    WalkState { stack: s.stack + nodes, awaiting: None, ..s }
}

/// The identifiers of the commits.
pub open spec fn ids_of(nodes: Seq<Node>) -> Seq<ObjectHash> {
    Seq::new(nodes.len(), |i: int| nodes[i].id)
}

/// A commit as a walk sees it.
pub open spec fn node_of(commit: CommitBase) -> Node {
    Node {
        id: commit.spec_hash().0,
        parents: Seq::new(
            commit@.parents.len(),
            |i: int| oid_with(hex_decoded(commit@.parents[i])),
        ),
    }
}

/// The commits as a walk sees them.
pub open spec fn nodes_of(commits: Seq<CommitBase>) -> Seq<Node> {
    Seq::new(commits.len(), |i: int| node_of(commits[i]))
}

/// The commits that are there, in order; a commit that is not there is
/// left out.
pub open spec fn present(commits: Seq<Option<CommitBase>>) -> Seq<CommitBase>
    decreases commits.len(),
{
    if commits.len() == 0 {
        Seq::empty()
    } else {
        let earlier = present(commits.drop_last());
        match commits.last() {
            Some(commit) => earlier.push(commit),
            None => earlier,
        }
    }
}

/// The commits that are there, as a walk sees them.
pub open spec fn present_nodes(commits: Seq<Option<CommitBase>>) -> Seq<Node> {
    nodes_of(present(commits))
}

/// The identifiers as they stand in the commit identifiers.
pub open spec fn raw_ids(hashes: Seq<CommitHash>) -> Seq<ObjectHash> {
    Seq::new(hashes.len(), |i: int| hashes[i].0)
}

/// What a walk tells its caller to do.
#[derive(Debug)]
pub enum WalkAction {
    /// Here is the next commit.
    Emit(CommitBase),
    /// Read these commits and supply them; then ask again.
    Fetch(Vec<CommitHash>),
    /// The walk is over.
    Done,
}

impl View for WalkAction {
    type V = WalkOutcome;

    open spec fn view(&self) -> WalkOutcome {
        match self {
            WalkAction::Emit(commit) => WalkOutcome::Emit(node_of(*commit)),
            WalkAction::Fetch(wanted) => WalkOutcome::Fetch(raw_ids(wanted@)),
            WalkAction::Done => WalkOutcome::Done,
        }
    }
}

/// The parents of `commit` that were not handed out.
fn wanted_parents(commit: &CommitBase, processed: &FxHashSet<ObjectHash>) -> (wanted: Vec<CommitHash>)
    ensures
        raw_ids(wanted@) == unprocessed(node_of(*commit).parents, processed@),
{
    let parents = commit.parents();
    let ghost all = node_of(*commit).parents;
    let mut wanted: Vec<CommitHash> = Vec::new();
    let mut i: usize = 0;
    proof {
        assert(all.take(0) =~= Seq::<ObjectHash>::empty());
        assert(raw_ids(wanted@) =~= Seq::<ObjectHash>::empty());
    }
    while i < parents.len()
        invariant
            i <= parents@.len(),
            all == node_of(*commit).parents,
            parents@.len() == all.len(),
            forall|j: int|
                0 <= j < parents@.len() ==> (#[trigger] parents@[j])@ == hex_decoded(
                    commit@.parents[j],
                ),
            raw_ids(wanted@) == unprocessed(all.take(i as int), processed@),
        decreases parents@.len() - i,
    {
        let parent = parents[i];
        let ghost before = raw_ids(wanted@);
        proof {
            assert(parents@[i as int]@ == hex_decoded(commit@.parents[i as int]));
            lemma_same_bytes_same_hash(parent.0, all[i as int]);
            assert(all.take(i + 1).drop_last() =~= all.take(i as int));
            assert(all.take(i + 1).last() == parent.0);
        }
        if !oid_set_contains(processed, &parent.0) {
            wanted.push(parent);
            assert(raw_ids(wanted@) =~= before.push(parent.0));
        }
        i += 1;
    }
    proof {
        assert(all.take(parents@.len() as int) =~= all);
    }
    wanted
}

/// Whether `commits` are the commits that `wanted` names, in order.
fn matches_wanted(commits: &Vec<CommitBase>, wanted: &Vec<CommitHash>) -> (matches: bool)
    ensures
        matches == (ids_of(nodes_of(commits@)) == raw_ids(wanted@)),
{
    if commits.len() != wanted.len() {
        assert(ids_of(nodes_of(commits@)).len() != raw_ids(wanted@).len());
        return false;
    }
    let mut i: usize = 0;
    while i < commits.len()
        invariant
            i <= commits@.len(),
            commits@.len() == wanted@.len(),
            forall|j: int| 0 <= j < i ==> (#[trigger] commits@[j]).spec_hash().0 == wanted@[j].0,
        decreases commits@.len() - i,
    {
        if !commits[i].hash().same(&wanted[i]) {
            assert(ids_of(nodes_of(commits@))[i as int] != raw_ids(wanted@)[i as int]);
            return false;
        }
        i += 1;
    }
    assert(ids_of(nodes_of(commits@)) =~= raw_ids(wanted@));
    true
}

/// The walk over the history that hands out every commit after its parents.
pub struct CommitsFifoIter {
    commits: Vec<CommitBase>,
    processed_commits: FxHashSet<ObjectHash>,
    parents_seen: FxHashSet<ObjectHash>,
    awaiting: Option<Vec<CommitHash>>,
}

impl View for CommitsFifoIter {
    type V = WalkState;

    closed spec fn view(&self) -> WalkState {
        WalkState {
            stack: nodes_of(self.commits@),
            processed: self.processed_commits@,
            parents_seen: self.parents_seen@,
            awaiting: match self.awaiting {
                Some(wanted) => Some(raw_ids(wanted@)),
                None => None,
            },
        }
    }
}

impl CommitsFifoIter {
    /// The commits that wait to be looked at, the last being the next. The
    /// state of the walk sees them as [`nodes_of`] does.
    pub closed spec fn stacked(&self) -> Seq<CommitBase> {
        self.commits@
    }

    /// The walk that starts from `roots`, the last of them first.
    pub fn create(roots: Vec<CommitBase>) -> (walk: CommitsFifoIter)
        ensures
            walk.stacked() == roots@,
            walk@ == (WalkState {
                stack: nodes_of(roots@),
                processed: Set::empty(),
                parents_seen: Set::empty(),
                awaiting: None,
            }),
    {
        CommitsFifoIter {
            commits: roots,
            processed_commits: oid_set_new(),
            parents_seen: oid_set_new(),
            awaiting: None,
        }
    }

    /// The next step of the walk. The commits that still wait are the
    /// first of those that waited, unchanged, and a commit that is handed
    /// out is the one that waited behind them.
    #[verifier::rlimit(30)]
    pub fn next(&mut self) -> (action: WalkAction)
        ensures
            (action@, final(self)@) == topo_next(old(self)@),
            final(self)@.stack == nodes_of(final(self).stacked()),
            final(self).stacked() == old(self).stacked().take(final(self).stacked().len() as int),
            action is Emit ==> final(self).stacked().len() < old(self).stacked().len()
                && action->Emit_0 == old(self).stacked()[final(self).stacked().len() as int],
    {
        assert(self.commits@.take(self.commits@.len() as int) =~= self.commits@);
        match &self.awaiting {
            Some(wanted) => {
                let mut again: Vec<CommitHash> = Vec::new();
                let mut i: usize = 0;
                while i < wanted.len()
                    invariant
                        i <= wanted@.len(),
                        again@ == wanted@.take(i as int),
                    decreases wanted@.len() - i,
                {
                    again.push(wanted[i]);
                    assert(wanted@.take(i + 1) =~= wanted@.take(i as int).push(wanted@[i as int]));
                    i += 1;
                }
                assert(wanted@.take(wanted@.len() as int) =~= wanted@);
                return WalkAction::Fetch(again);
            },
            None => {},
        }
        while self.commits.len() > 0
            invariant
                self.awaiting is None,
                topo_next(self@) == topo_next(old(self)@),
                self.commits@.len() <= old(self).commits@.len(),
                self.commits@ == old(self).commits@.take(self.commits@.len() as int),
            decreases self.commits@.len(),
        {
            let ghost state = self@;
            let ghost waiting = self.commits@;
            let top = self.commits.len() - 1;
            let id = self.commits[top].hash().0;
            assert(state.stack.last() == node_of(self.commits@[top as int]));
            if oid_set_contains(&self.processed_commits, &id) {
                let _dropped = self.commits.pop();
                let _ = oid_set_remove(&mut self.parents_seen, &id);
                assert(self@.stack =~= state.stack.drop_last());
                assert(self.commits@ =~= old(self).commits@.take(self.commits@.len() as int));
            } else {
                let wanted = wanted_parents(&self.commits[top], &self.processed_commits);
                let fresh = oid_set_insert(&mut self.parents_seen, id);
                if !fresh || wanted.len() == 0 {
                    let _ = oid_set_insert(&mut self.processed_commits, id);
                    match self.commits.pop() {
                        Some(commit) => {
                            assert(self@.stack =~= state.stack.drop_last());
                            assert(self.commits@ =~= old(self).commits@.take(
                                self.commits@.len() as int,
                            ));
                            assert(commit == waiting[waiting.len() - 1]);
                            return WalkAction::Emit(commit);
                        },
                        None => {
                            assert(false);
                        },
                    }
                } else {
                    let mut asked: Vec<CommitHash> = Vec::new();
                    let mut i: usize = 0;
                    while i < wanted.len()
                        invariant
                            i <= wanted@.len(),
                            asked@ == wanted@.take(i as int),
                        decreases wanted@.len() - i,
                    {
                        asked.push(wanted[i]);
                        assert(wanted@.take(i + 1) =~= wanted@.take(i as int).push(
                            wanted@[i as int],
                        ));
                        i += 1;
                    }
                    assert(wanted@.take(wanted@.len() as int) =~= wanted@);
                    self.awaiting = Some(wanted);
                    return WalkAction::Fetch(asked);
                }
            }
        }
        WalkAction::Done
    }

    /// Gives the walk the commits that it asked for, in the order in which
    /// it asked. The walk is left as it was, and `MissingBase` comes back,
    /// where it asked for none or for others.
    #[verifier::rlimit(30)]
    pub fn supply(&mut self, parents: Vec<CommitBase>) -> (taken: Result<(), GitError>)
        ensures
            old(self)@.awaiting == Some(ids_of(nodes_of(parents@))) ==> taken is Ok && final(self)@
                == supplied(old(self)@, nodes_of(parents@)) && final(self).stacked() == old(self).stacked() + parents@,
            old(self)@.awaiting != Some(ids_of(nodes_of(parents@))) ==> taken == Err::<
                (),
                GitError,
            >(GitError::MissingBase) && final(self)@ == old(self)@ && final(self).stacked() == old(self).stacked(),
            final(self)@.stack == nodes_of(final(self).stacked()),
    {
        let matches = match &self.awaiting {
            Some(wanted) => matches_wanted(&parents, wanted),
            None => false,
        };
        if !matches {
            return Err(GitError::MissingBase);
        }
        let mut parents = parents;
        let ghost before = nodes_of(self.commits@);
        let ghost added = nodes_of(parents@);
        self.commits.append(&mut parents);
        self.awaiting = None;
        assert(nodes_of(self.commits@) =~= before + added);
        Ok(())
    }
}

/// The walk over the history that hands out every commit once, children
/// before parents.
pub struct CommitsLifoIter {
    commits: Vec<CommitBase>,
    processed_commits: FxHashSet<ObjectHash>,
    awaiting: Option<Vec<CommitHash>>,
}

impl View for CommitsLifoIter {
    type V = WalkState;

    closed spec fn view(&self) -> WalkState {
        WalkState {
            stack: nodes_of(self.commits@),
            processed: self.processed_commits@,
            parents_seen: Set::empty(),
            awaiting: match self.awaiting {
                Some(wanted) => Some(raw_ids(wanted@)),
                None => None,
            },
        }
    }
}

/// Whether `commits` holds, for each commit that `wanted` names, that commit
/// or nothing, in order.
fn matches_or_missing(commits: &Vec<Option<CommitBase>>, wanted: &Vec<CommitHash>) -> (matches: bool)
    ensures
        matches == answers(commits@, raw_ids(wanted@)),
{
    if commits.len() != wanted.len() {
        return false;
    }
    let mut i: usize = 0;
    while i < commits.len()
        invariant
            i <= commits@.len(),
            commits@.len() == wanted@.len(),
            forall|j: int|
                0 <= j < i ==> ((#[trigger] commits@[j]) is Some ==> commits@[j]->Some_0.spec_hash().0
                    == wanted@[j].0),
        decreases commits@.len() - i,
    {
        match &commits[i] {
            Some(commit) => {
                if !commit.hash().same(&wanted[i]) {
                    assert(raw_ids(wanted@)[i as int] == wanted@[i as int].0);
                    return false;
                }
            },
            None => {},
        }
        i += 1;
    }
    assert forall|j: int| 0 <= j < commits@.len() && (#[trigger] commits@[j]) is Some implies node_of(
        commits@[j]->Some_0,
    ).id == raw_ids(wanted@)[j] by {
        assert(raw_ids(wanted@)[j] == wanted@[j].0);
    }
    true
}

/// `commits` holds, for each commit that `wanted` names, that commit or
/// nothing, in order.
pub open spec fn answers(commits: Seq<Option<CommitBase>>, wanted: Seq<ObjectHash>) -> bool {
    commits.len() == wanted.len() && forall|j: int|
        0 <= j < commits.len() ==> ((#[trigger] commits[j]) is Some ==> node_of(commits[j]->Some_0).id
            == wanted[j])
}

impl CommitsLifoIter {
    /// The commits that wait to be looked at, the last being the next. The
    /// state of the walk sees them as [`nodes_of`] does.
    pub closed spec fn stacked(&self) -> Seq<CommitBase> {
        self.commits@
    }

    /// The walk that starts from `roots`, the last of them first.
    pub fn create(roots: Vec<CommitBase>) -> (walk: CommitsLifoIter)
        ensures
            walk.stacked() == roots@,
            walk@ == (WalkState {
                stack: nodes_of(roots@),
                processed: Set::empty(),
                parents_seen: Set::empty(),
                awaiting: None,
            }),
    {
        CommitsLifoIter { commits: roots, processed_commits: oid_set_new(), awaiting: None }
    }

    /// The next step of the walk. The commits that still wait are the
    /// first of those that waited, unchanged, and a commit that is handed
    /// out is the one that waited behind them.
    #[verifier::rlimit(30)]
    pub fn next(&mut self) -> (action: WalkAction)
        ensures
            (action@, final(self)@) == lifo_next(old(self)@),
            final(self)@.stack == nodes_of(final(self).stacked()),
            final(self).stacked() == old(self).stacked().take(final(self).stacked().len() as int),
            action is Emit ==> final(self).stacked().len() < old(self).stacked().len()
                && action->Emit_0 == old(self).stacked()[final(self).stacked().len() as int],
    {
        assert(self.commits@.take(self.commits@.len() as int) =~= self.commits@);
        match &self.awaiting {
            Some(wanted) => {
                let mut again: Vec<CommitHash> = Vec::new();
                let mut i: usize = 0;
                while i < wanted.len()
                    invariant
                        i <= wanted@.len(),
                        again@ == wanted@.take(i as int),
                    decreases wanted@.len() - i,
                {
                    again.push(wanted[i]);
                    assert(wanted@.take(i + 1) =~= wanted@.take(i as int).push(wanted@[i as int]));
                    i += 1;
                }
                assert(wanted@.take(wanted@.len() as int) =~= wanted@);
                return WalkAction::Fetch(again);
            },
            None => {},
        }
        while self.commits.len() > 0
            invariant
                self.awaiting is None,
                lifo_next(self@) == lifo_next(old(self)@),
                self.commits@.len() <= old(self).commits@.len(),
                self.commits@ == old(self).commits@.take(self.commits@.len() as int),
            decreases self.commits@.len(),
        {
            let ghost state = self@;
            let ghost waiting = self.commits@;
            match self.commits.pop() {
                Some(commit) => {
                    let id = commit.hash().0;
                    assert(state.stack.last() == node_of(commit));
                    assert(self@.stack =~= state.stack.drop_last());
                    assert(self.commits@ =~= old(self).commits@.take(self.commits@.len() as int));
                    assert(commit == waiting[waiting.len() - 1]);
                    if oid_set_insert(&mut self.processed_commits, id) {
                        let wanted = wanted_parents(&commit, &self.processed_commits);
                        if wanted.len() > 0 {
                            self.awaiting = Some(wanted);
                        }
                        return WalkAction::Emit(commit);
                    }
                    assert(self.processed_commits@ =~= state.processed);
                },
                None => {
                    assert(false);
                },
            }
        }
        WalkAction::Done
    }

    /// Gives the walk the commits that it asked for, in the order in which
    /// it asked, with nothing in the place of a commit that is not to be
    /// had. The walk is left as it was, and `MissingBase` comes back, where
    /// it asked for none or for others.
    #[verifier::rlimit(30)]
    pub fn supply(&mut self, parents: Vec<Option<CommitBase>>) -> (taken: Result<(), GitError>)
        ensures
            old(self)@.awaiting is Some && answers(parents@, old(self)@.awaiting->Some_0) ==> taken is Ok
                && final(self)@ == supplied(old(self)@, present_nodes(parents@)) && final(self).stacked() == old(self).stacked() + present(parents@),
            !(old(self)@.awaiting is Some && answers(parents@, old(self)@.awaiting->Some_0)) ==> taken
                == Err::<(), GitError>(GitError::MissingBase) && final(self)@ == old(self)@ && final(self).stacked() == old(self).stacked(),
            final(self)@.stack == nodes_of(final(self).stacked()),
    {
        let matches = match &self.awaiting {
            Some(wanted) => matches_or_missing(&parents, wanted),
            None => false,
        };
        if !matches {
            return Err(GitError::MissingBase);
        }
        let ghost all = parents@;
        let ghost before = self.commits@;
        let mut reversed: Vec<Option<CommitBase>> = Vec::new();
        let mut rest = parents;
        let total = rest.len();
        while rest.len() > 0
            invariant
                rest@.len() + reversed@.len() == total,
                total == all.len(),
                forall|j: int| 0 <= j < rest@.len() ==> (#[trigger] rest@[j]) == all[j],
                forall|j: int|
                    0 <= j < reversed@.len() ==> (#[trigger] reversed@[j]) == all[total - 1 - j],
            decreases rest@.len(),
        {
            match rest.pop() {
                Some(last) => {
                    reversed.push(last);
                },
                None => {},
            }
        }
        let mut done: usize = 0;
        proof {
            assert(all.take(0) =~= Seq::<Option<CommitBase>>::empty());
            assert(before + present(all.take(0)) =~= before);
        }
        while reversed.len() > 0
            invariant
                done + reversed@.len() == total,
                total == all.len(),
                forall|j: int|
                    0 <= j < reversed@.len() ==> (#[trigger] reversed@[j]) == all[total - 1 - j],
                self.commits@ == before + present(all.take(done as int)),
                self.processed_commits@ == old(self).processed_commits@,
            decreases reversed@.len(),
        {
            let ghost stack = self.commits@;
            match reversed.pop() {
                Some(next) => {
                    proof {
                        assert(all.take(done + 1).drop_last() =~= all.take(done as int));
                        assert(all.take(done + 1).last() == next);
                    }
                    match next {
                        Some(commit) => {
                            self.commits.push(commit);
                            assert(before + present(all.take(done as int)).push(commit)
                                =~= stack.push(commit));
                        },
                        None => {},
                    }
                    done += 1;
                },
                None => {},
            }
        }
        proof {
            assert(all.take(total as int) =~= all);
            assert(nodes_of(before + present(all)) =~= nodes_of(before) + nodes_of(present(all)));
        }
        self.awaiting = None;
        Ok(())
    }
}

/// What to do with an object that a reference leads to, to find the commit
/// that a walk starts from.
#[derive(Debug)]
pub enum Peel {
    /// The walk starts from this commit.
    Commit(CommitBase),
    /// The object is a tag of a commit or a tag: read what it points at.
    Follow(ObjectHash),
    /// No walk starts here: the object is a tree or a tag of a tree.
    Nothing,
}

/// What to do with an object that a reference leads to: a commit starts a
/// walk, a tag of a commit or of a tag is followed, and a tree or a tag of a
/// tree starts none.
pub fn read_commit_from_ref(object: GitObject) -> (peel: Peel)
    ensures
        match object {
            GitObject::Commit(commit) => peel is Commit && peel->Commit_0 == commit,
            GitObject::Tree(_) => peel is Nothing,
            GitObject::Tag(tag) => if tag@.kind == crate::hashing::kind_tree() {
                peel is Nothing
            } else {
                peel is Follow && peel->Follow_0@ == hex_decoded(tag@.object)
            },
        },
{
    match object {
        GitObject::Commit(commit) => Peel::Commit(commit),
        GitObject::Tree(_) => Peel::Nothing,
        GitObject::Tag(tag) => match tag.target_type() {
            TagTargetType::Tree => Peel::Nothing,
            _ => Peel::Follow(tag.object()),
        },
    }
}

/// `"commit "`, `"tree "`, `"tag "` and `"blob "`: what the content of a
/// loose object starts with.
pub open spec fn loose_word(kind: Seq<u8>) -> Seq<u8> {
    kind.push(32u8)
}

/// The object that the inflated content of a loose object file holds: a
/// commit, a tree or a tag, by what the content starts with, read from
/// behind the first zero byte. A blob and anything else is no object that
/// is handed out.
pub open spec fn loose_object(
    object: Result<GitObject, GitError>,
    hash: ObjectHash,
    bytes: Seq<u8>,
) -> bool {
    if starts_with(bytes, loose_word(crate::hashing::kind_commit())) {
        match parsed_commit(bytes, true) {
            None => object is Err && object->Err_0 == GitError::MalformedObject,
            Some(commit) => object is Ok && object->Ok_0 is Commit && object->Ok_0->Commit_0@ == commit
                && object->Ok_0->Commit_0.spec_hash() == CommitHash(hash),
        }
    } else if starts_with(bytes, loose_word(crate::hashing::kind_tree())) {
        match parsed_tree(bytes, true) {
            None => object is Err && object->Err_0 == GitError::MalformedObject,
            Some(tree) => object is Ok && object->Ok_0 is Tree && object->Ok_0->Tree_0@ == tree
                && object->Ok_0->Tree_0.spec_hash() == TreeHash(hash),
        }
    } else if starts_with(bytes, loose_word(crate::hashing::kind_tag())) {
        match parsed_tag(bytes, true) {
            None => object is Err && object->Err_0 == GitError::MalformedObject,
            Some(tag) => object is Ok && object->Ok_0 is Tag && object->Ok_0->Tag_0@ == tag
                && object->Ok_0->Tag_0.spec_hash() == Some(hash),
        }
    } else {
        object is Err && object->Err_0 == GitError::UnknownObjectType
    }
}

/// Reads the object `hash` from the inflated content of its loose file.
pub fn read_object_from_hash(hash: ObjectHash, bytes: Vec<u8>) -> (object: Result<GitObject, GitError>)
    ensures
        loose_object(object, hash, bytes@),
{
    let mut commit_w = crate::hashing::commit_kind();
    commit_w.push(32u8);
    let mut tree_w = crate::hashing::tree_kind();
    tree_w.push(32u8);
    let mut tag_w = crate::hashing::tag_kind();
    tag_w.push(32u8);
    if has_prefix(bytes.as_slice(), commit_w.as_slice()) {
        match CommitBase::create(CommitHash(hash), bytes, true) {
            Ok(commit) => Ok(GitObject::Commit(commit)),
            Err(error) => Err(error),
        }
    } else if has_prefix(bytes.as_slice(), tree_w.as_slice()) {
        match Tree::create(TreeHash(hash), bytes, true) {
            Ok(tree) => Ok(GitObject::Tree(tree)),
            Err(error) => Err(error),
        }
    } else if has_prefix(bytes.as_slice(), tag_w.as_slice()) {
        match Tag::create(Some(hash), bytes, true) {
            Ok(tag) => Ok(GitObject::Tag(tag)),
            Err(error) => Err(error),
        }
    } else {
        Err(GitError::UnknownObjectType)
    }
}

} // verus!
