//! What holds of the two walks over the history, whatever the history is.

use crate::commits::{
    ids_of, lifo_next, supplied, topo_next, unprocessed, Node, WalkOutcome, WalkState,
};
use crate::object_hash::ObjectHash;
use vstd::prelude::*;

verus! {

/// The history says of the commit what the commit says of itself: it is
/// there, with these parents.
pub open spec fn consistent(history: Map<ObjectHash, Seq<ObjectHash>>, node: Node) -> bool {
    history.contains_key(node.id) && history[node.id] == node.parents
}

/// The history says of each commit what the commit says of itself.
pub open spec fn all_consistent(history: Map<ObjectHash, Seq<ObjectHash>>, nodes: Seq<Node>) -> bool {
    forall|i: int| 0 <= i < nodes.len() ==> consistent(history, #[trigger] nodes[i])
}

/// Every parent has a lower rank than its child: the history has no cycle.
pub open spec fn ranked(
    history: Map<ObjectHash, Seq<ObjectHash>>,
    rank: spec_fn(ObjectHash) -> nat,
) -> bool {
    forall|x: ObjectHash, i: int|
        history.contains_key(x) && 0 <= i < history[x].len() ==> rank(#[trigger] history[x][i])
            < rank(x)
}

/// With every commit that was handed out, its parents were handed out.
pub open spec fn parents_first(
    history: Map<ObjectHash, Seq<ObjectHash>>,
    processed: Set<ObjectHash>,
) -> bool {
    forall|x: ObjectHash, i: int|
        processed.contains(x) && history.contains_key(x) && 0 <= i < history[x].len()
            ==> processed.contains(#[trigger] history[x][i])
}

/// The commit was put back to let its parents go first, and was not handed
/// out yet.
pub open spec fn in_progress(s: WalkState, x: ObjectHash) -> bool {
    s.parents_seen.contains(x) && !s.processed.contains(x)
}

/// The commit `p` waits behind place `place`.
pub open spec fn waits_behind(s: WalkState, place: int, p: ObjectHash) -> bool {
    exists|j: int| place < j < s.stack.len() && (#[trigger] s.stack[j]).id == p
}

/// The parent `p` of the commit at `place` was handed out, waits behind the
/// commit, or is one of the commits that the walk just asked for.
pub open spec fn parent_covered(s: WalkState, place: int, p: ObjectHash) -> bool {
    s.processed.contains(p) || waits_behind(s, place, p) || (s.awaiting is Some && place
        == s.stack.len() - 1 && s.awaiting->Some_0.contains(p))
}

/// The commit `x` waits at `place`, only commits of lower rank wait behind
/// it, and each of its parents is covered.
pub open spec fn anchored(
    history: Map<ObjectHash, Seq<ObjectHash>>,
    rank: spec_fn(ObjectHash) -> nat,
    s: WalkState,
    x: ObjectHash,
    place: int,
) -> bool {
    &&& 0 <= place < s.stack.len()
    &&& s.stack[place].id == x
    &&& forall|j: int| place < j < s.stack.len() ==> rank((#[trigger] s.stack[j]).id) < rank(x)
    &&& forall|i: int| 0 <= i < history[x].len() ==> parent_covered(s, place, #[trigger] history[x][i])
}

/// What holds of every state of the walk that hands out parents first.
pub open spec fn topo_inv(
    history: Map<ObjectHash, Seq<ObjectHash>>,
    rank: spec_fn(ObjectHash) -> nat,
    s: WalkState,
) -> bool {
    &&& all_consistent(history, s.stack)
    &&& forall|x: ObjectHash| #[trigger]
        in_progress(s, x) ==> exists|place: int| anchored(history, rank, s, x, place)
    &&& s.awaiting is Some ==> s.stack.len() > 0 && in_progress(s, s.stack.last().id)
        && s.awaiting->Some_0 == unprocessed(s.stack.last().parents, s.processed)
    &&& parents_first(history, s.processed)
}

/// The parents that were not handed out are parents, were not handed out,
/// and are all of these.
pub proof fn lemma_unprocessed(parents: Seq<ObjectHash>, processed: Set<ObjectHash>)
    ensures
        forall|k: int|
            0 <= k < unprocessed(parents, processed).len() ==> !processed.contains(
                #[trigger] unprocessed(parents, processed)[k],
            ) && parents.contains(unprocessed(parents, processed)[k]),
        forall|i: int|
            0 <= i < parents.len() && !processed.contains(#[trigger] parents[i]) ==> unprocessed(
                parents,
                processed,
            ).contains(parents[i]),
    decreases parents.len(),
{
    if parents.len() > 0 {
        let head = parents.drop_last();
        lemma_unprocessed(head, processed);
        let earlier = unprocessed(head, processed);
        let all = unprocessed(parents, processed);
        assert forall|k: int| 0 <= k < all.len() implies !processed.contains(#[trigger] all[k])
            && parents.contains(all[k]) by {
            if k < earlier.len() {
                assert(all[k] == earlier[k]);
                let i = choose|i: int| 0 <= i < head.len() && head[i] == earlier[k];
                assert(parents[i] == earlier[k]);
            } else {
                assert(all[k] == parents[parents.len() - 1]);
            }
        }
        assert forall|i: int|
            0 <= i < parents.len() && !processed.contains(#[trigger] parents[i]) implies all.contains(
            parents[i],
        ) by {
            if i < head.len() {
                assert(head[i] == parents[i]);
                let k = choose|k: int| 0 <= k < earlier.len() && earlier[k] == head[i];
                assert(all[k] == parents[i]);
            } else {
                assert(all[all.len() - 1] == parents[i]);
            }
        }
    }
}

/// The walk that hands out parents first starts in a state of which its
/// invariant holds.
pub proof fn lemma_topo_start(
    history: Map<ObjectHash, Seq<ObjectHash>>,
    rank: spec_fn(ObjectHash) -> nat,
    roots: Seq<Node>,
)
    requires
        all_consistent(history, roots),
    ensures
        topo_inv(
            history,
            rank,
            WalkState {
                stack: roots,
                processed: Set::empty(),
                parents_seen: Set::empty(),
                awaiting: None,
            },
        ),
{
}

/// Parents first: where the history has no cycle, a step of the walk keeps
/// its invariant, and a commit that it hands out was not handed out before
/// while all its parents were.
#[verifier::rlimit(30)]
pub proof fn lemma_topo_next(
    history: Map<ObjectHash, Seq<ObjectHash>>,
    rank: spec_fn(ObjectHash) -> nat,
    s: WalkState,
)
    requires
        ranked(history, rank),
        topo_inv(history, rank, s),
    ensures
        topo_inv(history, rank, topo_next(s).1),
        topo_next(s).0 is Emit ==> {
            let commit = topo_next(s).0->Emit_0;
            &&& consistent(history, commit)
            &&& !s.processed.contains(commit.id)
            &&& forall|i: int|
                0 <= i < commit.parents.len() ==> s.processed.contains(#[trigger] commit.parents[i])
            &&& topo_next(s).1.processed == s.processed.insert(commit.id)
        },
        !(topo_next(s).0 is Emit) ==> topo_next(s).1.processed == s.processed,
    decreases s.stack.len(),
{
    if s.awaiting is Some || s.stack.len() == 0 {
        return ;
    }
    let n = s.stack.len() as int;
    let commit = s.stack.last();
    let wanted = unprocessed(commit.parents, s.processed);
    assert(consistent(history, s.stack[n - 1]));
    lemma_unprocessed(commit.parents, s.processed);
    if s.processed.contains(commit.id) {
        let next = WalkState {
            stack: s.stack.drop_last(),
            parents_seen: s.parents_seen.remove(commit.id),
            ..s
        };
        assert forall|x: ObjectHash| #[trigger] in_progress(next, x) implies exists|place: int|
            anchored(history, rank, next, x, place) by {
            assert(in_progress(s, x));
            let place = choose|place: int| anchored(history, rank, s, x, place);
            lemma_anchor_survives_pop(history, rank, s, next, x, place);
        }
        assert(all_consistent(history, next.stack)) by {
            assert forall|i: int| 0 <= i < next.stack.len() implies consistent(
                history,
                #[trigger] next.stack[i],
            ) by {
                assert(next.stack[i] == s.stack[i]);
            }
        }
        lemma_topo_next(history, rank, next);
    } else if s.parents_seen.contains(commit.id) || wanted.len() == 0 {
        let next = WalkState {
            stack: s.stack.drop_last(),
            processed: s.processed.insert(commit.id),
            parents_seen: s.parents_seen.insert(commit.id),
            ..s
        };
        assert forall|i: int| 0 <= i < commit.parents.len() implies s.processed.contains(
            #[trigger] commit.parents[i],
        ) by {
            if s.parents_seen.contains(commit.id) {
                assert(in_progress(s, commit.id));
                let place = choose|place: int| anchored(history, rank, s, commit.id, place);
                if place < n - 1 {
                    assert(rank(s.stack[n - 1].id) < rank(commit.id));
                }
                assert(parent_covered(s, place, history[commit.id][i]));
                if waits_behind(s, place, commit.parents[i]) {
                    let j = choose|j: int|
                        place < j < s.stack.len() && (#[trigger] s.stack[j]).id == commit.parents[i];
                }
            } else {
                if !s.processed.contains(commit.parents[i]) {
                    assert(wanted.contains(commit.parents[i]));
                }
            }
        }
        assert forall|x: ObjectHash| #[trigger] in_progress(next, x) implies exists|place: int|
            anchored(history, rank, next, x, place) by {
            assert(in_progress(s, x));
            let place = choose|place: int| anchored(history, rank, s, x, place);
            lemma_anchor_survives_pop(history, rank, s, next, x, place);
        }
        assert(all_consistent(history, next.stack)) by {
            assert forall|i: int| 0 <= i < next.stack.len() implies consistent(
                history,
                #[trigger] next.stack[i],
            ) by {
                assert(next.stack[i] == s.stack[i]);
            }
        }
        assert(parents_first(history, next.processed)) by {
            assert forall|x: ObjectHash, i: int|
                next.processed.contains(x) && history.contains_key(x) && 0 <= i
                    < history[x].len() implies next.processed.contains(
                #[trigger] history[x][i],
            ) by {
                if x == commit.id {
                    assert(s.processed.contains(commit.parents[i]));
                } else {
                    assert(s.processed.contains(history[x][i]));
                }
            }
        }
    } else {
        let next = WalkState {
            parents_seen: s.parents_seen.insert(commit.id),
            awaiting: Some(wanted),
            ..s
        };
        assert forall|x: ObjectHash| #[trigger] in_progress(next, x) implies exists|place: int|
            anchored(history, rank, next, x, place) by {
            if x == commit.id {
                assert forall|i: int| 0 <= i < history[x].len() implies parent_covered(
                    next,
                    n - 1,
                    #[trigger] history[x][i],
                ) by {
                    if !s.processed.contains(commit.parents[i]) {
                        assert(wanted.contains(commit.parents[i]));
                    }
                }
                assert(anchored(history, rank, next, x, n - 1));
            } else {
                assert(in_progress(s, x));
                let place = choose|place: int| anchored(history, rank, s, x, place);
                assert forall|i: int| 0 <= i < history[x].len() implies parent_covered(
                    next,
                    place,
                    #[trigger] history[x][i],
                ) by {
                    let p = history[x][i];
                    assert(parent_covered(s, place, p));
                    if waits_behind(s, place, p) {
                        let j = choose|j: int|
                            place < j < s.stack.len() && (#[trigger] s.stack[j]).id == p;
                        assert(next.stack[j].id == p);
                    }
                }
                assert(anchored(history, rank, next, x, place));
            }
        }
        assert(in_progress(next, next.stack.last().id));
    }
}

/// A commit that is in progress keeps its place when the last commit that
/// waits is taken, where that commit was handed out before or is handed out
/// now.
proof fn lemma_anchor_survives_pop(
    history: Map<ObjectHash, Seq<ObjectHash>>,
    rank: spec_fn(ObjectHash) -> nat,
    s: WalkState,
    next: WalkState,
    x: ObjectHash,
    place: int,
)
    requires
        s.stack.len() > 0,
        s.awaiting is None,
        next.awaiting is None,
        next.stack == s.stack.drop_last(),
        s.processed.subset_of(next.processed),
        next.processed.contains(s.stack.last().id),
        !next.processed.contains(x),
        anchored(history, rank, s, x, place),
    ensures
        anchored(history, rank, next, x, place),
{
    let n = s.stack.len() as int;
    assert(s.stack[n - 1].id != x);
    assert forall|j: int| place < j < next.stack.len() implies rank((#[trigger] next.stack[j]).id)
        < rank(x) by {
        assert(next.stack[j] == s.stack[j]);
    }
    assert forall|i: int| 0 <= i < history[x].len() implies parent_covered(
        next,
        place,
        #[trigger] history[x][i],
    ) by {
        let p = history[x][i];
        assert(parent_covered(s, place, p));
        if s.processed.contains(p) {
        } else {
            let j = choose|j: int| place < j < s.stack.len() && (#[trigger] s.stack[j]).id == p;
            if j < n - 1 {
                assert(next.stack[j].id == p);
            }
        }
    }
}

/// Where the history has no cycle and says of the supplied commits what
/// they say of themselves, supplying the commits that the walk asked for
/// keeps its invariant.
#[verifier::rlimit(30)]
pub proof fn lemma_topo_supply(
    history: Map<ObjectHash, Seq<ObjectHash>>,
    rank: spec_fn(ObjectHash) -> nat,
    s: WalkState,
    nodes: Seq<Node>,
)
    requires
        ranked(history, rank),
        topo_inv(history, rank, s),
        s.awaiting == Some(ids_of(nodes)),
        all_consistent(history, nodes),
    ensures
        topo_inv(history, rank, supplied(s, nodes)),
{
    let next = supplied(s, nodes);
    let n = s.stack.len() as int;
    let top = s.stack.last();
    let wanted = s.awaiting->Some_0;
    assert(consistent(history, s.stack[n - 1]));
    lemma_unprocessed(top.parents, s.processed);
    assert forall|k: int| 0 <= k < nodes.len() implies rank((#[trigger] nodes[k]).id) < rank(
        top.id,
    ) by {
        assert(wanted[k] == nodes[k].id);
        assert(top.parents.contains(wanted[k]));
        let i = choose|i: int| 0 <= i < top.parents.len() && top.parents[i] == wanted[k];
        assert(rank(history[top.id][i]) < rank(top.id));
    }
    assert forall|i: int| 0 <= i < next.stack.len() implies consistent(
        history,
        #[trigger] next.stack[i],
    ) by {
        if i < n {
            assert(next.stack[i] == s.stack[i]);
        } else {
            assert(next.stack[i] == nodes[i - n]);
        }
    }
    assert forall|x: ObjectHash| #[trigger] in_progress(next, x) implies exists|place: int|
        anchored(history, rank, next, x, place) by {
        assert(in_progress(s, x));
        let place = choose|place: int| anchored(history, rank, s, x, place);
        assert(next.stack[place] == s.stack[place]);
        assert forall|j: int| place < j < next.stack.len() implies rank(
            (#[trigger] next.stack[j]).id,
        ) < rank(x) by {
            if j < n {
                assert(next.stack[j] == s.stack[j]);
            } else {
                assert(next.stack[j] == nodes[j - n]);
                if place < n - 1 {
                    assert(rank(s.stack[n - 1].id) < rank(x));
                }
            }
        }
        assert forall|i: int| 0 <= i < history[x].len() implies parent_covered(
            next,
            place,
            #[trigger] history[x][i],
        ) by {
            let p = history[x][i];
            assert(parent_covered(s, place, p));
            if s.processed.contains(p) {
            } else if waits_behind(s, place, p) {
                let j = choose|j: int| place < j < s.stack.len() && (#[trigger] s.stack[j]).id == p;
                assert(next.stack[j].id == p);
            } else {
                let k = choose|k: int| 0 <= k < wanted.len() && wanted[k] == p;
                assert(next.stack[n + k] == nodes[k]);
                assert(next.stack[n + k].id == p);
            }
        }
        assert(anchored(history, rank, next, x, place));
    }
}

/// A commit without parents that was not handed out is handed out as soon
/// as it is the next to be looked at.
pub proof fn lemma_topo_root_first_pop(s: WalkState)
    requires
        s.awaiting is None,
        s.stack.len() > 0,
        s.stack.last().parents.len() == 0,
        !s.processed.contains(s.stack.last().id),
    ensures
        topo_next(s).0 == WalkOutcome::Emit(s.stack.last()),
{
    assert(unprocessed(s.stack.last().parents, s.processed).len() == 0);
}

/// The commit `p` was handed out or waits.
pub open spec fn reached(s: WalkState, p: ObjectHash) -> bool {
    s.processed.contains(p) || waits_behind(s, -1, p)
}

/// Every root was handed out or waits.
pub open spec fn roots_reached(roots: Set<ObjectHash>, s: WalkState) -> bool {
    forall|r: ObjectHash| roots.contains(r) ==> #[trigger] reached(s, r)
}

/// A step of the walk that hands out parents first loses no root.
pub proof fn lemma_topo_keeps_roots(roots: Set<ObjectHash>, s: WalkState)
    requires
        roots_reached(roots, s),
    ensures
        roots_reached(roots, topo_next(s).1),
    decreases s.stack.len(),
{
    if s.awaiting is Some || s.stack.len() == 0 {
        return ;
    }
    let n = s.stack.len() as int;
    let commit = s.stack.last();
    let wanted = unprocessed(commit.parents, s.processed);
    if s.processed.contains(commit.id) {
        let next = WalkState {
            stack: s.stack.drop_last(),
            parents_seen: s.parents_seen.remove(commit.id),
            ..s
        };
        assert forall|r: ObjectHash| roots.contains(r) implies #[trigger] reached(next, r) by {
            assert(reached(s, r));
            if !s.processed.contains(r) {
                let j = choose|j: int| -1 < j < s.stack.len() && (#[trigger] s.stack[j]).id == r;
                assert(next.stack[j].id == r);
            }
        }
        lemma_topo_keeps_roots(roots, next);
    } else if s.parents_seen.contains(commit.id) || wanted.len() == 0 {
        let next = topo_next(s).1;
        assert forall|r: ObjectHash| roots.contains(r) implies #[trigger] reached(next, r) by {
            assert(reached(s, r));
            if !s.processed.contains(r) {
                let j = choose|j: int| -1 < j < s.stack.len() && (#[trigger] s.stack[j]).id == r;
                if j < n - 1 {
                    assert(next.stack[j].id == r);
                }
            }
        }
    } else {
        let next = topo_next(s).1;
        assert forall|r: ObjectHash| roots.contains(r) implies #[trigger] reached(next, r) by {
            assert(reached(s, r));
            if !s.processed.contains(r) {
                let j = choose|j: int| -1 < j < s.stack.len() && (#[trigger] s.stack[j]).id == r;
                assert(next.stack[j].id == r);
            }
        }
    }
}

/// Supplying commits loses no root.
pub proof fn lemma_supply_keeps_roots(roots: Set<ObjectHash>, s: WalkState, nodes: Seq<Node>)
    requires
        roots_reached(roots, s),
    ensures
        roots_reached(roots, supplied(s, nodes)),
{
    let next = supplied(s, nodes);
    assert forall|r: ObjectHash| roots.contains(r) implies #[trigger] reached(next, r) by {
        assert(reached(s, r));
        if !s.processed.contains(r) {
            let j = choose|j: int| -1 < j < s.stack.len() && (#[trigger] s.stack[j]).id == r;
            assert(next.stack[j].id == r);
        }
    }
}

/// When the walk that hands out parents first is over, every commit that a
/// way from a root leads to was handed out.
pub proof fn lemma_topo_complete(
    history: Map<ObjectHash, Seq<ObjectHash>>,
    roots: Set<ObjectHash>,
    s: WalkState,
    path: Seq<ObjectHash>,
)
    requires
        parents_first(history, s.processed),
        roots_reached(roots, s),
        s.stack.len() == 0,
        is_path(history, roots, path),
    ensures
        s.processed.contains(path.last()),
    decreases path.len(),
{
    if path.len() == 1 {
        assert(reached(s, path[0]));
    } else {
        let head = path.drop_last();
        assert(is_path(history, roots, head)) by {
            assert forall|k: int| 0 <= k < head.len() implies history.contains_key(
                #[trigger] head[k],
            ) by {
                assert(head[k] == path[k]);
            }
            assert forall|k: int| 0 <= k < head.len() - 1 implies history[head[k]].contains(
                #[trigger] head[k + 1],
            ) by {
                assert(head[k] == path[k]);
                assert(head[k + 1] == path[k + 1]);
            }
            assert(head[0] == path[0]);
        }
        lemma_topo_complete(history, roots, s, head);
        let x = head.last();
        let p = path.last();
        assert(x == path[path.len() - 2]);
        assert(history.contains_key(path[path.len() - 2]));
        assert(history[path[path.len() - 2]].contains(path[path.len() - 2 + 1]));
        let i = choose|i: int| 0 <= i < history[x].len() && history[x][i] == p;
        assert(s.processed.contains(history[x][i]));
    }
}

/// What holds of every state of the walk that hands out each commit once:
/// `emitted` are the commits handed out so far, none twice; each root and
/// each parent of a commit that was handed out, where the history holds
/// it, was handed out, waits, or was just asked for.
pub open spec fn lifo_inv(
    history: Map<ObjectHash, Seq<ObjectHash>>,
    roots: Set<ObjectHash>,
    s: WalkState,
    emitted: Seq<ObjectHash>,
) -> bool {
    &&& all_consistent(history, s.stack)
    &&& emitted.no_duplicates()
    &&& forall|x: ObjectHash| s.processed.contains(x) <==> emitted.contains(x)
    &&& forall|x: ObjectHash| s.processed.contains(x) ==> history.contains_key(x)
    &&& forall|r: ObjectHash| roots.contains(r) ==> #[trigger] reached(s, r)
    &&& forall|x: ObjectHash, i: int|
        s.processed.contains(x) && 0 <= i < history[x].len() && history.contains_key(
            #[trigger] history[x][i],
        ) ==> reached(s, history[x][i]) || (s.awaiting is Some && s.awaiting->Some_0.contains(
            history[x][i],
        ))
}

/// The walk that hands out each commit once starts in a state of which its
/// invariant holds.
pub proof fn lemma_lifo_start(history: Map<ObjectHash, Seq<ObjectHash>>, roots: Seq<Node>)
    requires
        all_consistent(history, roots),
    ensures
        lifo_inv(
            history,
            ids_of(roots).to_set(),
            WalkState {
                stack: roots,
                processed: Set::empty(),
                parents_seen: Set::empty(),
                awaiting: None,
            },
            Seq::empty(),
        ),
{
    let s = WalkState {
        stack: roots,
        processed: Set::empty(),
        parents_seen: Set::empty(),
        awaiting: None,
    };
    assert forall|r: ObjectHash| ids_of(roots).to_set().contains(r) implies #[trigger] reached(
        s,
        r,
    ) by {
        let j = choose|j: int| 0 <= j < ids_of(roots).len() && ids_of(roots)[j] == r;
        assert(s.stack[j].id == r);
    }
}

/// The commits handed out once a step is done.
pub open spec fn emitted_after(emitted: Seq<ObjectHash>, outcome: WalkOutcome) -> Seq<ObjectHash> {
    match outcome {
        WalkOutcome::Emit(commit) => emitted.push(commit.id),
        _ => emitted,
    }
}

/// Exactly once: a step of the walk keeps its invariant, and a commit that
/// it hands out was not handed out before. When the walk is over, nothing
/// waits.
#[verifier::rlimit(30)]
pub proof fn lemma_lifo_next(
    history: Map<ObjectHash, Seq<ObjectHash>>,
    roots: Set<ObjectHash>,
    s: WalkState,
    emitted: Seq<ObjectHash>,
)
    requires
        lifo_inv(history, roots, s, emitted),
    ensures
        lifo_inv(history, roots, lifo_next(s).1, emitted_after(emitted, lifo_next(s).0)),
        lifo_next(s).0 is Emit ==> !emitted.contains(lifo_next(s).0->Emit_0.id),
        lifo_next(s).0 is Done ==> lifo_next(s).1.stack.len() == 0 && lifo_next(s).1.awaiting is None,
    decreases s.stack.len(),
{
    if s.awaiting is Some || s.stack.len() == 0 {
        return ;
    }
    let n = s.stack.len() as int;
    let commit = s.stack.last();
    assert(consistent(history, s.stack[n - 1]));
    if s.processed.contains(commit.id) {
        let next = WalkState { stack: s.stack.drop_last(), ..s };
        assert forall|p: ObjectHash| reached(s, p) implies reached(next, p) by {
            if !s.processed.contains(p) {
                let j = choose|j: int| -1 < j < s.stack.len() && (#[trigger] s.stack[j]).id == p;
                assert(j < n - 1);
                assert(next.stack[j].id == p);
            }
        }
        assert forall|i: int| 0 <= i < next.stack.len() implies consistent(
            history,
            #[trigger] next.stack[i],
        ) by {
            assert(next.stack[i] == s.stack[i]);
        }
        assert forall|r: ObjectHash| roots.contains(r) implies #[trigger] reached(next, r) by {
            assert(reached(s, r));
        }
        assert forall|x: ObjectHash, i: int|
            next.processed.contains(x) && 0 <= i < history[x].len() && history.contains_key(
                #[trigger] history[x][i],
            ) implies reached(next, history[x][i]) || (next.awaiting is Some
            && next.awaiting->Some_0.contains(history[x][i])) by {
            assert(reached(s, history[x][i]));
        }
        lemma_lifo_next(history, roots, next, emitted);
    } else {
        let processed = s.processed.insert(commit.id);
        let wanted = unprocessed(commit.parents, processed);
        let next = lifo_next(s).1;
        let after = emitted.push(commit.id);
        lemma_unprocessed(commit.parents, processed);
        assert(!emitted.contains(commit.id));
        assert forall|p: ObjectHash| reached(s, p) implies reached(next, p) by {
            if !s.processed.contains(p) {
                let j = choose|j: int| -1 < j < s.stack.len() && (#[trigger] s.stack[j]).id == p;
                if j < n - 1 {
                    assert(next.stack[j].id == p);
                }
            }
        }
        assert forall|i: int| 0 <= i < next.stack.len() implies consistent(
            history,
            #[trigger] next.stack[i],
        ) by {
            assert(next.stack[i] == s.stack[i]);
        }
        assert(after.no_duplicates()) by {
            assert forall|i: int, j: int| 0 <= i < after.len() && 0 <= j < after.len() && i
                != j implies after[i] != after[j] by {
                if i == emitted.len() {
                    assert(emitted[j] == after[j]);
                } else if j == emitted.len() {
                    assert(emitted[i] == after[i]);
                }
            }
        }
        assert forall|x: ObjectHash| next.processed.contains(x) <==> after.contains(x) by {
            if next.processed.contains(x) {
                if x == commit.id {
                    assert(after[emitted.len() as int] == x);
                } else {
                    assert(s.processed.contains(x));
                    assert(emitted.contains(x));
                    let k = choose|k: int| 0 <= k < emitted.len() && emitted[k] == x;
                    assert(after[k] == x);
                }
            }
            if after.contains(x) {
                let k = choose|k: int| 0 <= k < after.len() && after[k] == x;
                if k < emitted.len() {
                    assert(emitted[k] == x);
                    assert(emitted.contains(x));
                    assert(s.processed.contains(x));
                }
            }
        }
        assert forall|r: ObjectHash| roots.contains(r) implies #[trigger] reached(next, r) by {
            assert(reached(s, r));
        }
        assert forall|x: ObjectHash, i: int|
            next.processed.contains(x) && 0 <= i < history[x].len() && history.contains_key(
                #[trigger] history[x][i],
            ) implies reached(next, history[x][i]) || (next.awaiting is Some
            && next.awaiting->Some_0.contains(history[x][i])) by {
            let p = history[x][i];
            if x == commit.id {
                if !processed.contains(p) {
                    assert(wanted.contains(commit.parents[i]));
                }
            } else {
                assert(reached(s, p));
            }
        }
    }
}

/// Supplying what the walk asked for keeps its invariant, where the history
/// says of the supplied commits what they say of themselves and does not
/// hold the commits that were not to be had.
#[verifier::rlimit(30)]
pub proof fn lemma_lifo_supply(
    history: Map<ObjectHash, Seq<ObjectHash>>,
    roots: Set<ObjectHash>,
    s: WalkState,
    emitted: Seq<ObjectHash>,
    nodes: Seq<Node>,
)
    requires
        lifo_inv(history, roots, s, emitted),
        s.awaiting is Some,
        all_consistent(history, nodes),
        forall|k: int|
            0 <= k < s.awaiting->Some_0.len() && history.contains_key(#[trigger] s.awaiting->Some_0[k])
                ==> ids_of(nodes).contains(s.awaiting->Some_0[k]),
    ensures
        lifo_inv(history, roots, supplied(s, nodes), emitted),
{
    let next = supplied(s, nodes);
    let n = s.stack.len() as int;
    assert forall|i: int| 0 <= i < next.stack.len() implies consistent(
        history,
        #[trigger] next.stack[i],
    ) by {
        if i < n {
            assert(next.stack[i] == s.stack[i]);
        } else {
            assert(next.stack[i] == nodes[i - n]);
        }
    }
    assert forall|p: ObjectHash| reached(s, p) implies reached(next, p) by {
        if !s.processed.contains(p) {
            let j = choose|j: int| -1 < j < s.stack.len() && (#[trigger] s.stack[j]).id == p;
            assert(next.stack[j].id == p);
        }
    }
    assert forall|r: ObjectHash| roots.contains(r) implies #[trigger] reached(next, r) by {
        assert(reached(s, r));
    }
    assert forall|x: ObjectHash, i: int|
        next.processed.contains(x) && 0 <= i < history[x].len() && history.contains_key(
            #[trigger] history[x][i],
        ) implies reached(next, history[x][i]) || (next.awaiting is Some
        && next.awaiting->Some_0.contains(history[x][i])) by {
        let p = history[x][i];
        if reached(s, p) {
        } else {
            let wanted = s.awaiting->Some_0;
            let k = choose|k: int| 0 <= k < wanted.len() && wanted[k] == p;
            assert(ids_of(nodes).contains(wanted[k]));
            let m = choose|m: int| 0 <= m < ids_of(nodes).len() && ids_of(nodes)[m] == p;
            assert(next.stack[n + m] == nodes[m]);
            assert(next.stack[n + m].id == p);
        }
    }
}

/// A way from a root along parents that the history holds.
pub open spec fn is_path(
    history: Map<ObjectHash, Seq<ObjectHash>>,
    roots: Set<ObjectHash>,
    path: Seq<ObjectHash>,
) -> bool {
    &&& path.len() > 0
    &&& roots.contains(path[0])
    &&& forall|k: int| 0 <= k < path.len() ==> history.contains_key(#[trigger] path[k])
    &&& forall|k: int| 0 <= k < path.len() - 1 ==> history[path[k]].contains(#[trigger] path[k + 1])
}

/// Every reachable commit: when the walk is over, every commit that a way
/// from a root leads to was handed out.
pub proof fn lemma_lifo_complete(
    history: Map<ObjectHash, Seq<ObjectHash>>,
    roots: Set<ObjectHash>,
    s: WalkState,
    emitted: Seq<ObjectHash>,
    path: Seq<ObjectHash>,
)
    requires
        lifo_inv(history, roots, s, emitted),
        s.stack.len() == 0,
        s.awaiting is None,
        is_path(history, roots, path),
    ensures
        emitted.contains(path.last()),
    decreases path.len(),
{
    if path.len() == 1 {
        assert(reached(s, path[0]));
        assert(s.processed.contains(path[0]));
    } else {
        let head = path.drop_last();
        assert(is_path(history, roots, head)) by {
            assert forall|k: int| 0 <= k < head.len() implies history.contains_key(
                #[trigger] head[k],
            ) by {
                assert(head[k] == path[k]);
            }
            assert forall|k: int| 0 <= k < head.len() - 1 implies history[head[k]].contains(
                #[trigger] head[k + 1],
            ) by {
                assert(head[k] == path[k]);
                assert(head[k + 1] == path[k + 1]);
            }
            assert(head[0] == path[0]);
        }
        lemma_lifo_complete(history, roots, s, emitted, head);
        let x = head.last();
        let p = path.last();
        assert(x == path[path.len() - 2]);
        assert(history[path[path.len() - 2]].contains(path[path.len() - 2 + 1]));
        let i = choose|i: int| 0 <= i < history[x].len() && history[x][i] == p;
        assert(s.processed.contains(x));
        assert(history.contains_key(path[path.len() - 1]));
        assert(reached(s, history[x][i]));
        assert(s.processed.contains(p));
    }
}

} // verus!
