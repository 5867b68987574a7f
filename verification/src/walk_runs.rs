//! What holds of a whole walk over a history in which every commit can be
//! read: the caller asks for the next step again and again and supplies
//! each time the commits that the walk asks for.

use crate::commits::{
    ids_of, lifo_next, supplied, topo_next, unprocessed, Node, WalkOutcome, WalkState,
};
use crate::object_hash::ObjectHash;
use crate::walk_laws::{
    all_consistent, consistent, emitted_after, is_path, lemma_lifo_complete, lemma_lifo_next,
    lemma_lifo_start, lemma_lifo_supply, lemma_supply_keeps_roots, lemma_topo_complete,
    lemma_topo_keeps_roots, lemma_topo_next, lemma_topo_start, lemma_topo_supply,
    lemma_unprocessed, lifo_inv, ranked, reached, roots_reached, topo_inv,
};
use vstd::prelude::*;
use vstd::set_lib::lemma_len_subset;

verus! {

/// The history holds every parent of every commit that it holds.
pub open spec fn parents_known(history: Map<ObjectHash, Seq<ObjectHash>>) -> bool {
    forall|x: ObjectHash, i: int|
        history.contains_key(x) && 0 <= i < history[x].len() ==> history.contains_key(
            #[trigger] history[x][i],
        )
}

/// The commits that the history holds under these identifiers.
pub open spec fn fetched(history: Map<ObjectHash, Seq<ObjectHash>>, wanted: Seq<ObjectHash>) -> Seq<Node> {
    Seq::new(wanted.len(), |i: int| Node { id: wanted[i], parents: history[wanted[i]] })
}

/// The state in which a walk from these roots starts.
pub open spec fn start_of(roots: Seq<Node>) -> WalkState {
    WalkState { stack: roots, processed: Set::empty(), parents_seen: Set::empty(), awaiting: None }
}

/// The commit `p` was handed out before place `k`.
pub open spec fn handed_before(emitted: Seq<ObjectHash>, k: int, p: ObjectHash) -> bool {
    exists|j: int| 0 <= j < k && emitted[j] == p
}

/// Every parent of every commit that was handed out was handed out before
/// it.
pub open spec fn parents_before(
    history: Map<ObjectHash, Seq<ObjectHash>>,
    emitted: Seq<ObjectHash>,
) -> bool {
    forall|k: int, i: int|
        0 <= k < emitted.len() && 0 <= i < history[emitted[k]].len() ==> handed_before(
            emitted,
            k,
            #[trigger] history[emitted[k]][i],
        )
}

/// The walk is over: nothing waits and nothing is asked for.
pub open spec fn finished(s: WalkState) -> bool {
    s.stack.len() == 0 && s.awaiting is None
}

/// The commits that the walk has put back or handed out.
pub open spec fn touched_set(s: WalkState) -> Set<ObjectHash> {
    s.parents_seen.union(s.processed)
}

/// What `calls` calls of the walk that hands out parents first come to:
/// the commits handed out, in order, and the state. After each call that
/// asks for commits, the history supplies them.
pub open spec fn topo_run(
    history: Map<ObjectHash, Seq<ObjectHash>>,
    roots: Seq<Node>,
    calls: nat,
) -> (Seq<ObjectHash>, WalkState)
    decreases calls,
{
    if calls == 0 {
        (Seq::empty(), start_of(roots))
    } else {
        let (emitted, before) = topo_run(history, roots, (calls - 1) as nat);
        let (outcome, after) = topo_next(before);
        match outcome {
            WalkOutcome::Emit(commit) => (emitted.push(commit.id), after),
            WalkOutcome::Fetch(wanted) => (emitted, supplied(after, fetched(history, wanted))),
            WalkOutcome::Done => (emitted, after),
        }
    }
}

/// What `calls` calls of the walk that hands out each commit once come to.
pub open spec fn lifo_run(
    history: Map<ObjectHash, Seq<ObjectHash>>,
    roots: Seq<Node>,
    calls: nat,
) -> (Seq<ObjectHash>, WalkState)
    decreases calls,
{
    if calls == 0 {
        (Seq::empty(), start_of(roots))
    } else {
        let (emitted, before) = lifo_run(history, roots, (calls - 1) as nat);
        let (outcome, after) = lifo_next(before);
        match outcome {
            WalkOutcome::Emit(commit) => (emitted.push(commit.id), after),
            WalkOutcome::Fetch(wanted) => (emitted, supplied(after, fetched(history, wanted))),
            WalkOutcome::Done => (emitted, after),
        }
    }
}

/// What one call of the walk that hands out parents first does to a state
/// in which nothing is asked for.
pub proof fn lemma_topo_shape(history: Map<ObjectHash, Seq<ObjectHash>>, s: WalkState)
    requires
        s.awaiting is None,
        all_consistent(history, s.stack),
    ensures
        ({
            let (outcome, after) = topo_next(s);
            &&& s.parents_seen.finite() ==> after.parents_seen.finite()
            &&& forall|x: ObjectHash|
                after.parents_seen.contains(x) ==> s.parents_seen.contains(x) || history.contains_key(x)
            &&& outcome is Done ==> finished(after) && after.processed == s.processed && touched_set(after)
                == touched_set(s)
            &&& outcome is Emit ==> after.awaiting is None && history.contains_key(outcome->Emit_0.id)
                && !s.processed.contains(outcome->Emit_0.id) && after.processed == s.processed.insert(
                outcome->Emit_0.id,
            ) && touched_set(after) == touched_set(s).insert(outcome->Emit_0.id)
            &&& outcome is Fetch ==> {
                &&& after.awaiting == Some(outcome->Fetch_0)
                &&& after.stack.len() > 0
                &&& consistent(history, after.stack.last())
                &&& outcome->Fetch_0 == unprocessed(after.stack.last().parents, after.processed)
                &&& after.processed == s.processed
                &&& !touched_set(s).contains(after.stack.last().id)
                &&& touched_set(after) == touched_set(s).insert(after.stack.last().id)
            }
        }),
    decreases s.stack.len(),
{
    if s.stack.len() == 0 {
        return ;
    }
    let commit = s.stack.last();
    let wanted = unprocessed(commit.parents, s.processed);
    assert(consistent(history, s.stack[s.stack.len() - 1]));
    if s.processed.contains(commit.id) {
        let next = WalkState {
            stack: s.stack.drop_last(),
            parents_seen: s.parents_seen.remove(commit.id),
            ..s
        };
        assert forall|i: int| 0 <= i < next.stack.len() implies consistent(
            history,
            #[trigger] next.stack[i],
        ) by {
            assert(next.stack[i] == s.stack[i]);
        }
        lemma_topo_shape(history, next);
        assert(touched_set(next) =~= touched_set(s));
    } else if s.parents_seen.contains(commit.id) || wanted.len() == 0 {
        let after = topo_next(s).1;
        assert(touched_set(after) =~= touched_set(s).insert(commit.id));
    } else {
        let after = topo_next(s).1;
        assert(touched_set(after) =~= touched_set(s).insert(commit.id));
    }
}

/// The commits that the history supplies are what it says of them, where
/// it holds them.
pub proof fn lemma_fetched(history: Map<ObjectHash, Seq<ObjectHash>>, wanted: Seq<ObjectHash>)
    requires
        forall|k: int| 0 <= k < wanted.len() ==> history.contains_key(#[trigger] wanted[k]),
    ensures
        all_consistent(history, fetched(history, wanted)),
        ids_of(fetched(history, wanted)) == wanted,
{
    assert(ids_of(fetched(history, wanted)) =~= wanted);
}

/// What holds after any number of calls of the walk that hands out parents
/// first.
pub open spec fn topo_run_inv(
    history: Map<ObjectHash, Seq<ObjectHash>>,
    rank: spec_fn(ObjectHash) -> nat,
    roots: Set<ObjectHash>,
    emitted: Seq<ObjectHash>,
    s: WalkState,
) -> bool {
    &&& topo_inv(history, rank, s)
    &&& s.awaiting is None
    &&& emitted.no_duplicates()
    &&& forall|x: ObjectHash| s.processed.contains(x) <==> emitted.contains(x)
    &&& parents_before(history, emitted)
    &&& roots_reached(roots, s)
    &&& forall|x: ObjectHash| touched_set(s).contains(x) ==> history.contains_key(x)
    &&& s.processed.finite()
    &&& s.parents_seen.finite()
}

/// A commit that is handed out behind commits that do not hold it leaves
/// no commit twice among them.
proof fn lemma_push_fresh(emitted: Seq<ObjectHash>, id: ObjectHash)
    requires
        emitted.no_duplicates(),
        !emitted.contains(id),
    ensures
        emitted.push(id).no_duplicates(),
        forall|x: ObjectHash| emitted.push(id).contains(x) <==> (x == id || emitted.contains(x)),
{
    let after = emitted.push(id);
    assert forall|i: int, j: int| 0 <= i < after.len() && 0 <= j < after.len() && i != j implies after[i]
        != after[j] by {
        if i < emitted.len() {
            assert(emitted[i] == after[i]);
        }
        if j < emitted.len() {
            assert(emitted[j] == after[j]);
        }
    }
    assert forall|x: ObjectHash| after.contains(x) <==> (x == id || emitted.contains(x)) by {
        if after.contains(x) {
            let k = choose|k: int| 0 <= k < after.len() && after[k] == x;
            if k < emitted.len() {
                assert(emitted[k] == x);
            }
        }
        if x == id {
            assert(after[emitted.len() as int] == x);
        }
        if emitted.contains(x) {
            let k = choose|k: int| 0 <= k < emitted.len() && emitted[k] == x;
            assert(after[k] == x);
        }
    }
}

/// Parents first, over a whole walk: in a history without a cycle that
/// holds every parent, whatever the number of calls, no commit was handed
/// out twice and every commit was handed out after all its parents.
#[verifier::rlimit(50)]
pub proof fn lemma_topo_run(
    history: Map<ObjectHash, Seq<ObjectHash>>,
    rank: spec_fn(ObjectHash) -> nat,
    roots: Seq<Node>,
    calls: nat,
)
    requires
        ranked(history, rank),
        parents_known(history),
        all_consistent(history, roots),
    ensures
        topo_run_inv(
            history,
            rank,
            ids_of(roots).to_set(),
            topo_run(history, roots, calls).0,
            topo_run(history, roots, calls).1,
        ),
        topo_run(history, roots, calls).0.no_duplicates(),
        parents_before(history, topo_run(history, roots, calls).0),
    decreases calls,
{
    let root_set = ids_of(roots).to_set();
    if calls == 0 {
        let s = start_of(roots);
        lemma_topo_start(history, rank, roots);
        assert forall|r: ObjectHash| root_set.contains(r) implies #[trigger] reached(s, r) by {
            let j = choose|j: int| 0 <= j < ids_of(roots).len() && ids_of(roots)[j] == r;
            assert(s.stack[j].id == r);
        }
    } else {
        lemma_topo_run(history, rank, roots, (calls - 1) as nat);
        let (emitted, before) = topo_run(history, roots, (calls - 1) as nat);
        let (outcome, after) = topo_next(before);
        lemma_topo_next(history, rank, before);
        lemma_topo_shape(history, before);
        lemma_topo_keeps_roots(root_set, before);
        let s = topo_run(history, roots, calls).1;
        let handed = topo_run(history, roots, calls).0;
        match outcome {
            WalkOutcome::Emit(commit) => {
                let now = emitted.push(commit.id);
                assert(!emitted.contains(commit.id)) by {
                    assert(before.processed.contains(commit.id) <==> emitted.contains(commit.id));
                }
                lemma_push_fresh(emitted, commit.id);
                assert forall|x: ObjectHash| s.processed.contains(x) <==> handed.contains(x) by {
                    assert(before.processed.contains(x) <==> emitted.contains(x));
                }
                assert forall|k: int, i: int|
                    0 <= k < now.len() && 0 <= i < history[now[k]].len() implies handed_before(
                    now,
                    k,
                    #[trigger] history[now[k]][i],
                ) by {
                    if k < emitted.len() {
                        assert(now[k] == emitted[k]);
                        assert(handed_before(emitted, k, history[emitted[k]][i]));
                        let j = choose|j: int| 0 <= j < k && emitted[j] == history[emitted[k]][i];
                        assert(now[j] == emitted[j]);
                    } else {
                        assert(before.processed.contains(commit.parents[i]));
                        assert(emitted.contains(commit.parents[i]));
                        let j = choose|j: int|
                            0 <= j < emitted.len() && emitted[j] == commit.parents[i];
                        assert(now[j] == emitted[j]);
                    }
                }
            },
            WalkOutcome::Fetch(wanted) => {
                let top = after.stack.last();
                lemma_unprocessed(top.parents, after.processed);
                assert forall|k: int| 0 <= k < wanted.len() implies history.contains_key(
                    #[trigger] wanted[k],
                ) by {
                    assert(top.parents.contains(wanted[k]));
                    let i = choose|i: int| 0 <= i < top.parents.len() && top.parents[i] == wanted[k];
                    assert(history.contains_key(history[top.id][i]));
                }
                lemma_fetched(history, wanted);
                lemma_topo_supply(history, rank, after, fetched(history, wanted));
                lemma_supply_keeps_roots(root_set, after, fetched(history, wanted));
                assert forall|x: ObjectHash| s.processed.contains(x) <==> handed.contains(x) by {
                    assert(before.processed.contains(x) <==> emitted.contains(x));
                }
                assert(touched_set(s) =~= touched_set(after));
            },
            WalkOutcome::Done => {
                assert forall|x: ObjectHash| s.processed.contains(x) <==> handed.contains(x) by {
                    assert(before.processed.contains(x) <==> emitted.contains(x));
                }
            },
        }
    }
}

/// The walk that hands out parents first ends: in a history of finitely
/// many commits, without a cycle, that holds every parent, after no more
/// than twice as many calls as there are commits nothing waits any more,
/// and as long as something waits there were no more calls than commits
/// handed out and commits put back or handed out.
#[verifier::rlimit(50)]
pub proof fn lemma_topo_run_bound(
    history: Map<ObjectHash, Seq<ObjectHash>>,
    rank: spec_fn(ObjectHash) -> nat,
    roots: Seq<Node>,
    calls: nat,
)
    requires
        ranked(history, rank),
        parents_known(history),
        all_consistent(history, roots),
        history.dom().finite(),
    ensures
        finished(topo_run(history, roots, calls).1) || calls <= topo_run(
            history,
            roots,
            calls,
        ).1.processed.len() + touched_set(topo_run(history, roots, calls).1).len(),
        calls > 2 * history.dom().len() ==> finished(topo_run(history, roots, calls).1),
    decreases calls,
{
    lemma_topo_run(history, rank, roots, calls);
    let s = topo_run(history, roots, calls).1;
    if calls > 0 {
        lemma_topo_run_bound(history, rank, roots, (calls - 1) as nat);
        lemma_topo_run(history, rank, roots, (calls - 1) as nat);
        let before = topo_run(history, roots, (calls - 1) as nat).1;
        let (outcome, after) = topo_next(before);
        lemma_topo_shape(history, before);
        if !finished(before) {
            match outcome {
                WalkOutcome::Emit(commit) => {},
                WalkOutcome::Fetch(wanted) => {
                    assert(touched_set(s) =~= touched_set(after));
                },
                WalkOutcome::Done => {},
            }
        }
    }
    assert(s.processed.subset_of(history.dom())) by {
        assert forall|x: ObjectHash| s.processed.contains(x) implies history.dom().contains(x) by {
            assert(touched_set(s).contains(x));
        }
    }
    assert(touched_set(s).subset_of(history.dom()));
    lemma_len_subset(s.processed, history.dom());
    lemma_len_subset(touched_set(s), history.dom());
}

/// Every reachable commit, parents first: once nothing waits in the walk
/// that hands out parents first, every commit that a way from a root leads
/// to was handed out.
pub proof fn lemma_topo_run_complete(
    history: Map<ObjectHash, Seq<ObjectHash>>,
    rank: spec_fn(ObjectHash) -> nat,
    roots: Seq<Node>,
    calls: nat,
    path: Seq<ObjectHash>,
)
    requires
        ranked(history, rank),
        parents_known(history),
        all_consistent(history, roots),
        finished(topo_run(history, roots, calls).1),
        is_path(history, ids_of(roots).to_set(), path),
    ensures
        topo_run(history, roots, calls).0.contains(path.last()),
{
    lemma_topo_run(history, rank, roots, calls);
    let (emitted, s) = topo_run(history, roots, calls);
    lemma_topo_complete(history, ids_of(roots).to_set(), s, path);
    assert(s.processed.contains(path.last()));
}

/// What one call of the walk that hands out each commit once does.
pub proof fn lemma_lifo_shape(history: Map<ObjectHash, Seq<ObjectHash>>, s: WalkState)
    requires
        all_consistent(history, s.stack),
        parents_known(history),
    ensures
        ({
            let (outcome, after) = lifo_next(s);
            &&& outcome is Done ==> finished(after) && after.processed == s.processed && s.awaiting is None
            &&& outcome is Fetch ==> s.awaiting == Some(outcome->Fetch_0) && after == s
            &&& outcome is Emit ==> {
                &&& s.awaiting is None
                &&& !s.processed.contains(outcome->Emit_0.id)
                &&& after.processed == s.processed.insert(outcome->Emit_0.id)
                &&& after.awaiting is Some ==> forall|k: int|
                    0 <= k < after.awaiting->Some_0.len() ==> history.contains_key(
                        #[trigger] after.awaiting->Some_0[k],
                    )
            }
        }),
    decreases s.stack.len(),
{
    if s.awaiting is Some || s.stack.len() == 0 {
        return ;
    }
    let commit = s.stack.last();
    assert(consistent(history, s.stack[s.stack.len() - 1]));
    if s.processed.contains(commit.id) {
        let next = WalkState { stack: s.stack.drop_last(), ..s };
        assert forall|i: int| 0 <= i < next.stack.len() implies consistent(
            history,
            #[trigger] next.stack[i],
        ) by {
            assert(next.stack[i] == s.stack[i]);
        }
        lemma_lifo_shape(history, next);
    } else {
        let processed = s.processed.insert(commit.id);
        let wanted = unprocessed(commit.parents, processed);
        lemma_unprocessed(commit.parents, processed);
        assert forall|k: int| 0 <= k < wanted.len() implies history.contains_key(
            #[trigger] wanted[k],
        ) by {
            assert(commit.parents.contains(wanted[k]));
            let i = choose|i: int| 0 <= i < commit.parents.len() && commit.parents[i] == wanted[k];
            assert(history.contains_key(history[commit.id][i]));
        }
    }
}

/// What holds after any number of calls of the walk that hands out each
/// commit once.
pub open spec fn lifo_run_inv(
    history: Map<ObjectHash, Seq<ObjectHash>>,
    roots: Set<ObjectHash>,
    emitted: Seq<ObjectHash>,
    s: WalkState,
) -> bool {
    &&& lifo_inv(history, roots, s, emitted)
    &&& s.processed.finite()
    &&& s.awaiting is Some ==> forall|k: int|
        0 <= k < s.awaiting->Some_0.len() ==> history.contains_key(#[trigger] s.awaiting->Some_0[k])
}

/// Exactly once, over a whole walk: in a history that holds every parent,
/// whatever the number of calls, no commit was handed out twice.
#[verifier::rlimit(50)]
pub proof fn lemma_lifo_run(history: Map<ObjectHash, Seq<ObjectHash>>, roots: Seq<Node>, calls: nat)
    requires
        parents_known(history),
        all_consistent(history, roots),
    ensures
        lifo_run_inv(
            history,
            ids_of(roots).to_set(),
            lifo_run(history, roots, calls).0,
            lifo_run(history, roots, calls).1,
        ),
        lifo_run(history, roots, calls).0.no_duplicates(),
    decreases calls,
{
    let root_set = ids_of(roots).to_set();
    if calls == 0 {
        lemma_lifo_start(history, roots);
    } else {
        lemma_lifo_run(history, roots, (calls - 1) as nat);
        let (emitted, before) = lifo_run(history, roots, (calls - 1) as nat);
        let (outcome, after) = lifo_next(before);
        lemma_lifo_next(history, root_set, before, emitted);
        lemma_lifo_shape(history, before);
        match outcome {
            WalkOutcome::Emit(commit) => {},
            WalkOutcome::Fetch(wanted) => {
                lemma_fetched(history, wanted);
                lemma_lifo_supply(history, root_set, after, emitted, fetched(history, wanted));
            },
            WalkOutcome::Done => {},
        }
    }
}

/// The walk that hands out each commit once ends: in a history of finitely
/// many commits that holds every parent, after no more than twice as many
/// calls as there are commits, and one more, nothing waits any more.
#[verifier::rlimit(50)]
pub proof fn lemma_lifo_run_bound(
    history: Map<ObjectHash, Seq<ObjectHash>>,
    roots: Seq<Node>,
    calls: nat,
)
    requires
        parents_known(history),
        all_consistent(history, roots),
        history.dom().finite(),
    ensures
        finished(lifo_run(history, roots, calls).1) || (lifo_run(history, roots, calls).1.awaiting is None
            && calls <= 2 * lifo_run(history, roots, calls).1.processed.len()) || (lifo_run(
            history,
            roots,
            calls,
        ).1.awaiting is Some && calls + 1 <= 2 * lifo_run(history, roots, calls).1.processed.len()),
        calls > 2 * history.dom().len() ==> finished(lifo_run(history, roots, calls).1),
    decreases calls,
{
    lemma_lifo_run(history, roots, calls);
    let s = lifo_run(history, roots, calls).1;
    if calls > 0 {
        lemma_lifo_run_bound(history, roots, (calls - 1) as nat);
        lemma_lifo_run(history, roots, (calls - 1) as nat);
        let before = lifo_run(history, roots, (calls - 1) as nat).1;
        lemma_lifo_shape(history, before);
    }
    assert(s.processed.subset_of(history.dom()));
    lemma_len_subset(s.processed, history.dom());
}

/// Every reachable commit, exactly once: once nothing waits in the walk
/// that hands out each commit once, every commit that a way from a root
/// leads to was handed out.
pub proof fn lemma_lifo_run_complete(
    history: Map<ObjectHash, Seq<ObjectHash>>,
    roots: Seq<Node>,
    calls: nat,
    path: Seq<ObjectHash>,
)
    requires
        parents_known(history),
        all_consistent(history, roots),
        finished(lifo_run(history, roots, calls).1),
        is_path(history, ids_of(roots).to_set(), path),
    ensures
        lifo_run(history, roots, calls).0.contains(path.last()),
{
    lemma_lifo_run(history, roots, calls);
    let (emitted, s) = lifo_run(history, roots, calls);
    lemma_lifo_complete(history, ids_of(roots).to_set(), s, emitted, path);
}

/// A way from a root leads to the commit.
pub open spec fn reachable(
    history: Map<ObjectHash, Seq<ObjectHash>>,
    roots: Set<ObjectHash>,
    x: ObjectHash,
) -> bool {
    exists|path: Seq<ObjectHash>| is_path(history, roots, path) && path.last() == x
}

/// A way leads to every parent of a commit that a way leads to.
pub proof fn lemma_reach_parent(
    history: Map<ObjectHash, Seq<ObjectHash>>,
    roots: Set<ObjectHash>,
    x: ObjectHash,
    p: ObjectHash,
)
    requires
        parents_known(history),
        reachable(history, roots, x),
        history[x].contains(p),
    ensures
        reachable(history, roots, p),
{
    let path = choose|path: Seq<ObjectHash>| is_path(history, roots, path) && path.last() == x;
    let longer = path.push(p);
    let i = choose|i: int| 0 <= i < history[x].len() && history[x][i] == p;
    assert(history.contains_key(path[path.len() - 1]));
    assert(history.contains_key(history[x][i]));
    assert forall|k: int| 0 <= k < longer.len() implies history.contains_key(
        #[trigger] longer[k],
    ) by {
        if k < path.len() {
            assert(longer[k] == path[k]);
        }
    }
    assert forall|k: int| 0 <= k < longer.len() - 1 implies history[longer[k]].contains(
        #[trigger] longer[k + 1],
    ) by {
        assert(longer[k] == path[k]);
        if k < path.len() - 1 {
            assert(longer[k + 1] == path[k + 1]);
        }
    }
    assert(longer[0] == path[0]);
    assert(is_path(history, roots, longer));
    assert(longer.last() == p);
}

/// A way leads to every commit that waits and to every commit that is
/// asked for.
pub open spec fn all_reachable(
    history: Map<ObjectHash, Seq<ObjectHash>>,
    roots: Set<ObjectHash>,
    s: WalkState,
) -> bool {
    &&& forall|i: int| 0 <= i < s.stack.len() ==> reachable(history, roots, (#[trigger] s.stack[i]).id)
    &&& s.awaiting is Some ==> forall|k: int|
        0 <= k < s.awaiting->Some_0.len() ==> reachable(
            history,
            roots,
            #[trigger] s.awaiting->Some_0[k],
        )
}

/// A walk starts with commits that a way leads to.
pub proof fn lemma_start_reach(history: Map<ObjectHash, Seq<ObjectHash>>, roots: Seq<Node>)
    requires
        all_consistent(history, roots),
    ensures
        all_reachable(history, ids_of(roots).to_set(), start_of(roots)),
{
    let root_set = ids_of(roots).to_set();
    assert forall|i: int| 0 <= i < roots.len() implies reachable(
        history,
        root_set,
        (#[trigger] roots[i]).id,
    ) by {
        let path = seq![roots[i].id];
        assert(ids_of(roots)[i] == roots[i].id);
        assert(root_set.contains(path[0]));
        assert(consistent(history, roots[i]));
        assert(is_path(history, root_set, path));
        assert(path.last() == roots[i].id);
    }
}

/// A way leads to each parent of a commit that a way leads to, where the
/// parent was not handed out.
pub proof fn lemma_wanted_reach(
    history: Map<ObjectHash, Seq<ObjectHash>>,
    roots: Set<ObjectHash>,
    commit: Node,
    processed: Set<ObjectHash>,
)
    requires
        parents_known(history),
        consistent(history, commit),
        reachable(history, roots, commit.id),
    ensures
        forall|k: int|
            0 <= k < unprocessed(commit.parents, processed).len() ==> reachable(
                history,
                roots,
                #[trigger] unprocessed(commit.parents, processed)[k],
            ),
{
    let wanted = unprocessed(commit.parents, processed);
    lemma_unprocessed(commit.parents, processed);
    assert forall|k: int| 0 <= k < wanted.len() implies reachable(
        history,
        roots,
        #[trigger] wanted[k],
    ) by {
        assert(commit.parents.contains(wanted[k]));
        lemma_reach_parent(history, roots, commit.id, wanted[k]);
    }
}

/// A call of the walk that hands out parents first keeps to commits that a
/// way leads to, and hands out only such a commit.
pub proof fn lemma_topo_reach(
    history: Map<ObjectHash, Seq<ObjectHash>>,
    roots: Set<ObjectHash>,
    s: WalkState,
)
    requires
        parents_known(history),
        all_consistent(history, s.stack),
        all_reachable(history, roots, s),
    ensures
        all_reachable(history, roots, topo_next(s).1),
        topo_next(s).0 is Emit ==> reachable(history, roots, topo_next(s).0->Emit_0.id),
    decreases s.stack.len(),
{
    if s.awaiting is Some || s.stack.len() == 0 {
        return ;
    }
    let n = s.stack.len() as int;
    let commit = s.stack.last();
    assert(consistent(history, s.stack[n - 1]));
    assert(reachable(history, roots, s.stack[n - 1].id));
    let after = topo_next(s).1;
    if s.processed.contains(commit.id) {
        let next = WalkState {
            stack: s.stack.drop_last(),
            parents_seen: s.parents_seen.remove(commit.id),
            ..s
        };
        assert forall|i: int| 0 <= i < next.stack.len() implies consistent(
            history,
            #[trigger] next.stack[i],
        ) && reachable(history, roots, next.stack[i].id) by {
            assert(next.stack[i] == s.stack[i]);
        }
        lemma_topo_reach(history, roots, next);
    } else {
        lemma_wanted_reach(history, roots, commit, s.processed);
        assert forall|i: int| 0 <= i < after.stack.len() implies reachable(
            history,
            roots,
            (#[trigger] after.stack[i]).id,
        ) by {
            assert(after.stack[i] == s.stack[i]);
        }
    }
}

/// A call of the walk that hands out each commit once keeps to commits
/// that a way leads to, and hands out only such a commit.
pub proof fn lemma_lifo_reach(
    history: Map<ObjectHash, Seq<ObjectHash>>,
    roots: Set<ObjectHash>,
    s: WalkState,
)
    requires
        parents_known(history),
        all_consistent(history, s.stack),
        all_reachable(history, roots, s),
    ensures
        all_reachable(history, roots, lifo_next(s).1),
        lifo_next(s).0 is Emit ==> reachable(history, roots, lifo_next(s).0->Emit_0.id),
    decreases s.stack.len(),
{
    if s.awaiting is Some || s.stack.len() == 0 {
        return ;
    }
    let n = s.stack.len() as int;
    let commit = s.stack.last();
    assert(consistent(history, s.stack[n - 1]));
    assert(reachable(history, roots, s.stack[n - 1].id));
    let after = lifo_next(s).1;
    if s.processed.contains(commit.id) {
        let next = WalkState { stack: s.stack.drop_last(), ..s };
        assert forall|i: int| 0 <= i < next.stack.len() implies consistent(
            history,
            #[trigger] next.stack[i],
        ) && reachable(history, roots, next.stack[i].id) by {
            assert(next.stack[i] == s.stack[i]);
        }
        lemma_lifo_reach(history, roots, next);
    } else {
        lemma_wanted_reach(history, roots, commit, s.processed.insert(commit.id));
        assert forall|i: int| 0 <= i < after.stack.len() implies reachable(
            history,
            roots,
            (#[trigger] after.stack[i]).id,
        ) by {
            assert(after.stack[i] == s.stack[i]);
        }
    }
}

/// Supplying the commits that were asked for keeps to commits that a way
/// leads to.
pub proof fn lemma_supply_reach(
    history: Map<ObjectHash, Seq<ObjectHash>>,
    roots: Set<ObjectHash>,
    s: WalkState,
)
    requires
        s.awaiting is Some,
        all_reachable(history, roots, s),
    ensures
        all_reachable(history, roots, supplied(s, fetched(history, s.awaiting->Some_0))),
{
    let wanted = s.awaiting->Some_0;
    let next = supplied(s, fetched(history, wanted));
    assert forall|i: int| 0 <= i < next.stack.len() implies reachable(
        history,
        roots,
        (#[trigger] next.stack[i]).id,
    ) by {
        if i < s.stack.len() {
            assert(next.stack[i] == s.stack[i]);
        } else {
            assert(next.stack[i].id == wanted[i - s.stack.len()]);
        }
    }
}

/// Only reachable commits, parents first: whatever the number of calls, a
/// way from a root leads to every commit that was handed out.
pub proof fn lemma_topo_run_sound(
    history: Map<ObjectHash, Seq<ObjectHash>>,
    rank: spec_fn(ObjectHash) -> nat,
    roots: Seq<Node>,
    calls: nat,
)
    requires
        ranked(history, rank),
        parents_known(history),
        all_consistent(history, roots),
    ensures
        all_reachable(history, ids_of(roots).to_set(), topo_run(history, roots, calls).1),
        forall|k: int|
            0 <= k < topo_run(history, roots, calls).0.len() ==> reachable(
                history,
                ids_of(roots).to_set(),
                #[trigger] topo_run(history, roots, calls).0[k],
            ),
    decreases calls,
{
    let root_set = ids_of(roots).to_set();
    if calls == 0 {
        lemma_start_reach(history, roots);
    } else {
        lemma_topo_run_sound(history, rank, roots, (calls - 1) as nat);
        lemma_topo_run(history, rank, roots, (calls - 1) as nat);
        let (emitted, before) = topo_run(history, roots, (calls - 1) as nat);
        let (outcome, after) = topo_next(before);
        lemma_topo_reach(history, root_set, before);
        lemma_topo_shape(history, before);
        let handed = topo_run(history, roots, calls).0;
        match outcome {
            WalkOutcome::Emit(commit) => {
                assert forall|k: int| 0 <= k < handed.len() implies reachable(
                    history,
                    root_set,
                    #[trigger] handed[k],
                ) by {
                    if k < emitted.len() {
                        assert(handed[k] == emitted[k]);
                    }
                }
            },
            WalkOutcome::Fetch(wanted) => {
                lemma_supply_reach(history, root_set, after);
            },
            WalkOutcome::Done => {},
        }
    }
}

/// Only reachable commits, each once: whatever the number of calls, a way
/// from a root leads to every commit that was handed out.
pub proof fn lemma_lifo_run_sound(
    history: Map<ObjectHash, Seq<ObjectHash>>,
    roots: Seq<Node>,
    calls: nat,
)
    requires
        parents_known(history),
        all_consistent(history, roots),
    ensures
        all_reachable(history, ids_of(roots).to_set(), lifo_run(history, roots, calls).1),
        forall|k: int|
            0 <= k < lifo_run(history, roots, calls).0.len() ==> reachable(
                history,
                ids_of(roots).to_set(),
                #[trigger] lifo_run(history, roots, calls).0[k],
            ),
    decreases calls,
{
    let root_set = ids_of(roots).to_set();
    if calls == 0 {
        lemma_start_reach(history, roots);
    } else {
        lemma_lifo_run_sound(history, roots, (calls - 1) as nat);
        lemma_lifo_run(history, roots, (calls - 1) as nat);
        let (emitted, before) = lifo_run(history, roots, (calls - 1) as nat);
        let (outcome, after) = lifo_next(before);
        lemma_lifo_reach(history, root_set, before);
        lemma_lifo_shape(history, before);
        let handed = lifo_run(history, roots, calls).0;
        match outcome {
            WalkOutcome::Emit(commit) => {
                assert forall|k: int| 0 <= k < handed.len() implies reachable(
                    history,
                    root_set,
                    #[trigger] handed[k],
                ) by {
                    if k < emitted.len() {
                        assert(handed[k] == emitted[k]);
                    }
                }
            },
            WalkOutcome::Fetch(wanted) => {
                lemma_supply_reach(history, root_set, after);
            },
            WalkOutcome::Done => {},
        }
    }
}

} // verus!
