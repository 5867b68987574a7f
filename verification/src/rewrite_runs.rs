//! What holds of whole runs of rewriting over a history that comes parents
//! first. Two runs of the rewriting of contributors, one after the other:
//! with a mapping that takes each new name back to its old name the second
//! run gives the history back, identifiers and parents included; with a
//! mapping that maps no name twice the second run changes nothing. A run of
//! removal: every commit has in the end the parents that stand for its own
//! when the run is over.

use crate::contributors::{
    mapped, reparented, rewrite_run, rewritten_view, touched, Rewritable,
};
use crate::object_hash::{hex_decoded, hex_lower, lemma_hex_decode_encode, ObjectHash};
use crate::objs::commit::{serialized, CommitView};
use crate::oid_map::lemma_same_bytes_same_hash;
use crate::packreader::oid_with;
use crate::prune::rewritten_after;
use crate::remove::{parent_moved, remove_run, removal_touches, removed_view, restated};
use vstd::prelude::*;

verus! {

/// The 40 hexadecimal digits by which a commit names the parent `id`.
pub open spec fn text_of(id: ObjectHash) -> Seq<u8> {
    hex_lower(id@)
}

/// `parent` names one of the commits before place `upto`.
pub open spec fn names_earlier(commits: Seq<Rewritable>, upto: int, parent: Seq<u8>) -> bool {
    exists|x: int| 0 <= x < upto && parent == text_of((#[trigger] commits[x]).id)
}

/// The mapping takes each new name back to its old name.
pub open spec fn takes_back(mappings: Map<Seq<u8>, Seq<u8>>) -> bool {
    forall|old_name: Seq<u8>|
        mappings.contains_key(old_name) ==> mappings.contains_key(#[trigger] mappings[old_name])
            && mappings[mappings[old_name]] == old_name
}

/// Each commit is identified by what `name` makes of its payload.
pub open spec fn named(commits: Seq<Rewritable>, name: spec_fn(Seq<u8>) -> ObjectHash) -> bool {
    forall|i: int|
        0 <= i < commits.len() ==> (#[trigger] commits[i]).id == name(serialized(commits[i].fields))
}

/// No two of the commits have the same identifier.
pub open spec fn distinct(commits: Seq<Rewritable>) -> bool {
    forall|i: int, j: int|
        0 <= i < commits.len() && 0 <= j < commits.len() && (#[trigger] commits[i]).id
            == (#[trigger] commits[j]).id ==> i == j
}

/// Every parent of a commit is a commit that comes before it.
pub open spec fn each_parent_earlier(commits: Seq<Rewritable>) -> bool {
    forall|i: int, p: int|
        0 <= i < commits.len() && 0 <= p < commits[i].fields.parents.len() ==> names_earlier(
            commits,
            i,
            #[trigger] commits[i].fields.parents[p],
        )
}

/// The commits are a history of their own: each is identified by what
/// `name` makes of its payload, no two have the same identifier, and every
/// parent of a commit is a commit that comes before it.
pub open spec fn own_history(commits: Seq<Rewritable>, name: spec_fn(Seq<u8>) -> ObjectHash) -> bool {
    named(commits, name) && distinct(commits) && each_parent_earlier(commits)
}

/// No two commits with different fields have the same identifier.
pub open spec fn told_apart(commits: Seq<Rewritable>) -> bool {
    forall|j: int, m: int|
        0 <= j < commits.len() && 0 <= m < commits.len() && (#[trigger] commits[j]).id
            == (#[trigger] commits[m]).id ==> commits[j].fields == commits[m].fields
}

/// What stands for each commit of `from` as a parent, given what
/// `rewritten` holds, is the commit of `to` at the same place.
pub open spec fn stands(
    from: Seq<Rewritable>,
    to: Seq<Rewritable>,
    rewritten: Map<ObjectHash, ObjectHash>,
) -> bool {
    &&& from.len() == to.len()
    &&& forall|j: int|
        0 <= j < from.len() ==> reparented(rewritten, text_of((#[trigger] from[j]).id)) == text_of(
            to[j].id,
        )
}

/// `rewritten` holds something for none but these commits.
pub open spec fn keyed(rewritten: Map<ObjectHash, ObjectHash>, commits: Seq<Rewritable>) -> bool {
    forall|x: ObjectHash| #[trigger]
        rewritten.contains_key(x) ==> exists|j: int|
            0 <= j < commits.len() && (#[trigger] commits[j]).id == x
}

/// Rewriting the commits of `first`, given what `back` holds, gives the
/// fields of the commits of `commits`.
pub open spec fn gives_back(
    first: Seq<Rewritable>,
    commits: Seq<Rewritable>,
    mappings: Map<Seq<u8>, Seq<u8>>,
    back: Map<ObjectHash, ObjectHash>,
) -> bool {
    &&& first.len() == commits.len()
    &&& forall|j: int|
        0 <= j < first.len() ==> rewritten_view((#[trigger] first[j]).fields, mappings, back)
            == commits[j].fields
}

/// What holds of two runs, one after the other: the second gives the commits
/// back; each run maps what it rewrote to what stands for it; and the first
/// run gives no two commits the same identifier.
pub open spec fn restores(
    commits: Seq<Rewritable>,
    mappings: Map<Seq<u8>, Seq<u8>>,
    name: spec_fn(Seq<u8>) -> ObjectHash,
) -> bool {
    let first = rewrite_run(commits, mappings, name).0;
    let moved = rewrite_run(commits, mappings, name).1;
    let back = rewrite_run(first, mappings, name).1;
    &&& rewrite_run(first, mappings, name).0 == commits
    &&& stands(commits, first, moved)
    &&& stands(first, commits, back)
    &&& keyed(moved, commits)
    &&& keyed(back, first)
    &&& distinct(first)
    &&& named(first, name)
    &&& gives_back(first, commits, mappings, back)
    &&& each_parent_earlier(first)
}

/// The text by which a commit names a parent gives the parent back.
pub proof fn lemma_text_names(id: ObjectHash)
    ensures
        oid_with(hex_decoded(text_of(id))) == id,
{
    lemma_hex_decode_encode(id@);
    let found = oid_with(id@);
    assert(found@ == id@);
    lemma_same_bytes_same_hash(found, id);
}

/// What stands for the parent `id`: what the commits rewritten so far hold
/// for it, or the parent itself; and to note that another commit was
/// rewritten changes nothing of it.
pub proof fn lemma_reparented(
    rewritten: Map<ObjectHash, ObjectHash>,
    id: ObjectHash,
    other: ObjectHash,
    value: ObjectHash,
)
    ensures
        rewritten.contains_key(id) ==> reparented(rewritten, text_of(id)) == text_of(rewritten[id]),
        !rewritten.contains_key(id) ==> reparented(rewritten, text_of(id)) == text_of(id),
        other != id ==> reparented(rewritten.insert(other, value), text_of(id)) == reparented(
            rewritten,
            text_of(id),
        ),
        reparented(rewritten.insert(id, value), text_of(id)) == text_of(value),
{
    lemma_text_names(id);
}

/// A commit that rewriting does not touch has the fields that rewriting
/// would give it.
pub proof fn lemma_untouched_fields(
    commit: CommitView,
    mappings: Map<Seq<u8>, Seq<u8>>,
    rewritten: Map<ObjectHash, ObjectHash>,
)
    requires
        !touched(commit, mappings, rewritten),
    ensures
        rewritten_view(commit, mappings, rewritten) == commit,
{
    let made = rewritten_view(commit, mappings, rewritten);
    assert forall|i: int| 0 <= i < commit.parents.len() implies made.parents[i] == commit.parents[i] by {
        assert(!rewritten.contains_key(oid_with(hex_decoded(commit.parents[i]))));
    }
    assert(made.parents =~= commit.parents);
}

/// Rewriting looks only at what the commits rewritten so far hold for the
/// parents of the commit.
pub proof fn lemma_same_parents(
    commit: CommitView,
    mappings: Map<Seq<u8>, Seq<u8>>,
    first: Map<ObjectHash, ObjectHash>,
    second: Map<ObjectHash, ObjectHash>,
)
    requires
        forall|p: int|
            0 <= p < commit.parents.len() ==> reparented(first, #[trigger] commit.parents[p])
                == reparented(second, commit.parents[p]),
    ensures
        rewritten_view(commit, mappings, first) == rewritten_view(commit, mappings, second),
{
    assert(rewritten_view(commit, mappings, first).parents =~= rewritten_view(
        commit,
        mappings,
        second,
    ).parents);
}

/// What holds of a history holds of the commits before its last.
pub proof fn lemma_history_head(commits: Seq<Rewritable>, name: spec_fn(Seq<u8>) -> ObjectHash)
    requires
        own_history(commits, name),
        commits.len() > 0,
    ensures
        own_history(commits.drop_last(), name),
{
    let head = commits.drop_last();
    assert forall|i: int| 0 <= i < head.len() implies (#[trigger] head[i]).id == name(
        serialized(head[i].fields),
    ) by {
        assert(head[i] == commits[i]);
    }
    assert forall|i: int, j: int|
        0 <= i < head.len() && 0 <= j < head.len() && (#[trigger] head[i]).id == (#[trigger] head[j]).id implies i
        == j by {
        assert(head[i] == commits[i]);
        assert(head[j] == commits[j]);
    }
    assert forall|i: int, p: int| 0 <= i < head.len() && 0 <= p < head[i].fields.parents.len() implies names_earlier(
        head,
        i,
        #[trigger] head[i].fields.parents[p],
    ) by {
        assert(head[i] == commits[i]);
        assert(names_earlier(commits, i, commits[i].fields.parents[p]));
        let x = choose|x: int|
            0 <= x < i && commits[i].fields.parents[p] == text_of((#[trigger] commits[x]).id);
        assert(head[x] == commits[x]);
    }
}

/// One more commit: where a run rewrites the commit `x` into `y`, or
/// leaves it, what stands for each commit so far stays, and `y` stands for
/// `x`.
pub proof fn lemma_stands_push(
    from: Seq<Rewritable>,
    to: Seq<Rewritable>,
    rewritten: Map<ObjectHash, ObjectHash>,
    x: Rewritable,
    y: Rewritable,
    later: Map<ObjectHash, ObjectHash>,
)
    requires
        stands(from, to, rewritten),
        keyed(rewritten, from),
        distinct(from.push(x)),
        later == rewritten.insert(x.id, y.id) || (later == rewritten && x.id == y.id),
    ensures
        stands(from.push(x), to.push(y), later),
        keyed(later, from.push(x)),
{
    let more = from.push(x);
    let n = from.len() as int;
    assert(more[n] == x);
    assert forall|j: int| 0 <= j < more.len() implies reparented(later, text_of((#[trigger] more[j]).id))
        == text_of(to.push(y)[j].id) by {
        lemma_reparented(rewritten, more[j].id, x.id, y.id);
        if j < n {
            assert(more[j] == from[j]);
            assert(reparented(rewritten, text_of(from[j].id)) == text_of(to[j].id));
        } else {
            if rewritten.contains_key(x.id) {
                let k = choose|k: int| 0 <= k < from.len() && (#[trigger] from[k]).id == x.id;
                assert(more[k] == from[k]);
            }
        }
    }
    assert forall|key: ObjectHash| #[trigger] later.contains_key(key) implies exists|j: int|
        0 <= j < more.len() && (#[trigger] more[j]).id == key by {
        if rewritten.contains_key(key) {
            let k = choose|k: int| 0 <= k < from.len() && (#[trigger] from[k]).id == key;
            assert(more[k] == from[k]);
        } else {
            assert(more[n].id == key);
        }
    }
}

/// What the first run makes of a commit whose parents all come before it,
/// the second run makes the commit of again.
pub proof fn lemma_given_back(
    head: Seq<Rewritable>,
    first: Seq<Rewritable>,
    commit: CommitView,
    mappings: Map<Seq<u8>, Seq<u8>>,
    moved: Map<ObjectHash, ObjectHash>,
    back: Map<ObjectHash, ObjectHash>,
)
    requires
        takes_back(mappings),
        stands(head, first, moved),
        stands(first, head, back),
        forall|p: int|
            0 <= p < commit.parents.len() ==> names_earlier(head, head.len() as int, #[trigger] commit.parents[p]),
    ensures
        rewritten_view(rewritten_view(commit, mappings, moved), mappings, back) == commit,
{
    let made = rewritten_view(commit, mappings, moved);
    let again = rewritten_view(made, mappings, back);
    assert forall|p: int| 0 <= p < commit.parents.len() implies again.parents[p] == commit.parents[p] by {
        assert(names_earlier(head, head.len() as int, commit.parents[p]));
        let x = choose|x: int| 0 <= x < head.len() && commit.parents[p] == text_of((#[trigger] head[x]).id);
        assert(reparented(moved, text_of(head[x].id)) == text_of(first[x].id));
        assert(reparented(back, text_of(first[x].id)) == text_of(head[x].id));
        assert(made.parents[p] == text_of(first[x].id));
    }
    assert(again.parents =~= commit.parents);
}

/// One more commit: noting that the second run rewrote the commit `made`
/// changes nothing of what it gives back of the commits before.
pub proof fn lemma_gives_back_push(
    first: Seq<Rewritable>,
    commits: Seq<Rewritable>,
    mappings: Map<Seq<u8>, Seq<u8>>,
    back: Map<ObjectHash, ObjectHash>,
    made: Rewritable,
    commit: Rewritable,
    later: Map<ObjectHash, ObjectHash>,
)
    requires
        gives_back(first, commits, mappings, back),
        each_parent_earlier(first.push(made)),
        distinct(first.push(made)),
        rewritten_view(made.fields, mappings, back) == commit.fields,
        later == back || later == back.insert(made.id, commit.id),
    ensures
        gives_back(first.push(made), commits.push(commit), mappings, later),
{
    let more = first.push(made);
    let n = first.len() as int;
    assert(more[n] == made);
    assert forall|j: int| 0 <= j < more.len() implies rewritten_view(
        (#[trigger] more[j]).fields,
        mappings,
        later,
    ) == commits.push(commit)[j].fields by {
        assert forall|p: int| 0 <= p < more[j].fields.parents.len() implies reparented(
            later,
            #[trigger] more[j].fields.parents[p],
        ) == reparented(back, more[j].fields.parents[p]) by {
            assert(names_earlier(more, j, more[j].fields.parents[p]));
            let x = choose|x: int|
                0 <= x < j && more[j].fields.parents[p] == text_of((#[trigger] more[x]).id);
            assert(more[x].id != more[n].id);
            lemma_reparented(back, more[x].id, made.id, commit.id);
        }
        lemma_same_parents(more[j].fields, mappings, later, back);
        if j < n {
            assert(more[j] == first[j]);
        }
    }
}

/// One more commit whose parents are commits before it.
pub proof fn lemma_parents_push(first: Seq<Rewritable>, made: Rewritable)
    requires
        each_parent_earlier(first),
        forall|p: int|
            0 <= p < made.fields.parents.len() ==> names_earlier(
                first,
                first.len() as int,
                #[trigger] made.fields.parents[p],
            ),
    ensures
        each_parent_earlier(first.push(made)),
{
    let more = first.push(made);
    let n = first.len() as int;
    assert forall|j: int, p: int| 0 <= j < more.len() && 0 <= p < more[j].fields.parents.len() implies names_earlier(
        more,
        j,
        #[trigger] more[j].fields.parents[p],
    ) by {
        if j < n {
            assert(more[j] == first[j]);
            assert(names_earlier(first, j, first[j].fields.parents[p]));
            let x = choose|x: int|
                0 <= x < j && first[j].fields.parents[p] == text_of((#[trigger] first[x]).id);
            assert(more[x] == first[x]);
        } else {
            assert(more[j] == made);
            assert(names_earlier(first, n, made.fields.parents[p]));
            let x = choose|x: int| 0 <= x < n && made.fields.parents[p] == text_of((#[trigger] first[x]).id);
            assert(more[x] == first[x]);
        }
    }
}

/// One more commit: the first run gives it an identifier that it gave to no
/// commit before, where it gives no two different commits the same.
pub proof fn lemma_distinct_push(
    first: Seq<Rewritable>,
    commits: Seq<Rewritable>,
    mappings: Map<Seq<u8>, Seq<u8>>,
    name: spec_fn(Seq<u8>) -> ObjectHash,
    back: Map<ObjectHash, ObjectHash>,
    made: Rewritable,
    commit: Rewritable,
)
    requires
        distinct(first),
        gives_back(first, commits, mappings, back),
        rewritten_view(made.fields, mappings, back) == commit.fields,
        told_apart(first.push(made)),
        named(commits.push(commit), name),
        distinct(commits.push(commit)),
    ensures
        distinct(first.push(made)),
{
    let more = first.push(made);
    let all = commits.push(commit);
    let n = first.len() as int;
    assert(more[n] == made);
    assert(all[n] == commit);
    assert forall|m: int| 0 <= m < n implies (#[trigger] first[m]).id != made.id by {
        if first[m].id == made.id {
            assert(more[m] == first[m]);
            assert(more[m].id == more[n].id);
            assert(more[m].fields == more[n].fields);
            assert(rewritten_view(first[m].fields, mappings, back) == commits[m].fields);
            assert(all[m] == commits[m]);
            assert(all[m].id == name(serialized(all[m].fields)));
            assert(all[n].id == name(serialized(all[n].fields)));
            assert(all[m].id == all[n].id);
        }
    }
    assert forall|i: int, j: int|
        0 <= i < more.len() && 0 <= j < more.len() && (#[trigger] more[i]).id == (#[trigger] more[j]).id implies i
        == j by {
        if i < n {
            assert(more[i] == first[i]);
        }
        if j < n {
            assert(more[j] == first[j]);
        }
    }
}

/// Two runs give a history back. Where the mapping takes each new name back
/// to its old name, the commits are a history of their own that comes
/// parents first, and the first run gives no two different commits the same
/// identifier, the second run leaves the commits exactly as they were
/// before the first: fields, parents and identifiers.
#[verifier::rlimit(50)]
pub proof fn lemma_run_restores(
    commits: Seq<Rewritable>,
    mappings: Map<Seq<u8>, Seq<u8>>,
    name: spec_fn(Seq<u8>) -> ObjectHash,
)
    requires
        takes_back(mappings),
        own_history(commits, name),
        told_apart(rewrite_run(commits, mappings, name).0),
    ensures
        restores(commits, mappings, name),
        rewrite_run(rewrite_run(commits, mappings, name).0, mappings, name).0 == commits,
    decreases commits.len(),
{
    let first = rewrite_run(commits, mappings, name).0;
    let moved = rewrite_run(commits, mappings, name).1;
    if commits.len() == 0 {
        assert(rewrite_run(first, mappings, name).0 =~= commits);
    } else {
        let head = commits.drop_last();
        let c = commits.last();
        let f = rewrite_run(head, mappings, name).0;
        let rw1 = rewrite_run(head, mappings, name).1;
        assert(first.drop_last() =~= f);
        let ff = first.last();
        assert(first =~= f.push(ff));
        assert(commits =~= head.push(c));
        lemma_history_head(commits, name);
        assert(told_apart(f)) by {
            assert forall|j: int, m: int|
                0 <= j < f.len() && 0 <= m < f.len() && (#[trigger] f[j]).id == (#[trigger] f[m]).id implies f[j].fields
                == f[m].fields by {
                assert(f[j] == first[j]);
                assert(f[m] == first[m]);
            }
        }
        lemma_run_restores(head, mappings, name);
        let rw2 = rewrite_run(f, mappings, name).1;
        let back = rewrite_run(first, mappings, name).1;
        let twice = rewrite_run(first, mappings, name).0;

        if !touched(c.fields, mappings, rw1) {
            lemma_untouched_fields(c.fields, mappings, rw1);
        }
        assert(ff.fields == rewritten_view(c.fields, mappings, rw1));
        assert(ff.id == name(serialized(ff.fields))) by {
            assert(commits[commits.len() - 1].id == name(serialized(c.fields)));
        }
        assert forall|p: int| 0 <= p < c.fields.parents.len() implies names_earlier(
            head,
            head.len() as int,
            #[trigger] c.fields.parents[p],
        ) by {
            let n = commits.len() - 1;
            assert(names_earlier(commits, n, commits[n].fields.parents[p]));
            let x = choose|x: int|
                0 <= x < n && commits[n].fields.parents[p] == text_of((#[trigger] commits[x]).id);
            assert(head[x] == commits[x]);
        }
        lemma_made_parents(head, f, c.fields, mappings, rw1);
        lemma_given_back(head, f, c.fields, mappings, rw1, rw2);
        lemma_parents_push(f, ff);
        lemma_distinct_push(f, head, mappings, name, rw2, ff, c);
        lemma_stands_push(head, f, rw1, c, ff, moved);

        if !touched(ff.fields, mappings, rw2) {
            lemma_untouched_fields(ff.fields, mappings, rw2);
        }
        assert(twice.last() == c) by {
            assert(commits[commits.len() - 1].id == name(serialized(c.fields)));
        }
        assert(twice.drop_last() =~= head);
        assert(twice =~= commits);
        lemma_stands_push(f, head, rw2, ff, c, back);
        lemma_gives_back_push(f, head, mappings, rw2, ff, c, back);
        assert(named(first, name)) by {
            assert forall|j: int| 0 <= j < first.len() implies (#[trigger] first[j]).id == name(
                serialized(first[j].fields),
            ) by {
                if j < f.len() {
                    assert(f[j] == first[j]);
                }
            }
        }
    }
}

/// Each commit of `done` has the parents that stand for those of the
/// commit of `commits` at the same place, given what `rewritten` holds.
pub open spec fn parents_final(
    commits: Seq<Rewritable>,
    done: Seq<Rewritable>,
    rewritten: Map<ObjectHash, ObjectHash>,
) -> bool {
    &&& done.len() == commits.len()
    &&& forall|i: int|
        0 <= i < commits.len() ==> (#[trigger] done[i]).fields.parents.len()
            == commits[i].fields.parents.len()
    &&& forall|i: int, p: int|
        0 <= i < commits.len() && 0 <= p < commits[i].fields.parents.len() ==> #[trigger] done[i].fields.parents[p]
            == restated(rewritten, commits[i].fields.parents[p])
}

/// To note that another commit was rewritten changes nothing of what stands
/// for the parent `id`.
pub proof fn lemma_restated(
    rewritten: Map<ObjectHash, ObjectHash>,
    id: ObjectHash,
    other: ObjectHash,
    value: ObjectHash,
)
    ensures
        other != id ==> restated(rewritten_after(rewritten, other, value), text_of(id)) == restated(
            rewritten,
            text_of(id),
        ),
{
    lemma_text_names(id);
}

/// The parents of every commit are final. After a run of removal over commits
/// with identifiers of their own that come parents first, every commit has
/// the parents that stand for its own at the end of the run: nothing that
/// is rewritten later changes what stands for a parent, in whatever order
/// the trees were rewritten meanwhile.
pub proof fn lemma_parents_final(
    commits: Seq<Rewritable>,
    trees: spec_fn(int) -> Map<ObjectHash, Option<ObjectHash>>,
    name: spec_fn(Seq<u8>) -> ObjectHash,
)
    requires
        distinct(commits),
        each_parent_earlier(commits),
    ensures
        parents_final(commits, remove_run(commits, trees, name).0, remove_run(commits, trees, name).1),
        keyed(remove_run(commits, trees, name).1, commits),
    decreases commits.len(),
{
    if commits.len() > 0 {
        let head = commits.drop_last();
        let n = head.len() as int;
        let c = commits.last();
        assert forall|i: int, j: int|
            0 <= i < head.len() && 0 <= j < head.len() && (#[trigger] head[i]).id == (#[trigger] head[j]).id implies i
            == j by {
            assert(head[i] == commits[i]);
            assert(head[j] == commits[j]);
        }
        assert forall|i: int, p: int| 0 <= i < head.len() && 0 <= p < head[i].fields.parents.len() implies names_earlier(
            head,
            i,
            #[trigger] head[i].fields.parents[p],
        ) by {
            assert(head[i] == commits[i]);
            assert(names_earlier(commits, i, commits[i].fields.parents[p]));
            let x = choose|x: int|
                0 <= x < i && commits[i].fields.parents[p] == text_of((#[trigger] commits[x]).id);
            assert(head[x] == commits[x]);
        }
        lemma_parents_final(head, trees, name);
        let before = remove_run(head, trees, name).0;
        let rewritten = remove_run(head, trees, name).1;
        let done = remove_run(commits, trees, name).0;
        let after = remove_run(commits, trees, name).1;
        let memo = trees(commits.len() - 1);
        assert(done.drop_last() =~= before);
        let made = done.last();
        assert(after == rewritten || after == rewritten_after(rewritten, c.id, made.id));
        assert(after == rewritten || after == rewritten.insert(c.id, made.id));
        assert forall|i: int| 0 <= i < commits.len() implies (#[trigger] done[i]).fields.parents.len()
            == commits[i].fields.parents.len() by {
            if i < n {
                assert(done[i] == before[i]);
                assert(head[i] == commits[i]);
            }
        }
        assert forall|i: int, p: int|
            0 <= i < commits.len() && 0 <= p < commits[i].fields.parents.len() implies #[trigger] done[i].fields.parents[p]
            == restated(after, commits[i].fields.parents[p]) by {
            assert(names_earlier(commits, i, commits[i].fields.parents[p]));
            let x = choose|x: int|
                0 <= x < i && commits[i].fields.parents[p] == text_of((#[trigger] commits[x]).id);
            assert(commits[x].id != commits[n].id);
            lemma_restated(rewritten, commits[x].id, c.id, made.id);
            assert(restated(after, commits[i].fields.parents[p]) == restated(
                rewritten,
                commits[i].fields.parents[p],
            ));
            if i < n {
                assert(done[i] == before[i]);
                assert(head[i] == commits[i]);
                assert(before[i].fields.parents[p] == restated(rewritten, head[i].fields.parents[p]));
            } else {
                if !removal_touches(c.fields, rewritten, memo) {
                    assert(!parent_moved(c.fields, rewritten));
                    assert(c.fields.parents[p] == restated(rewritten, c.fields.parents[p]));
                } else {
                    assert(made.fields == removed_view(c.fields, rewritten, memo));
                }
            }
        }
        assert forall|key: ObjectHash| #[trigger] after.contains_key(key) implies exists|j: int|
            0 <= j < commits.len() && (#[trigger] commits[j]).id == key by {
            if rewritten.contains_key(key) {
                let k = choose|k: int| 0 <= k < head.len() && (#[trigger] head[k]).id == key;
                assert(commits[k] == head[k]);
            } else {
                assert(commits[n].id == key);
            }
        }
    }
}

/// To map a name twice is to map it once.
pub open spec fn maps_once(mappings: Map<Seq<u8>, Seq<u8>>) -> bool {
    forall|any_name: Seq<u8>| #[trigger]
        mapped(mappings, mapped(mappings, any_name)) == mapped(mappings, any_name)
}

/// What holds of two runs with a mapping that maps no name twice: the
/// second run leaves every commit as the first run left it, and maps a
/// commit to none but itself.
pub open spec fn stays(
    commits: Seq<Rewritable>,
    mappings: Map<Seq<u8>, Seq<u8>>,
    name: spec_fn(Seq<u8>) -> ObjectHash,
) -> bool {
    let first = rewrite_run(commits, mappings, name).0;
    let moved = rewrite_run(commits, mappings, name).1;
    let again = rewrite_run(first, mappings, name).1;
    &&& rewrite_run(first, mappings, name).0 == first
    &&& forall|x: ObjectHash| #[trigger] again.contains_key(x) ==> again[x] == x
    &&& stands(commits, first, moved)
    &&& keyed(moved, commits)
    &&& named(first, name)
    &&& each_parent_earlier(first)
}

/// The parents of a commit after a run are commits that the run made, where
/// they were commits before it.
pub proof fn lemma_made_parents(
    head: Seq<Rewritable>,
    first: Seq<Rewritable>,
    commit: CommitView,
    mappings: Map<Seq<u8>, Seq<u8>>,
    moved: Map<ObjectHash, ObjectHash>,
)
    requires
        stands(head, first, moved),
        forall|p: int|
            0 <= p < commit.parents.len() ==> names_earlier(head, head.len() as int, #[trigger] commit.parents[p]),
    ensures
        forall|p: int|
            0 <= p < commit.parents.len() ==> names_earlier(
                first,
                first.len() as int,
                #[trigger] rewritten_view(commit, mappings, moved).parents[p],
            ),
{
    let made = rewritten_view(commit, mappings, moved);
    assert forall|p: int| 0 <= p < commit.parents.len() implies names_earlier(
        first,
        first.len() as int,
        #[trigger] made.parents[p],
    ) by {
        assert(names_earlier(head, head.len() as int, commit.parents[p]));
        let x = choose|x: int| 0 <= x < head.len() && commit.parents[p] == text_of((#[trigger] head[x]).id);
        assert(reparented(moved, text_of(head[x].id)) == text_of(first[x].id));
        assert(made.parents[p] == text_of(first[x].id));
    }
}

/// A commit whose contributors the mapping leaves and whose parents stand
/// for themselves is rewritten into itself.
pub proof fn lemma_same_again(
    first: Seq<Rewritable>,
    made: CommitView,
    mappings: Map<Seq<u8>, Seq<u8>>,
    again: Map<ObjectHash, ObjectHash>,
)
    requires
        mapped(mappings, made.author) == made.author,
        mapped(mappings, made.committer) == made.committer,
        forall|x: ObjectHash| #[trigger] again.contains_key(x) ==> again[x] == x,
        forall|p: int|
            0 <= p < made.parents.len() ==> names_earlier(first, first.len() as int, #[trigger] made.parents[p]),
    ensures
        rewritten_view(made, mappings, again) == made,
{
    let same = rewritten_view(made, mappings, again);
    assert forall|p: int| 0 <= p < made.parents.len() implies same.parents[p] == made.parents[p] by {
        assert(names_earlier(first, first.len() as int, made.parents[p]));
        let x = choose|x: int| 0 <= x < first.len() && made.parents[p] == text_of((#[trigger] first[x]).id);
        lemma_reparented(again, first[x].id, first[x].id, first[x].id);
    }
    assert(same.parents =~= made.parents);
}

/// A second run changes nothing where the mapping maps no name twice. Of a
/// history of its own that comes parents first: the second run leaves every
/// commit exactly as the first run left it, identifier included, and maps a
/// commit to none but itself, so that no reference moves.
#[verifier::rlimit(50)]
pub proof fn lemma_second_run_changes_nothing(
    commits: Seq<Rewritable>,
    mappings: Map<Seq<u8>, Seq<u8>>,
    name: spec_fn(Seq<u8>) -> ObjectHash,
)
    requires
        maps_once(mappings),
        own_history(commits, name),
    ensures
        stays(commits, mappings, name),
        rewrite_run(rewrite_run(commits, mappings, name).0, mappings, name).0 == rewrite_run(
            commits,
            mappings,
            name,
        ).0,
    decreases commits.len(),
{
    let first = rewrite_run(commits, mappings, name).0;
    let moved = rewrite_run(commits, mappings, name).1;
    if commits.len() == 0 {
        assert(rewrite_run(first, mappings, name).0 =~= first);
    } else {
        let head = commits.drop_last();
        let c = commits.last();
        let f = rewrite_run(head, mappings, name).0;
        let rw1 = rewrite_run(head, mappings, name).1;
        assert(first.drop_last() =~= f);
        let ff = first.last();
        assert(first =~= f.push(ff));
        assert(commits =~= head.push(c));
        lemma_history_head(commits, name);
        lemma_second_run_changes_nothing(head, mappings, name);
        let rw2 = rewrite_run(f, mappings, name).1;
        let again = rewrite_run(first, mappings, name).1;
        let twice = rewrite_run(first, mappings, name).0;

        if !touched(c.fields, mappings, rw1) {
            lemma_untouched_fields(c.fields, mappings, rw1);
        }
        assert(ff.fields == rewritten_view(c.fields, mappings, rw1));
        assert(ff.id == name(serialized(ff.fields))) by {
            assert(commits[commits.len() - 1].id == name(serialized(c.fields)));
        }
        assert(mapped(mappings, mapped(mappings, c.fields.author)) == mapped(mappings, c.fields.author));
        assert(mapped(mappings, mapped(mappings, c.fields.committer)) == mapped(
            mappings,
            c.fields.committer,
        ));
        assert forall|p: int| 0 <= p < c.fields.parents.len() implies names_earlier(
            head,
            head.len() as int,
            #[trigger] c.fields.parents[p],
        ) by {
            let n = commits.len() - 1;
            assert(names_earlier(commits, n, commits[n].fields.parents[p]));
            let x = choose|x: int|
                0 <= x < n && commits[n].fields.parents[p] == text_of((#[trigger] commits[x]).id);
            assert(head[x] == commits[x]);
        }
        lemma_made_parents(head, f, c.fields, mappings, rw1);
        lemma_parents_push(f, ff);
        lemma_stands_push(head, f, rw1, c, ff, moved);
        lemma_same_again(f, ff.fields, mappings, rw2);
        assert(twice.last() == ff);
        assert(twice.drop_last() =~= f);
        assert(twice =~= first);
        assert(named(first, name)) by {
            assert forall|j: int| 0 <= j < first.len() implies (#[trigger] first[j]).id == name(
                serialized(first[j].fields),
            ) by {
                if j < f.len() {
                    assert(f[j] == first[j]);
                }
            }
        }
    }
}

} // verus!
