//! What holds of the rewriting of trees over a whole repository, whatever
//! the order in which the trees are looked at and however often a rewriting
//! is taken up again: every tree that was settled, and so every directory
//! below it, holds exactly the entries that the rules leave.
//!
//! The trees that were settled are remembered by their identifier alone, so
//! these laws speak of repositories in which a tree stands at one path.

use crate::hashing::{kind_tree, object_id};
use crate::object_hash::ObjectHash;
use crate::objs::tree::{entry_is_tree, tree_payload, EntryView};
use crate::packreader::oid_with;
use crate::remove::{
    asks_for, child_path, entry_matched, fate, lemma_visit_facts, memo_after, surviving, texts_of,
    visit_run, Fate, RulesView, VisitOutcome, VisitView,
};
use vstd::prelude::*;

verus! {

/// Whether it is known what becomes of the entry: it is removed, it is a
/// file, or it is a directory that was settled.
pub open spec fn known(
    rules: RulesView,
    memo: Map<ObjectHash, Option<ObjectHash>>,
    path: Seq<u8>,
    entry: EntryView,
) -> bool {
    entry_matched(rules, path, entry) || !entry_is_tree(entry) || memo.contains_key(
        oid_with(entry.hash),
    )
}

/// Whether the entry makes its tree another one: it is removed, or it is a
/// directory in whose place another tree was written.
pub open spec fn hit(
    rules: RulesView,
    memo: Map<ObjectHash, Option<ObjectHash>>,
    path: Seq<u8>,
    entry: EntryView,
) -> bool {
    entry_matched(rules, path, entry) || (entry_is_tree(entry) && memo.contains_key(
        oid_with(entry.hash),
    ) && memo[oid_with(entry.hash)] is Some)
}

/// What stands for an entry that stays: the entry itself, or, for a
/// directory in whose place another tree was written, the entry with that
/// tree's identifier.
pub open spec fn stand_in(memo: Map<ObjectHash, Option<ObjectHash>>, entry: EntryView) -> EntryView {
    if entry_is_tree(entry) && memo.contains_key(oid_with(entry.hash)) {
        match memo[oid_with(entry.hash)] {
            None => entry,
            Some(new_hash) => EntryView { hash: new_hash@, ..entry },
        }
    } else {
        entry
    }
}

/// The entries of the rewritten tree: those that the rules leave, in the
/// order of the tree, each as what stands for it.
pub open spec fn settled_entries(
    entries: Seq<EntryView>,
    rules: RulesView,
    path: Seq<u8>,
    memo: Map<ObjectHash, Option<ObjectHash>>,
) -> Seq<EntryView>
    decreases entries.len(),
{
    if entries.len() == 0 {
        Seq::empty()
    } else {
        let earlier = settled_entries(entries.drop_last(), rules, path, memo);
        if entry_matched(rules, path, entries.last()) {
            earlier
        } else {
            earlier.push(stand_in(memo, entries.last()))
        }
    }
}

/// Whether one of the entries makes the tree another one.
pub open spec fn touched(
    entries: Seq<EntryView>,
    rules: RulesView,
    path: Seq<u8>,
    memo: Map<ObjectHash, Option<ObjectHash>>,
) -> bool
    decreases entries.len(),
{
    entries.len() > 0 && (touched(entries.drop_last(), rules, path, memo) || hit(
        rules,
        memo,
        path,
        entries.last(),
    ))
}

/// The identifier of the tree with these entries.
pub open spec fn tree_id(entries: Seq<EntryView>) -> Seq<u8> {
    object_id(kind_tree(), tree_payload(entries))
}

/// What holds of a rewriting that was started afresh and only taken up
/// again since: of every entry looked at it is known what becomes of it; the
/// entries kept are exactly what stands for the entries looked at that the
/// rules leave; and the tree counts as changed exactly where one of the
/// entries looked at makes it another one.
pub open spec fn visit_sound(
    visit: VisitView,
    rules: RulesView,
    memo: Map<ObjectHash, Option<ObjectHash>>,
) -> bool {
    &&& 0 <= visit.next <= visit.entries.len()
    &&& forall|i: int| 0 <= i < visit.next ==> known(rules, memo, visit.path, #[trigger] visit.entries[i])
    &&& visit.kept == settled_entries(visit.entries.take(visit.next), rules, visit.path, memo)
    &&& visit.changed == touched(visit.entries.take(visit.next), rules, visit.path, memo)
}

/// The two stand for the same.
pub open spec fn same_form(first: Option<ObjectHash>, second: Option<ObjectHash>) -> bool {
    match (first, second) {
        (None, None) => true,
        (Some(one), Some(other)) => one@ == other@,
        _ => false,
    }
}

/// Every tree that `memo` holds, `later` holds too, with the same standing
/// for it.
pub open spec fn agree(
    memo: Map<ObjectHash, Option<ObjectHash>>,
    later: Map<ObjectHash, Option<ObjectHash>>,
) -> bool {
    forall|tree: ObjectHash| #[trigger]
        memo.contains_key(tree) ==> later.contains_key(tree) && same_form(memo[tree], later[tree])
}

/// What is remembered of the tree is right: of each of its entries it is
/// known what becomes of it; nothing stands for the tree exactly where none
/// of its entries makes it another one; and what stands for it otherwise is
/// the tree of the entries that the rules leave, each as what stands for it.
pub open spec fn settled_at(
    store: Map<ObjectHash, Seq<EntryView>>,
    rules: RulesView,
    place: spec_fn(ObjectHash) -> Seq<u8>,
    memo: Map<ObjectHash, Option<ObjectHash>>,
    tree: ObjectHash,
) -> bool {
    &&& store.contains_key(tree)
    &&& forall|i: int|
        0 <= i < store[tree].len() ==> known(rules, memo, place(tree), #[trigger] store[tree][i])
    &&& match memo[tree] {
        None => !touched(store[tree], rules, place(tree), memo),
        Some(new_hash) => touched(store[tree], rules, place(tree), memo) && new_hash@ == tree_id(
            settled_entries(store[tree], rules, place(tree), memo),
        ),
    }
}

/// What is remembered of every tree is right. `store` gives the entries of
/// each tree of the repository and `place` the path at which it stands.
pub open spec fn settled(
    store: Map<ObjectHash, Seq<EntryView>>,
    rules: RulesView,
    place: spec_fn(ObjectHash) -> Seq<u8>,
    memo: Map<ObjectHash, Option<ObjectHash>>,
) -> bool {
    forall|tree: ObjectHash| #[trigger]
        memo.contains_key(tree) ==> settled_at(store, rules, place, memo, tree)
}

/// Every directory stands at the path of its tree, its name and a slash.
pub open spec fn placed(
    store: Map<ObjectHash, Seq<EntryView>>,
    place: spec_fn(ObjectHash) -> Seq<u8>,
) -> bool {
    forall|tree: ObjectHash, i: int|
        store.contains_key(tree) && 0 <= i < store[tree].len() && entry_is_tree(
            #[trigger] store[tree][i],
        ) ==> place(oid_with(store[tree][i].hash)) == child_path(place(tree), store[tree][i])
}

/// The rules remove nothing from the tree nor from any directory below it,
/// down to `depth` levels, which is as deep as the tree goes.
pub open spec fn untouched(
    store: Map<ObjectHash, Seq<EntryView>>,
    rules: RulesView,
    place: spec_fn(ObjectHash) -> Seq<u8>,
    tree: ObjectHash,
    depth: nat,
) -> bool
    decreases depth,
{
    &&& store.contains_key(tree)
    &&& forall|i: int|
        0 <= i < store[tree].len() ==> !entry_matched(rules, place(tree), #[trigger] store[tree][i])
            && (entry_is_tree(store[tree][i]) ==> depth > 0 && untouched(
            store,
            rules,
            place,
            oid_with(store[tree][i].hash),
            (depth - 1) as nat,
        ))
}

/// What becomes of entries of which it is known does not change when more
/// trees are settled.
pub proof fn lemma_agree_entries(
    entries: Seq<EntryView>,
    rules: RulesView,
    path: Seq<u8>,
    memo: Map<ObjectHash, Option<ObjectHash>>,
    later: Map<ObjectHash, Option<ObjectHash>>,
)
    requires
        agree(memo, later),
        forall|i: int| 0 <= i < entries.len() ==> known(rules, memo, path, #[trigger] entries[i]),
    ensures
        forall|i: int| 0 <= i < entries.len() ==> known(rules, later, path, #[trigger] entries[i]),
        settled_entries(entries, rules, path, later) == settled_entries(entries, rules, path, memo),
        touched(entries, rules, path, later) == touched(entries, rules, path, memo),
    decreases entries.len(),
{
    assert forall|i: int| 0 <= i < entries.len() implies known(
        rules,
        later,
        path,
        #[trigger] entries[i],
    ) by {
        assert(known(rules, memo, path, entries[i]));
        lemma_agree_entry(entries[i], rules, path, memo, later);
    }
    if entries.len() > 0 {
        let head = entries.drop_last();
        assert forall|i: int| 0 <= i < head.len() implies known(rules, memo, path, #[trigger] head[i]) by {
            assert(head[i] == entries[i]);
        }
        lemma_agree_entries(head, rules, path, memo, later);
        assert(known(rules, memo, path, entries[entries.len() - 1]));
        lemma_agree_entry(entries.last(), rules, path, memo, later);
    }
}

/// What becomes of an entry of which it is known does not change when more
/// trees are settled.
pub proof fn lemma_agree_entry(
    entry: EntryView,
    rules: RulesView,
    path: Seq<u8>,
    memo: Map<ObjectHash, Option<ObjectHash>>,
    later: Map<ObjectHash, Option<ObjectHash>>,
)
    requires
        agree(memo, later),
        known(rules, memo, path, entry),
    ensures
        known(rules, later, path, entry),
        hit(rules, later, path, entry) == hit(rules, memo, path, entry),
        !entry_matched(rules, path, entry) ==> stand_in(later, entry) == stand_in(memo, entry),
{
    let tree = oid_with(entry.hash);
    if !entry_matched(rules, path, entry) && entry_is_tree(entry) {
        assert(memo.contains_key(tree));
        assert(same_form(memo[tree], later[tree]));
    }
}

/// A rewriting with no entry looked at has what [`visit_sound`] asks for.
pub proof fn lemma_fresh_sound(
    visit: VisitView,
    rules: RulesView,
    memo: Map<ObjectHash, Option<ObjectHash>>,
)
    requires
        visit.next == 0,
        visit.kept == Seq::<EntryView>::empty(),
        !visit.changed,
    ensures
        visit_sound(visit, rules, memo),
{
    assert(visit.entries.take(0) =~= Seq::<EntryView>::empty());
}

/// A rewriting that has what [`visit_sound`] asks for keeps it when more
/// trees are settled meanwhile.
pub proof fn lemma_sound_later(
    visit: VisitView,
    rules: RulesView,
    memo: Map<ObjectHash, Option<ObjectHash>>,
    later: Map<ObjectHash, Option<ObjectHash>>,
)
    requires
        visit_sound(visit, rules, memo),
        agree(memo, later),
    ensures
        visit_sound(visit, rules, later),
{
    let looked = visit.entries.take(visit.next);
    assert forall|i: int| 0 <= i < looked.len() implies known(
        rules,
        memo,
        visit.path,
        #[trigger] looked[i],
    ) by {
        assert(looked[i] == visit.entries[i]);
    }
    lemma_agree_entries(looked, rules, visit.path, memo, later);
    assert forall|i: int| 0 <= i < visit.next implies known(
        rules,
        later,
        visit.path,
        #[trigger] visit.entries[i],
    ) by {
        assert(looked[i] == visit.entries[i]);
    }
}

/// Going on with a rewriting keeps [`visit_sound`]. Where it comes to the
/// end, every entry was looked at: the tree stays where none of them makes
/// it another one, and is rebuilt of the entries kept otherwise.
pub proof fn lemma_sound_run(
    visit: VisitView,
    rules: RulesView,
    memo: Map<ObjectHash, Option<ObjectHash>>,
)
    requires
        visit_sound(visit, rules, memo),
    ensures
        visit_sound(visit_run(visit, rules, memo).1, rules, memo),
        !(visit_run(visit, rules, memo).0 is Descend) ==> visit_run(visit, rules, memo).1.next
            == visit.entries.len(),
        visit_run(visit, rules, memo).0 is Unchanged ==> !visit_run(visit, rules, memo).1.changed,
        visit_run(visit, rules, memo).0 is Rebuilt ==> visit_run(visit, rules, memo).1.changed
            && visit_run(visit, rules, memo).0->Rebuilt_0 == visit_run(visit, rules, memo).1.kept,
    decreases visit.entries.len() - visit.next,
{
    if visit.next < visit.entries.len() {
        let entry = visit.entries[visit.next];
        let looked = visit.entries.take(visit.next);
        let more = visit.entries.take(visit.next + 1);
        assert(more.drop_last() =~= looked);
        assert(more.last() == entry);
        match fate(rules, memo, visit.path, entry) {
            Fate::Unknown => {},
            Fate::Drop => {
                let next = VisitView { next: visit.next + 1, changed: true, ..visit };
                assert forall|i: int| 0 <= i < next.next implies known(
                    rules,
                    memo,
                    next.path,
                    #[trigger] next.entries[i],
                ) by {
                    if i < visit.next {
                        assert(known(rules, memo, visit.path, visit.entries[i]));
                    }
                }
                lemma_sound_run(next, rules, memo);
            },
            Fate::Keep { entry: kept, replaced } => {
                let next = VisitView {
                    next: visit.next + 1,
                    kept: visit.kept.push(kept),
                    changed: visit.changed || replaced,
                    ..visit
                };
                assert(kept == stand_in(memo, entry));
                assert(replaced == hit(rules, memo, visit.path, entry));
                assert forall|i: int| 0 <= i < next.next implies known(
                    rules,
                    memo,
                    next.path,
                    #[trigger] next.entries[i],
                ) by {
                    if i < visit.next {
                        assert(known(rules, memo, visit.path, visit.entries[i]));
                    }
                }
                lemma_sound_run(next, rules, memo);
            },
        }
    } else {
        assert(visit.entries.take(visit.entries.len() as int) =~= visit.entries);
    }
}

/// With no tree settled, what is remembered is right.
pub proof fn lemma_nothing_settled(
    store: Map<ObjectHash, Seq<EntryView>>,
    rules: RulesView,
    place: spec_fn(ObjectHash) -> Seq<u8>,
)
    ensures
        settled(store, rules, place, Map::empty()),
{
}

/// Every step keeps what is remembered right, whoever takes it and in
/// whatever order. Of a repository whose trees were settled rightly so far,
/// a step of a rewriting of one of its trees, started afresh at the path
/// where the tree stands and only taken up again since, leaves every tree
/// settled rightly, this one included where the step came to its end;
/// nothing settled before stands for anything else afterwards; and the
/// rewriting can be taken up again. Where the step stops before a directory,
/// it asks for it by the path at which that directory stands. A tree that
/// it rebuilds holds the entries that the rules leave, each as what stands
/// for it, and a tree that it leaves has no entry that makes it another
/// one.
pub proof fn lemma_step_settles(
    store: Map<ObjectHash, Seq<EntryView>>,
    rules: RulesView,
    place: spec_fn(ObjectHash) -> Seq<u8>,
    memo: Map<ObjectHash, Option<ObjectHash>>,
    visit: VisitView,
    new_hash: ObjectHash,
)
    requires
        settled(store, rules, place, memo),
        visit_sound(visit, rules, memo),
        store.contains_key(visit.tree),
        store[visit.tree] == visit.entries,
        place(visit.tree) == visit.path,
        visit_run(visit, rules, memo).0 is Rebuilt ==> new_hash@ == tree_id(
            visit_run(visit, rules, memo).0->Rebuilt_0,
        ),
    ensures
        settled(
            store,
            rules,
            place,
            memo_after(memo, visit.tree, visit_run(visit, rules, memo).0, new_hash),
        ),
        agree(memo, memo_after(memo, visit.tree, visit_run(visit, rules, memo).0, new_hash)),
        visit_sound(
            visit_run(visit, rules, memo).1,
            rules,
            memo_after(memo, visit.tree, visit_run(visit, rules, memo).0, new_hash),
        ),
        !(visit_run(visit, rules, memo).0 is Descend) ==> memo_after(
            memo,
            visit.tree,
            visit_run(visit, rules, memo).0,
            new_hash,
        ).contains_key(visit.tree),
        placed(store, place) ==> match visit_run(visit, rules, memo).0 {
            VisitOutcome::Descend { hash, path } => place(hash) == path,
            _ => true,
        },
        visit_run(visit, rules, memo).0 is Unchanged ==> !touched(
            visit.entries,
            rules,
            visit.path,
            memo,
        ),
        visit_run(visit, rules, memo).0 is Rebuilt ==> visit_run(visit, rules, memo).0->Rebuilt_0
            == settled_entries(visit.entries, rules, visit.path, memo),
{
    let outcome = visit_run(visit, rules, memo).0;
    let after = visit_run(visit, rules, memo).1;
    let later = memo_after(memo, visit.tree, outcome, new_hash);
    lemma_sound_run(visit, rules, memo);
    lemma_visit_facts(visit, rules, memo);
    if outcome is Descend {
        assert(later == memo);
        assert(asks_for(after, rules, memo, outcome));
        if placed(store, place) {
            assert(entry_is_tree(store[visit.tree][after.next]));
        }
    } else {
        let tree = visit.tree;
        let entries = visit.entries;
        assert(after.entries.take(after.next) =~= entries);
        assert forall|i: int| 0 <= i < entries.len() implies known(
            rules,
            memo,
            visit.path,
            #[trigger] entries[i],
        ) by {
            assert(known(rules, memo, after.path, after.entries[i]));
        }
        assert(later.contains_key(tree));
        assert forall|other: ObjectHash| #[trigger] memo.contains_key(other) implies later.contains_key(
            other,
        ) && same_form(memo[other], later[other]) by {
            if other == tree {
                assert(settled_at(store, rules, place, memo, tree));
            }
        }
        assert forall|other: ObjectHash| #[trigger] later.contains_key(other) implies settled_at(
            store,
            rules,
            place,
            later,
            other,
        ) by {
            if memo.contains_key(other) {
                assert(settled_at(store, rules, place, memo, other));
                assert(same_form(memo[other], later[other]));
                lemma_agree_entries(store[other], rules, place(other), memo, later);
            } else {
                assert(other == tree);
                lemma_agree_entries(entries, rules, visit.path, memo, later);
            }
        }
        lemma_sound_later(after, rules, memo, later);
    }
}

/// None of the entries makes the tree another one exactly where the tree
/// does not count as touched.
pub proof fn lemma_touched(
    entries: Seq<EntryView>,
    rules: RulesView,
    path: Seq<u8>,
    memo: Map<ObjectHash, Option<ObjectHash>>,
)
    ensures
        touched(entries, rules, path, memo) <==> exists|i: int|
            0 <= i < entries.len() && hit(rules, memo, path, #[trigger] entries[i]),
    decreases entries.len(),
{
    if entries.len() > 0 {
        let head = entries.drop_last();
        lemma_touched(head, rules, path, memo);
        if touched(entries, rules, path, memo) {
            if touched(head, rules, path, memo) {
                let i = choose|i: int| 0 <= i < head.len() && hit(rules, memo, path, #[trigger] head[i]);
                assert(head[i] == entries[i]);
            } else {
                assert(hit(rules, memo, path, entries[entries.len() - 1]));
            }
        }
        if exists|i: int| 0 <= i < entries.len() && hit(rules, memo, path, #[trigger] entries[i]) {
            let i = choose|i: int| 0 <= i < entries.len() && hit(rules, memo, path, #[trigger] entries[i]);
            if i < head.len() {
                assert(head[i] == entries[i]);
            }
        }
    }
}

/// A tree that nothing touches is a fixed point, and so is every directory
/// below it: where what is remembered is right and the rules remove nothing
/// from a settled tree nor from any directory below it, the tree stays as it
/// is.
pub proof fn lemma_untouched_stays(
    store: Map<ObjectHash, Seq<EntryView>>,
    rules: RulesView,
    place: spec_fn(ObjectHash) -> Seq<u8>,
    memo: Map<ObjectHash, Option<ObjectHash>>,
    tree: ObjectHash,
    depth: nat,
)
    requires
        settled(store, rules, place, memo),
        memo.contains_key(tree),
        untouched(store, rules, place, tree, depth),
    ensures
        memo[tree] is None,
    decreases depth,
{
    let entries = store[tree];
    assert(settled_at(store, rules, place, memo, tree));
    lemma_touched(entries, rules, place(tree), memo);
    assert forall|i: int| 0 <= i < entries.len() implies !hit(
        rules,
        memo,
        place(tree),
        #[trigger] entries[i],
    ) by {
        assert(known(rules, memo, place(tree), entries[i]));
        if entry_is_tree(entries[i]) {
            lemma_untouched_stays(
                store,
                rules,
                place,
                memo,
                oid_with(entries[i].hash),
                (depth - 1) as nat,
            );
        }
    }
}

/// What a rewritten tree holds: text by text and in order, the entries that
/// the rules leave, and none that they remove; and each of them is what
/// stands for an entry of the tree that the rules leave.
pub proof fn lemma_settled_entries(
    entries: Seq<EntryView>,
    rules: RulesView,
    path: Seq<u8>,
    memo: Map<ObjectHash, Option<ObjectHash>>,
)
    ensures
        texts_of(settled_entries(entries, rules, path, memo)) == texts_of(
            surviving(entries, rules, path),
        ),
        forall|k: int|
            0 <= k < settled_entries(entries, rules, path, memo).len() ==> !entry_matched(
                rules,
                path,
                #[trigger] settled_entries(entries, rules, path, memo)[k],
            ) && exists|i: int|
                0 <= i < entries.len() && !entry_matched(rules, path, entries[i]) && settled_entries(
                    entries,
                    rules,
                    path,
                    memo,
                )[k] == stand_in(memo, #[trigger] entries[i]),
    decreases entries.len(),
{
    let all = settled_entries(entries, rules, path, memo);
    if entries.len() > 0 {
        let head = entries.drop_last();
        let earlier = settled_entries(head, rules, path, memo);
        lemma_settled_entries(head, rules, path, memo);
        if !entry_matched(rules, path, entries.last()) {
            assert(texts_of(all) =~= texts_of(earlier).push(entries.last().text));
            assert(texts_of(surviving(entries, rules, path)) =~= texts_of(
                surviving(head, rules, path),
            ).push(entries.last().text));
        }
        assert forall|k: int| 0 <= k < all.len() implies !entry_matched(rules, path, #[trigger] all[k])
            && exists|i: int|
            0 <= i < entries.len() && !entry_matched(rules, path, entries[i]) && all[k] == stand_in(
                memo,
                #[trigger] entries[i],
            ) by {
            if k < earlier.len() {
                assert(all[k] == earlier[k]);
                let i = choose|i: int|
                    0 <= i < head.len() && !entry_matched(rules, path, head[i]) && earlier[k]
                        == stand_in(memo, #[trigger] head[i]);
                assert(head[i] == entries[i]);
            } else {
                let last = entries.len() - 1;
                assert(all[k] == stand_in(memo, entries[last]));
                lemma_stand_in_unmatched(rules, path, memo, entries[last]);
            }
        }
    } else {
        assert(texts_of(all) =~= texts_of(surviving(entries, rules, path)));
    }
}

/// Whether the rules remove an entry depends on its text alone, which what
/// stands for it keeps.
pub proof fn lemma_stand_in_unmatched(
    rules: RulesView,
    path: Seq<u8>,
    memo: Map<ObjectHash, Option<ObjectHash>>,
    entry: EntryView,
)
    ensures
        stand_in(memo, entry).text == entry.text,
        entry_matched(rules, path, stand_in(memo, entry)) == entry_matched(rules, path, entry),
{
}

/// Every directory that a settled tree keeps is settled rightly too: so
/// what [`settled`] says of a tree holds at every depth below it.
pub proof fn lemma_settled_below(
    store: Map<ObjectHash, Seq<EntryView>>,
    rules: RulesView,
    place: spec_fn(ObjectHash) -> Seq<u8>,
    memo: Map<ObjectHash, Option<ObjectHash>>,
    tree: ObjectHash,
    i: int,
)
    requires
        settled(store, rules, place, memo),
        memo.contains_key(tree),
        0 <= i < store[tree].len(),
        entry_is_tree(store[tree][i]),
        !entry_matched(rules, place(tree), store[tree][i]),
    ensures
        memo.contains_key(oid_with(store[tree][i].hash)),
        settled_at(store, rules, place, memo, oid_with(store[tree][i].hash)),
{
    assert(settled_at(store, rules, place, memo, tree));
    assert(known(rules, memo, place(tree), store[tree][i]));
}

/// The rewriting of the tree `tree` with these entries at `path`, with no
/// entry looked at.
pub open spec fn fresh(tree: ObjectHash, entries: Seq<EntryView>, path: Seq<u8>) -> VisitView {
    VisitView { tree, entries, path, next: 0, kept: Seq::empty(), changed: false }
}

/// The rewriting `visit`, which stopped before a directory that is settled
/// by now, with that directory taken.
pub open spec fn taken_up(visit: VisitView, memo: Map<ObjectHash, Option<ObjectHash>>) -> VisitView {
    let entry = visit.entries[visit.next];
    VisitView {
        next: visit.next + 1,
        kept: visit.kept.push(stand_in(memo, entry)),
        changed: visit.changed || memo[oid_with(entry.hash)] is Some,
        ..visit
    }
}

/// What is remembered after the rewriting `visit` and of every directory
/// that it asks for, each rewritten from its start before `visit` is taken
/// up again, down to `depth` levels. `name` gives each tree that is written
/// its identifier. Where the levels do not suffice or a directory is missing
/// from `store`, the rewriting stops with what is remembered by then.
pub open spec fn descend(
    store: Map<ObjectHash, Seq<EntryView>>,
    rules: RulesView,
    name: spec_fn(Seq<EntryView>) -> ObjectHash,
    memo: Map<ObjectHash, Option<ObjectHash>>,
    visit: VisitView,
    depth: nat,
) -> Map<ObjectHash, Option<ObjectHash>>
    decreases depth, visit.entries.len() - visit.next,
{
    let (outcome, after) = visit_run(visit, rules, memo);
    match outcome {
        VisitOutcome::Descend { hash, path } => {
            if depth == 0 || !store.contains_key(hash) {
                memo
            } else {
                let below = descend(
                    store,
                    rules,
                    name,
                    memo,
                    fresh(hash, store[hash], path),
                    (depth - 1) as nat,
                );
                if below.contains_key(hash) && visit.next <= after.next < after.entries.len()
                    && after.entries.len() == visit.entries.len() {
                    descend(store, rules, name, below, taken_up(after, below), depth)
                } else {
                    below
                }
            }
        },
        VisitOutcome::Unchanged => memo.insert(visit.tree, None),
        VisitOutcome::Rebuilt(entries) => memo.insert(visit.tree, Some(name(entries))),
    }
}

/// Every directory below the tree is in `store`, and the tree is at most
/// `depth` levels deep.
pub open spec fn whole(store: Map<ObjectHash, Seq<EntryView>>, tree: ObjectHash, depth: nat) -> bool
    decreases depth,
{
    &&& store.contains_key(tree)
    &&& forall|i: int|
        0 <= i < store[tree].len() && entry_is_tree(#[trigger] store[tree][i]) ==> depth > 0
            && whole(store, oid_with(store[tree][i].hash), (depth - 1) as nat)
}

/// Going on with a rewriting never goes back in the tree.
pub proof fn lemma_run_forward(
    visit: VisitView,
    rules: RulesView,
    memo: Map<ObjectHash, Option<ObjectHash>>,
)
    requires
        0 <= visit.next,
    ensures
        visit.next <= visit_run(visit, rules, memo).1.next,
    decreases visit.entries.len() - visit.next,
{
    if visit.next < visit.entries.len() {
        let entry = visit.entries[visit.next];
        match fate(rules, memo, visit.path, entry) {
            Fate::Unknown => {},
            Fate::Drop => {
                lemma_run_forward(
                    VisitView { next: visit.next + 1, changed: true, ..visit },
                    rules,
                    memo,
                );
            },
            Fate::Keep { entry: kept, replaced } => {
                lemma_run_forward(
                    VisitView {
                        next: visit.next + 1,
                        kept: visit.kept.push(kept),
                        changed: visit.changed || replaced,
                        ..visit
                    },
                    rules,
                    memo,
                );
            },
        }
    }
}

/// To take a rewriting up again once the directory that it asked for is
/// settled is to go on behind that directory.
pub proof fn lemma_taken_up(
    visit: VisitView,
    rules: RulesView,
    memo: Map<ObjectHash, Option<ObjectHash>>,
    outcome: VisitOutcome,
    later: Map<ObjectHash, Option<ObjectHash>>,
)
    requires
        asks_for(visit, rules, memo, outcome),
        later.contains_key(oid_with(visit.entries[visit.next].hash)),
    ensures
        visit_run(visit, rules, later) == visit_run(taken_up(visit, later), rules, later),
        visit_sound(visit, rules, later) ==> visit_sound(taken_up(visit, later), rules, later),
{
    let entry = visit.entries[visit.next];
    assert(fate(rules, later, visit.path, entry) == (Fate::Keep {
        entry: stand_in(later, entry),
        replaced: later[oid_with(entry.hash)] is Some,
    }));
    if visit_sound(visit, rules, later) {
        let next = taken_up(visit, later);
        let looked = visit.entries.take(visit.next);
        let more = visit.entries.take(visit.next + 1);
        assert(more.drop_last() =~= looked);
        assert(more.last() == entry);
        assert forall|i: int| 0 <= i < next.next implies known(
            rules,
            later,
            next.path,
            #[trigger] next.entries[i],
        ) by {
            if i < visit.next {
                assert(known(rules, later, visit.path, visit.entries[i]));
            }
        }
    }
}

/// The rewriting of a whole tree settles it rightly, and every directory
/// below it. Of a repository in which every directory stands at the path of
/// its tree, its name and a slash, and whose trees were settled rightly so
/// far: after the rewriting of one of its trees at the path where it
/// stands, with every directory that it asks for rewritten in turn, every
/// tree is settled rightly, and nothing settled before stands for anything
/// else. Where every directory below the tree is at hand and the levels
/// suffice, the tree itself is settled.
pub proof fn lemma_descend(
    store: Map<ObjectHash, Seq<EntryView>>,
    rules: RulesView,
    place: spec_fn(ObjectHash) -> Seq<u8>,
    name: spec_fn(Seq<EntryView>) -> ObjectHash,
    memo: Map<ObjectHash, Option<ObjectHash>>,
    visit: VisitView,
    depth: nat,
)
    requires
        placed(store, place),
        forall|entries: Seq<EntryView>| (#[trigger] name(entries))@ == tree_id(entries),
        settled(store, rules, place, memo),
        visit_sound(visit, rules, memo),
        store.contains_key(visit.tree),
        store[visit.tree] == visit.entries,
        place(visit.tree) == visit.path,
    ensures
        settled(store, rules, place, descend(store, rules, name, memo, visit, depth)),
        agree(memo, descend(store, rules, name, memo, visit, depth)),
        whole(store, visit.tree, depth) ==> descend(
            store,
            rules,
            name,
            memo,
            visit,
            depth,
        ).contains_key(visit.tree),
    decreases depth, visit.entries.len() - visit.next,
{
    let outcome = visit_run(visit, rules, memo).0;
    let after = visit_run(visit, rules, memo).1;
    let new_hash = match outcome {
        VisitOutcome::Rebuilt(entries) => name(entries),
        _ => visit.tree,
    };
    lemma_step_settles(store, rules, place, memo, visit, new_hash);
    lemma_visit_facts(visit, rules, memo);
    lemma_run_forward(visit, rules, memo);
    match outcome {
        VisitOutcome::Descend { hash, path } => {
            assert(asks_for(after, rules, memo, outcome));
            let entry = after.entries[after.next];
            assert(store[visit.tree][after.next] == entry);
            if whole(store, visit.tree, depth) {
                assert(entry_is_tree(store[visit.tree][after.next]));
                assert(depth > 0 && whole(store, hash, (depth - 1) as nat));
            }
            if depth > 0 && store.contains_key(hash) {
                let start = fresh(hash, store[hash], path);
                lemma_fresh_sound(start, rules, memo);
                lemma_descend(store, rules, place, name, memo, start, (depth - 1) as nat);
                let below = descend(store, rules, name, memo, start, (depth - 1) as nat);
                if below.contains_key(hash) {
                    let next = taken_up(after, below);
                    lemma_sound_later(after, rules, memo, below);
                    lemma_taken_up(after, rules, memo, outcome, below);
                    lemma_descend(store, rules, place, name, below, next, depth);
                    let last = descend(store, rules, name, below, next, depth);
                    assert forall|tree: ObjectHash| #[trigger] memo.contains_key(tree) implies last.contains_key(
                        tree,
                    ) && same_form(memo[tree], last[tree]) by {
                        assert(below.contains_key(tree));
                        assert(same_form(memo[tree], below[tree]));
                        assert(same_form(below[tree], last[tree]));
                    }
                }
            }
        },
        _ => {},
    }
}

/// A tree that nothing touches is a fixed point of the whole rewriting, and
/// so is every directory below it: where the rules remove nothing from a
/// tree nor from any directory below it, the rewriting of the tree, with
/// every directory that it asks for rewritten in turn, leaves the tree as it
/// is.
pub proof fn lemma_descend_untouched(
    store: Map<ObjectHash, Seq<EntryView>>,
    rules: RulesView,
    place: spec_fn(ObjectHash) -> Seq<u8>,
    name: spec_fn(Seq<EntryView>) -> ObjectHash,
    memo: Map<ObjectHash, Option<ObjectHash>>,
    tree: ObjectHash,
    depth: nat,
)
    requires
        placed(store, place),
        forall|entries: Seq<EntryView>| (#[trigger] name(entries))@ == tree_id(entries),
        settled(store, rules, place, memo),
        untouched(store, rules, place, tree, depth),
    ensures
        descend(
            store,
            rules,
            name,
            memo,
            fresh(tree, store[tree], place(tree)),
            depth,
        ).contains_key(tree),
        descend(store, rules, name, memo, fresh(tree, store[tree], place(tree)), depth)[tree] is None,
{
    let start = fresh(tree, store[tree], place(tree));
    lemma_fresh_sound(start, rules, memo);
    lemma_untouched_whole(store, rules, place, tree, depth);
    lemma_descend(store, rules, place, name, memo, start, depth);
    lemma_untouched_stays(
        store,
        rules,
        place,
        descend(store, rules, name, memo, start, depth),
        tree,
        depth,
    );
}

/// A tree from which the rules remove nothing down to some depth is no
/// deeper than that.
pub proof fn lemma_untouched_whole(
    store: Map<ObjectHash, Seq<EntryView>>,
    rules: RulesView,
    place: spec_fn(ObjectHash) -> Seq<u8>,
    tree: ObjectHash,
    depth: nat,
)
    requires
        untouched(store, rules, place, tree, depth),
    ensures
        whole(store, tree, depth),
    decreases depth,
{
    assert forall|i: int|
        0 <= i < store[tree].len() && entry_is_tree(#[trigger] store[tree][i]) implies depth > 0
        && whole(store, oid_with(store[tree][i].hash), (depth - 1) as nat) by {
        lemma_untouched_whole(store, rules, place, oid_with(store[tree][i].hash), (depth - 1) as nat);
    }
}

} // verus!
