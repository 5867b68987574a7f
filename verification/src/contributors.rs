use crate::bytes::{copy_of, find_byte, first_at};
use crate::error::GitError;
use crate::hashing::{kind_commit, object_id, WriteObject};
use crate::object_hash::{
    hex_decoded, hex_lower, is_hex_oid, lemma_hex_decode_encode, ObjectHash,
};
use crate::objs::commit::{
    lemma_commit_reparse, no_byte, parsed_commit, serialized, valid_commit, CommitBase,
    CommitEditable, CommitView,
};
use crate::oid_map::{lemma_same_bytes_same_hash, oid_map_get, oid_map_insert};
use crate::packreader::oid_with;
use bstr::ByteSlice;
use rustc_hash::FxHashMap;
use vstd::prelude::*;
use vstd::slice::slice_subrange;

verus! {

/// What `bstr::ByteSlice::trim` leaves of `bytes`: the bytes without the
/// white space, in the sense of Unicode, at their start and at their end.
pub uninterp spec fn bstr_trimmed(bytes: Seq<u8>) -> Seq<u8>;

/// What a map from names to names holds.
pub uninterp spec fn mapping_entries(map: FxHashMap<Vec<u8>, Vec<u8>>) -> Map<Seq<u8>, Seq<u8>>;

/// `bstr::ByteSlice::trim`: the part of `bytes` between the white space at
/// its start and at its end.
#[verifier::external_body]
fn trim(bytes: &[u8]) -> (trimmed: &[u8])
    ensures
        trimmed@ == bstr_trimmed(bytes@),
{
    bytes.trim()
}

/// `FxHashMap::default`: a map that holds nothing.
#[verifier::external_body]
pub(crate) fn name_map_new() -> (created: FxHashMap<Vec<u8>, Vec<u8>>)
    ensures
        mapping_entries(created).dom() == Set::<Seq<u8>>::empty(),
{
    FxHashMap::default()
}

/// `HashMap::insert` on a map from names to names: afterwards the map holds
/// `value` for `key`, and for every other key what it held.
#[verifier::external_body]
pub(crate) fn name_map_insert(map: &mut FxHashMap<Vec<u8>, Vec<u8>>, key: Vec<u8>, value: Vec<u8>)
    ensures
        mapping_entries(*final(map)) == mapping_entries(*old(map)).insert(key@, value@),
{
    map.insert(key, value);
}

/// `HashMap::get` on a map from names to names: the value that the map
/// holds for `key`, if it holds one.
#[verifier::external_body]
pub(crate) fn name_map_get<'a>(map: &'a FxHashMap<Vec<u8>, Vec<u8>>, key: &[u8]) -> (found: Option<
    &'a Vec<u8>,
>)
    ensures
        found is Some == mapping_entries(*map).contains_key(key@),
        found is Some ==> found->Some_0@ == mapping_entries(*map)[key@],
{
    map.get(key)
}

/// Where the first `=` of the line stands, if it holds one.
pub fn split_index(line: &[u8]) -> (index: Option<usize>)
    ensures
        index is Some ==> index->Some_0 == first_at(line@, 0, 61) && index->Some_0 < line@.len(),
        index is None ==> first_at(line@, 0, 61) == line@.len(),
{
    let found = find_byte(line, 0, 61);
    if found < line.len() {
        Some(found)
    } else {
        None
    }
}

/// The entry that an old and a new name give: none where they are the same.
pub open spec fn entry_of(old_name: Seq<u8>, new_name: Seq<u8>) -> Option<(Seq<u8>, Seq<u8>)> {
    if old_name == new_name {
        None
    } else {
        Some((old_name, new_name))
    }
}

/// What a line of a mapping gives: it is malformed where it holds no `=`;
/// else the old name stands before the first `=` and the new name behind it,
/// both without the white space around them, and the line gives an entry
/// unless the two are the same.
pub open spec fn mapping_line(line: Seq<u8>) -> Result<Option<(Seq<u8>, Seq<u8>)>, GitError> {
    let split = first_at(line, 0, 61);
    if split >= line.len() {
        Err(GitError::MalformedMapping)
    } else {
        Ok(entry_of(bstr_trimmed(line.take(split)), bstr_trimmed(line.skip(split + 1))))
    }
}

/// The entry that an old and a new name give: none where they are the same.
pub fn mapping_entry(old_name: Vec<u8>, new_name: Vec<u8>) -> (entry: Option<(Vec<u8>, Vec<u8>)>)
    ensures
        match entry_of(old_name@, new_name@) {
            None => entry is None,
            Some((old_view, new_view)) => entry is Some && entry->Some_0.0@ == old_view
                && entry->Some_0.1@ == new_view,
        },
{
    if crate::bytes::same_bytes(old_name.as_slice(), new_name.as_slice()) {
        None
    } else {
        Some((old_name, new_name))
    }
}

/// Reads one line of a mapping, `old = new`.
pub fn read_mapping_line(line: &[u8]) -> (entry: Result<Option<(Vec<u8>, Vec<u8>)>, GitError>)
    ensures
        match mapping_line(line@) {
            Err(error) => entry is Err && entry->Err_0 == error,
            Ok(None) => entry is Ok && entry->Ok_0 is None,
            Ok(Some((old_view, new_view))) => entry is Ok && entry->Ok_0 is Some
                && entry->Ok_0->Some_0.0@ == old_view && entry->Ok_0->Some_0.1@ == new_view,
        },
{
    let total = line.len();
    let split_pos = match split_index(line) {
        Some(split_pos) => split_pos,
        None => {
            return Err(GitError::MalformedMapping);
        },
    };
    let before = slice_subrange(line, 0, split_pos);
    let behind = slice_subrange(line, split_pos + 1, total);
    assert(before@ == line@.take(split_pos as int));
    assert(behind@ == line@.skip(split_pos + 1));
    let old_name = copy_of(trim(before));
    let new_name = copy_of(trim(behind));
    Ok(mapping_entry(old_name, new_name))
}

/// What the lines of a mapping give together, a later line replacing an
/// earlier one for the same old name; the failure of the first line that is
/// malformed.
pub open spec fn mappings_of(lines: Seq<Seq<u8>>) -> Result<Map<Seq<u8>, Seq<u8>>, GitError>
    decreases lines.len(),
{
    if lines.len() == 0 {
        Ok(Map::empty())
    } else {
        match mappings_of(lines.drop_last()) {
            Err(error) => Err(error),
            Ok(earlier) => match mapping_line(lines.last()) {
                Err(error) => Err(error),
                Ok(None) => Ok(earlier),
                Ok(Some((old_name, new_name))) => Ok(earlier.insert(old_name, new_name)),
            },
        }
    }
}

/// The lines as plain values.
pub open spec fn lines_view(lines: Seq<Vec<u8>>) -> Seq<Seq<u8>> {
    Seq::new(lines.len(), |i: int| lines[i]@)
}

/// Reads the lines of a mapping.
pub fn get_mappings(lines: &Vec<Vec<u8>>) -> (mappings: Result<FxHashMap<Vec<u8>, Vec<u8>>, GitError>)
    ensures
        match mappings_of(lines_view(lines@)) {
            Err(error) => mappings is Err && mappings->Err_0 == error,
            Ok(entries) => mappings is Ok && mapping_entries(mappings->Ok_0) == entries,
        },
{
    let mut mappings = name_map_new();
    let ghost all = lines_view(lines@);
    let mut i: usize = 0;
    proof {
        assert(all.take(0) =~= Seq::<Seq<u8>>::empty());
        assert(mapping_entries(mappings) =~= Map::<Seq<u8>, Seq<u8>>::empty());
    }
    while i < lines.len()
        invariant
            i <= lines@.len(),
            all == lines_view(lines@),
            mappings_of(all.take(i as int)) == Ok::<Map<Seq<u8>, Seq<u8>>, GitError>(
                mapping_entries(mappings),
            ),
        decreases lines@.len() - i,
    {
        proof {
            assert(all.take(i + 1).drop_last() =~= all.take(i as int));
            assert(all.take(i + 1).last() == lines@[i as int]@);
        }
        match read_mapping_line(lines[i].as_slice()) {
            Err(error) => {
                proof {
                    lemma_mappings_fail(all, i + 1);
                }
                return Err(error);
            },
            Ok(None) => {},
            Ok(Some((old_name, new_name))) => {
                name_map_insert(&mut mappings, old_name, new_name);
            },
        }
        i += 1;
    }
    proof {
        assert(all.take(lines@.len() as int) =~= all);
    }
    Ok(mappings)
}

/// Once the first lines of a mapping fail, all of them fail, in the same
/// way.
pub proof fn lemma_mappings_fail(lines: Seq<Seq<u8>>, count: int)
    requires
        0 <= count <= lines.len(),
        mappings_of(lines.take(count)) is Err,
    ensures
        mappings_of(lines) == mappings_of(lines.take(count)),
    decreases lines.len(),
{
    if count < lines.len() {
        assert(lines.drop_last().take(count) =~= lines.take(count));
        lemma_mappings_fail(lines.drop_last(), count);
    } else {
        assert(lines.take(count) =~= lines);
    }
}

/// What a mapping makes of a name: what it holds for it, or the name itself.
pub open spec fn mapped(mappings: Map<Seq<u8>, Seq<u8>>, name: Seq<u8>) -> Seq<u8> {
    if mappings.contains_key(name) {
        mappings[name]
    } else {
        name
    }
}

/// What stands for a parent once the commits rewritten so far are taken
/// into account: the 40 hexadecimal digits of what `rewritten` holds for it,
/// or the parent as it was.
pub open spec fn reparented(rewritten: Map<ObjectHash, ObjectHash>, parent: Seq<u8>) -> Seq<u8> {
    if rewritten.contains_key(oid_with(hex_decoded(parent))) {
        hex_lower(rewritten[oid_with(hex_decoded(parent))]@)
    } else {
        parent
    }
}

/// The fields of a commit once its contributors are rewritten: the author
/// and the committer are what the mapping makes of them, each parent is
/// what stands for it, and every other field is as it was.
pub open spec fn rewritten_view(
    commit: CommitView,
    mappings: Map<Seq<u8>, Seq<u8>>,
    rewritten: Map<ObjectHash, ObjectHash>,
) -> CommitView {
    CommitView {
        author: mapped(mappings, commit.author),
        committer: mapped(mappings, commit.committer),
        parents: Seq::new(commit.parents.len(), |i: int| reparented(rewritten, commit.parents[i])),
        ..commit
    }
}

/// Whether rewriting touches the commit: the mapping holds its author or
/// its committer, or one of its parents was rewritten.
pub open spec fn touched(
    commit: CommitView,
    mappings: Map<Seq<u8>, Seq<u8>>,
    rewritten: Map<ObjectHash, ObjectHash>,
) -> bool {
    mappings.contains_key(commit.author) || mappings.contains_key(commit.committer) || exists|
        i: int,
    |
        0 <= i < commit.parents.len() && rewritten.contains_key(
            oid_with(hex_decoded(#[trigger] commit.parents[i])),
        )
}

/// Rewrites the contributors of one commit. The commits must come parents
/// first. A commit that the mapping or a rewritten parent touches is
/// written anew under a new identifier, which `rewritten_commits` then
/// holds for it; any other commit is left alone.
#[verifier::rlimit(30)]
pub fn rewrite(
    commit: CommitBase,
    mappings: &FxHashMap<Vec<u8>, Vec<u8>>,
    rewritten_commits: &mut FxHashMap<ObjectHash, ObjectHash>,
) -> (written: Option<WriteObject>)
    ensures
        touched(commit@, mapping_entries(*mappings), old(rewritten_commits)@) ==> {
            &&& written is Some
            &&& written->Some_0.kind() == kind_commit()
            &&& written->Some_0.payload() == serialized(
                rewritten_view(commit@, mapping_entries(*mappings), old(rewritten_commits)@),
            )
            &&& written->Some_0.spec_hash()@ == object_id(kind_commit(), written->Some_0.payload())
            &&& final(rewritten_commits)@ == old(rewritten_commits)@.insert(
                commit.spec_hash().0,
                written->Some_0.spec_hash(),
            )
        },
        !touched(commit@, mapping_entries(*mappings), old(rewritten_commits)@) ==> written is None
            && final(rewritten_commits)@ == old(rewritten_commits)@,
{
    let ghost view = commit@;
    let ghost entries = mapping_entries(*mappings);
    let ghost before = rewritten_commits@;
    let mut commit = CommitEditable::create(commit);
    let ghost base = commit.base();
    let author = match name_map_get(mappings, commit.author_bytes()) {
        Some(new_author) => Some(copy_of(new_author.as_slice())),
        None => None,
    };
    match author {
        Some(new_author) => {
            commit.set_author(new_author);
        },
        None => {},
    }
    let committer = match name_map_get(mappings, commit.committer_bytes()) {
        Some(new_committer) => Some(copy_of(new_committer.as_slice())),
        None => None,
    };
    match committer {
        Some(new_committer) => {
            commit.set_committer(new_committer);
        },
        None => {},
    }
    let parents = commit.parents();
    let mut i: usize = 0;
    let ghost named = commit@;
    let ghost by_name = entries.contains_key(view.author) || entries.contains_key(view.committer);
    proof {
        assert(named.parents =~= view.parents);
        assert(named.parents =~= Seq::new(
            view.parents.len(),
            |j: int|
                if j < 0 {
                    reparented(before, view.parents[j])
                } else {
                    view.parents[j]
                },
        ));
    }
    while i < parents.len()
        invariant
            i <= parents@.len(),
            parents@.len() == view.parents.len(),
            rewritten_commits@ == before,
            commit.base() == base,
            forall|j: int|
                0 <= j < parents@.len() ==> (#[trigger] parents@[j])@ == hex_decoded(view.parents[j]),
            commit@ == (CommitView {
                parents: Seq::new(
                    view.parents.len(),
                    |j: int|
                        if j < i {
                            reparented(before, view.parents[j])
                        } else {
                            view.parents[j]
                        },
                ),
                ..named
            }),
            commit.edited() == (by_name || exists|j: int|
                0 <= j < i && before.contains_key(oid_with(hex_decoded(#[trigger] view.parents[j])))),
        decreases parents@.len() - i,
    {
        let parent = parents[i];
        let ghost was = commit@;
        proof {
            lemma_same_bytes_same_hash(parent.0, oid_with(hex_decoded(view.parents[i as int])));
        }
        match oid_map_get(rewritten_commits, &parent.0) {
            Some(new_commit_hash) => {
                commit.set_parent(i, crate::object_hash::CommitHash(*new_commit_hash));
                assert(commit@.parents =~= Seq::new(
                    view.parents.len(),
                    |j: int|
                        if j < i + 1 {
                            reparented(before, view.parents[j])
                        } else {
                            view.parents[j]
                        },
                ));
            },
            None => {
                assert(commit@.parents =~= Seq::new(
                    view.parents.len(),
                    |j: int|
                        if j < i + 1 {
                            reparented(before, view.parents[j])
                        } else {
                            view.parents[j]
                        },
                ));
            },
        }
        i += 1;
    }
    proof {
        assert(commit@.parents =~= rewritten_view(view, entries, before).parents);
        assert(named.author == mapped(entries, view.author));
        assert(named.committer == mapped(entries, view.committer));
    }
    if commit.has_changes() {
        let old_hash = commit.base_hash().0;
        let w = WriteObject::from_commit(commit);
        oid_map_insert(rewritten_commits, old_hash, *w.hash());
        Some(w)
    } else {
        None
    }
}

/// One name comes before the other: at the first place where they differ
/// its byte is the lower, or it ends where the other goes on.
pub open spec fn lex_less(a: Seq<u8>, b: Seq<u8>) -> bool
    decreases a.len(),
{
    if b.len() == 0 {
        false
    } else if a.len() == 0 {
        true
    } else if a[0] != b[0] {
        a[0] < b[0]
    } else {
        lex_less(a.drop_first(), b.drop_first())
    }
}

/// Each name comes before the next.
pub open spec fn ascending(names: Seq<Seq<u8>>) -> bool {
    forall|i: int, j: int| 0 <= i < j < names.len() ==> lex_less(#[trigger] names[i], #[trigger] names[j])
}

/// The names as plain values.
pub open spec fn names_view(names: Seq<Vec<u8>>) -> Seq<Seq<u8>> {
    Seq::new(names.len(), |i: int| names[i]@)
}

/// No name comes before itself, and of two different names one comes before
/// the other.
pub proof fn lemma_lex_total(a: Seq<u8>, b: Seq<u8>)
    ensures
        !lex_less(a, a),
        a != b ==> lex_less(a, b) || lex_less(b, a),
        !(lex_less(a, b) && lex_less(b, a)),
    decreases a.len(),
{
    if a.len() > 0 {
        lemma_lex_total(a.drop_first(), a.drop_first());
    }
    if a.len() > 0 && b.len() > 0 {
        lemma_lex_total(a.drop_first(), b.drop_first());
        if a[0] == b[0] && a.drop_first() == b.drop_first() {
            assert(a =~= seq![a[0]] + a.drop_first());
            assert(b =~= seq![b[0]] + b.drop_first());
        }
    } else if a.len() == 0 && b.len() == 0 {
        assert(a =~= b);
    }
}

/// Coming before is passed on.
pub proof fn lemma_lex_trans(a: Seq<u8>, b: Seq<u8>, c: Seq<u8>)
    requires
        lex_less(a, b),
        lex_less(b, c),
    ensures
        lex_less(a, c),
    decreases a.len(),
{
    if a.len() > 0 && b.len() > 0 && c.len() > 0 {
        if a[0] == b[0] && b[0] == c[0] {
            lemma_lex_trans(a.drop_first(), b.drop_first(), c.drop_first());
        }
    }
}

/// How two names stand to each other: 0 where they are the same, 1 where
/// the first comes before the second, 2 where it comes behind.
fn order_of(a: &[u8], b: &[u8]) -> (order: u8)
    ensures
        order == 0 <==> a@ == b@,
        order == 1 <==> lex_less(a@, b@),
        order == 2 <==> lex_less(b@, a@),
        order <= 2,
{
    let mut i: usize = 0;
    proof {
        assert(a@.skip(0) =~= a@);
        assert(b@.skip(0) =~= b@);
    }
    while i < a.len() && i < b.len()
        invariant
            i <= a@.len(),
            i <= b@.len(),
            a@.take(i as int) == b@.take(i as int),
            lex_less(a@, b@) == lex_less(a@.skip(i as int), b@.skip(i as int)),
            lex_less(b@, a@) == lex_less(b@.skip(i as int), a@.skip(i as int)),
        decreases a@.len() - i,
    {
        proof {
            assert(a@.skip(i as int).drop_first() =~= a@.skip(i + 1));
            assert(b@.skip(i as int).drop_first() =~= b@.skip(i + 1));
            assert(a@.skip(i as int)[0] == a@[i as int]);
            assert(b@.skip(i as int)[0] == b@[i as int]);
        }
        if a[i] < b[i] {
            proof {
                lemma_lex_total(a@, b@);
                assert(a@ != b@);
            }
            return 1;
        }
        if a[i] > b[i] {
            proof {
                lemma_lex_total(a@, b@);
                assert(a@ != b@);
            }
            return 2;
        }
        proof {
            assert(a@.take(i + 1) =~= a@.take(i as int).push(a@[i as int]));
            assert(b@.take(i + 1) =~= b@.take(i as int).push(b@[i as int]));
        }
        i += 1;
    }
    proof {
        lemma_lex_total(a@, b@);
        if i == a@.len() && i == b@.len() {
            assert(a@.take(i as int) =~= a@);
            assert(b@.take(i as int) =~= b@);
        } else if i == a@.len() {
            assert(a@.skip(i as int).len() == 0);
            assert(a@ != b@);
        } else {
            assert(b@.skip(i as int).len() == 0);
            assert(a@ != b@);
        }
    }
    if a.len() == b.len() {
        0
    } else if a.len() < b.len() {
        1
    } else {
        2
    }
}

/// Puts `name` into the names, which are in ascending order, unless it is
/// among them; the names stay in ascending order.
#[verifier::rlimit(30)]
pub fn add_contributor(names: &mut Vec<Vec<u8>>, name: &[u8])
    requires
        ascending(names_view(old(names)@)),
    ensures
        ascending(names_view(final(names)@)),
        forall|other: Seq<u8>|
            names_view(final(names)@).contains(other) <==> (other == name@ || names_view(
                old(names)@,
            ).contains(other)),
{
    let ghost before = names_view(names@);
    let mut i: usize = 0;
    let mut placed = false;
    while !placed && i < names.len()
        invariant
            i <= names@.len(),
            names@ == old(names)@,
            before == names_view(names@),
            ascending(before),
            forall|j: int| 0 <= j < i ==> lex_less(#[trigger] before[j], name@),
            placed ==> i < names@.len() && lex_less(name@, before[i as int]),
        decreases names@.len() - i + (if placed { 0int } else { 1int }),
    {
        let order = order_of(names[i].as_slice(), name);
        assert(before[i as int] == names@[i as int]@);
        if order == 0 {
            proof {
                assert(before.contains(name@));
            }
            return ;
        }
        if order == 2 {
            placed = true;
        } else {
            i += 1;
        }
    }
    names.insert(i, copy_of(name));
    proof {
        let after = names_view(names@);
        assert(after =~= before.insert(i as int, name@));
        assert forall|a: int, b: int| 0 <= a < b < after.len() implies lex_less(
            #[trigger] after[a],
            #[trigger] after[b],
        ) by {
            if b < i {
                assert(after[a] == before[a] && after[b] == before[b]);
            } else if b == i {
                assert(after[a] == before[a]);
            } else if a < i {
                assert(after[a] == before[a] && after[b] == before[b - 1]);
                if b - 1 == a {
                } else {
                    assert(lex_less(before[a], before[b - 1]));
                }
            } else if a == i {
                assert(after[b] == before[b - 1]);
                if b - 1 > i {
                    assert(lex_less(before[i as int], before[b - 1]));
                    lemma_lex_trans(name@, before[i as int], before[b - 1]);
                }
            } else {
                assert(after[a] == before[a - 1] && after[b] == before[b - 1]);
            }
        }
        assert forall|other: Seq<u8>|
            after.contains(other) <==> (other == name@ || before.contains(other)) by {
            if after.contains(other) {
                let k = choose|k: int| 0 <= k < after.len() && after[k] == other;
                if k < i {
                    assert(before[k] == other);
                } else if k > i {
                    assert(before[k - 1] == other);
                }
            }
            if other == name@ {
                assert(after[i as int] == other);
            }
            if before.contains(other) {
                let k = choose|k: int| 0 <= k < before.len() && before[k] == other;
                if k < i {
                    assert(after[k] == other);
                } else {
                    assert(after[k + 1] == other);
                }
            }
        }
    }
}

/// The authors and committers of the commits: each once, in ascending
/// order.
#[verifier::rlimit(30)]
pub fn get_contributors(commits: &Vec<CommitBase>) -> (names: Vec<Vec<u8>>)
    ensures
        ascending(names_view(names@)),
        forall|other: Seq<u8>|
            names_view(names@).contains(other) <==> exists|i: int|
                0 <= i < commits@.len() && ((#[trigger] commits@[i])@.author == other
                    || commits@[i]@.committer == other),
{
    let mut names: Vec<Vec<u8>> = Vec::new();
    let mut k: usize = 0;
    while k < commits.len()
        invariant
            k <= commits@.len(),
            ascending(names_view(names@)),
            forall|other: Seq<u8>|
                names_view(names@).contains(other) <==> exists|i: int|
                    0 <= i < k && ((#[trigger] commits@[i])@.author == other || commits@[i]@.committer
                        == other),
        decreases commits@.len() - k,
    {
        let ghost before = names_view(names@);
        add_contributor(&mut names, commits[k].committer());
        let ghost middle = names_view(names@);
        add_contributor(&mut names, commits[k].author());
        proof {
            let after = names_view(names@);
            assert forall|other: Seq<u8>|
                after.contains(other) <==> exists|i: int|
                    0 <= i < k + 1 && ((#[trigger] commits@[i])@.author == other
                        || commits@[i]@.committer == other) by {
                if after.contains(other) {
                    if other == commits@[k as int]@.author || other == commits@[k as int]@.committer {
                    } else {
                        assert(middle.contains(other));
                        assert(before.contains(other));
                        let i = choose|i: int|
                            0 <= i < k && ((#[trigger] commits@[i])@.author == other
                                || commits@[i]@.committer == other);
                    }
                }
                if exists|i: int|
                    0 <= i < k + 1 && ((#[trigger] commits@[i])@.author == other
                        || commits@[i]@.committer == other) {
                    let i = choose|i: int|
                        0 <= i < k + 1 && ((#[trigger] commits@[i])@.author == other
                            || commits@[i]@.committer == other);
                    if i < k {
                        assert(before.contains(other));
                        assert(middle.contains(other));
                    }
                }
            }
        }
        k += 1;
    }
    names
}

/// Rewriting the contributors of a commit makes of its author and of its
/// committer what the mapping makes of them, keeps the number of parents,
/// and leaves the tree, the two times and everything behind the committer
/// line as they were.
pub proof fn lemma_rewritten_fields(
    commit: CommitView,
    mappings: Map<Seq<u8>, Seq<u8>>,
    rewritten: Map<ObjectHash, ObjectHash>,
)
    ensures
        rewritten_view(commit, mappings, rewritten).author == mapped(mappings, commit.author),
        rewritten_view(commit, mappings, rewritten).committer == mapped(mappings, commit.committer),
        rewritten_view(commit, mappings, rewritten).tree == commit.tree,
        rewritten_view(commit, mappings, rewritten).author_time == commit.author_time,
        rewritten_view(commit, mappings, rewritten).committer_time == commit.committer_time,
        rewritten_view(commit, mappings, rewritten).remainder == commit.remainder,
        rewritten_view(commit, mappings, rewritten).parents.len() == commit.parents.len(),
        forall|i: int|
            0 <= i < commit.parents.len() && !rewritten.contains_key(
                oid_with(hex_decoded(#[trigger] commit.parents[i])),
            ) ==> rewritten_view(commit, mappings, rewritten).parents[i] == commit.parents[i],
        !touched(commit, mappings, rewritten) ==> rewritten_view(commit, mappings, rewritten)
            == commit,
{
    if !touched(commit, mappings, rewritten) {
        assert(rewritten_view(commit, mappings, rewritten).parents =~= commit.parents);
    }
}

/// The commit that is written reads back as rewritten: where the fields of
/// a commit are valid and no new name holds a line feed, the payload of the
/// rewritten fields holds a commit with exactly these fields.
pub proof fn lemma_rewritten_reads_back(
    commit: CommitView,
    mappings: Map<Seq<u8>, Seq<u8>>,
    rewritten: Map<ObjectHash, ObjectHash>,
)
    requires
        valid_commit(commit),
        forall|name: Seq<u8>| mappings.contains_key(name) ==> no_byte(#[trigger] mappings[name], 10),
    ensures
        parsed_commit(serialized(rewritten_view(commit, mappings, rewritten)), false) == Some(
            rewritten_view(commit, mappings, rewritten),
        ),
{
    let after = rewritten_view(commit, mappings, rewritten);
    assert forall|i: int| 0 <= i < after.parents.len() implies is_hex_oid(
        #[trigger] after.parents[i],
    ) by {
        let parent = oid_with(hex_decoded(commit.parents[i]));
        if rewritten.contains_key(parent) {
            lemma_hex_decode_encode(rewritten[parent]@);
        } else {
            assert(is_hex_oid(commit.parents[i]));
        }
    }
    lemma_commit_reparse(after);
}

/// Rewriting twice with a mapping whose new names are no old names is
/// rewriting once.
pub proof fn lemma_rewrite_twice_closed(commit: CommitView, mappings: Map<Seq<u8>, Seq<u8>>)
    requires
        forall|name: Seq<u8>| mappings.contains_key(name) ==> !mappings.contains_key(
            #[trigger] mappings[name],
        ),
    ensures
        rewritten_view(rewritten_view(commit, mappings, Map::empty()), mappings, Map::empty())
            == rewritten_view(commit, mappings, Map::empty()),
{
    let once = rewritten_view(commit, mappings, Map::empty());
    let twice = rewritten_view(once, mappings, Map::empty());
    assert(twice.parents =~= once.parents);
}

/// Rewriting twice with a mapping that takes each new name back to its old
/// name gives the commit back, where the mapping holds every name that it
/// gives.
pub proof fn lemma_rewrite_twice_involutive(commit: CommitView, mappings: Map<Seq<u8>, Seq<u8>>)
    requires
        forall|name: Seq<u8>| mappings.contains_key(name) ==> mappings.contains_key(
            #[trigger] mappings[name],
        ) && mappings[mappings[name]] == name,
    ensures
        rewritten_view(rewritten_view(commit, mappings, Map::empty()), mappings, Map::empty())
            == commit,
{
    let once = rewritten_view(commit, mappings, Map::empty());
    let twice = rewritten_view(once, mappings, Map::empty());
    assert(twice.parents =~= commit.parents);
}

/// A commit as a run of rewriting sees it: its identifier and its fields.
pub struct Rewritable {
    pub id: ObjectHash,
    pub fields: CommitView,
}

/// What a run of rewriting makes of commits that come parents first: the
/// commits as they stand afterwards, in the same order, and what each
/// commit that was written anew is mapped to. `name` gives each payload its
/// identifier.
pub open spec fn rewrite_run(
    commits: Seq<Rewritable>,
    mappings: Map<Seq<u8>, Seq<u8>>,
    name: spec_fn(Seq<u8>) -> ObjectHash,
) -> (Seq<Rewritable>, Map<ObjectHash, ObjectHash>)
    decreases commits.len(),
{
    if commits.len() == 0 {
        (Seq::empty(), Map::empty())
    } else {
        let (done, rewritten) = rewrite_run(commits.drop_last(), mappings, name);
        let commit = commits.last();
        if touched(commit.fields, mappings, rewritten) {
            let fields = rewritten_view(commit.fields, mappings, rewritten);
            let id = name(serialized(fields));
            (done.push(Rewritable { id, fields }), rewritten.insert(commit.id, id))
        } else {
            (done.push(commit), rewritten)
        }
    }
}

/// A second run with the same mapping rewrites nothing, where no new name
/// of the mapping is an old name: the commits that the first run leaves are
/// left as they are, and no commit is mapped to another.
pub proof fn lemma_second_run_rewrites_nothing(
    commits: Seq<Rewritable>,
    mappings: Map<Seq<u8>, Seq<u8>>,
    name: spec_fn(Seq<u8>) -> ObjectHash,
)
    requires
        forall|old_name: Seq<u8>|
            mappings.contains_key(old_name) ==> !mappings.contains_key(#[trigger] mappings[old_name]),
    ensures
        rewrite_run(rewrite_run(commits, mappings, name).0, mappings, name) == (
            rewrite_run(commits, mappings, name).0,
            Map::<ObjectHash, ObjectHash>::empty(),
        ),
        rewrite_run(commits, mappings, name).0.len() == commits.len(),
    decreases commits.len(),
{
    if commits.len() > 0 {
        lemma_second_run_rewrites_nothing(commits.drop_last(), mappings, name);
        let (done, rewritten) = rewrite_run(commits.drop_last(), mappings, name);
        let first = rewrite_run(commits, mappings, name).0;
        let left = first.last();
        assert(first.drop_last() =~= done);
        assert(!touched(left.fields, mappings, Map::<ObjectHash, ObjectHash>::empty()));
        assert(rewrite_run(first, mappings, name).0 =~= first);
    }
}

/// The fields of a commit with the parents left out of account.
pub open spec fn but_parents(fields: CommitView) -> CommitView {
    CommitView { parents: Seq::empty(), ..fields }
}

/// Two runs map every contributor twice: whatever the mapping and the
/// identifiers that the two runs give, each commit has after the second run
/// the author and the committer that the mapping makes of what it made of
/// the first, and every other field but the parents was never touched. So
/// a mapping that takes each new name back to its old name gives every
/// commit its contributors back.
pub proof fn lemma_two_runs_contributors(
    commits: Seq<Rewritable>,
    mappings: Map<Seq<u8>, Seq<u8>>,
    name: spec_fn(Seq<u8>) -> ObjectHash,
)
    ensures
        rewrite_run(commits, mappings, name).0.len() == commits.len(),
        rewrite_run(rewrite_run(commits, mappings, name).0, mappings, name).0.len() == commits.len(),
        forall|i: int|
            0 <= i < commits.len() ==> but_parents(
                (#[trigger] rewrite_run(commits, mappings, name).0[i]).fields,
            ) == but_parents(rewritten_view(commits[i].fields, mappings, Map::empty())),
        forall|i: int|
            0 <= i < commits.len() ==> but_parents(
                (#[trigger] rewrite_run(rewrite_run(commits, mappings, name).0, mappings, name).0[i]).fields,
            ) == but_parents(
                rewritten_view(
                    rewritten_view(commits[i].fields, mappings, Map::empty()),
                    mappings,
                    Map::empty(),
                ),
            ),
    decreases commits.len(),
{
    if commits.len() > 0 {
        let head = commits.drop_last();
        lemma_two_runs_contributors(head, mappings, name);
        let done = rewrite_run(head, mappings, name).0;
        let first = rewrite_run(commits, mappings, name).0;
        assert(first.drop_last() =~= done);
        let again = rewrite_run(done, mappings, name).0;
        let twice = rewrite_run(first, mappings, name).0;
        assert(twice.drop_last() =~= again);
        assert forall|i: int| 0 <= i < commits.len() implies but_parents((#[trigger] first[i]).fields)
            == but_parents(rewritten_view(commits[i].fields, mappings, Map::empty())) by {
            if i < head.len() {
                assert(first[i] == done[i]);
                assert(head[i] == commits[i]);
            }
        }
        assert forall|i: int| 0 <= i < commits.len() implies but_parents((#[trigger] twice[i]).fields)
            == but_parents(
            rewritten_view(
                rewritten_view(commits[i].fields, mappings, Map::empty()),
                mappings,
                Map::empty(),
            ),
        ) by {
            if i < head.len() {
                assert(twice[i] == again[i]);
                assert(head[i] == commits[i]);
            } else {
                assert(but_parents(first[i].fields) == but_parents(
                    rewritten_view(commits[i].fields, mappings, Map::empty()),
                ));
            }
        }
    }
}

} // verus!
