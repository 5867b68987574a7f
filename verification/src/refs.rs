use crate::bytes::{
    copy_of, first_at, has_prefix, is_hex_at, line_at, next_line, same_bytes, starts_with,
};
use crate::error::GitError;
use crate::hashing::{kind_tag, object_id};
use crate::object_hash::{hex_decoded, hex_lower, is_hex_oid, ObjectHash};
use crate::objs::tag::{serialized_tag, Tag, TagView};
use crate::objs::{GitObject, TagTargetType};
use crate::oid_map::{lemma_same_bytes_same_hash, oid_map_get};
use crate::packreader::oid_with;
use rustc_hash::FxHashMap;
use vstd::prelude::*;
use vstd::slice::slice_subrange;

verus! {

/// A reference as plain values: its name, the 40 hexadecimal digits of the
/// object that it points at and, for an annotated tag whose target is known,
/// the 40 hexadecimal digits of the object that the tag points at.
pub struct RefView {
    pub name: Seq<u8>,
    pub hash: Seq<u8>,
    pub peeled: Option<Seq<u8>>,
}

/// A reference.
#[derive(Debug)]
pub enum GitRef {
    Simple(SimpleRef),
    Tag(TagRef),
}

/// A reference to an object.
#[derive(Debug)]
pub struct SimpleRef {
    pub name: Vec<u8>,
    pub hash: Vec<u8>,
}

/// A reference to an annotated tag whose target is known.
#[derive(Debug)]
pub struct TagRef {
    pub name: Vec<u8>,
    pub hash: Vec<u8>,
    pub obj_hash: Vec<u8>,
}

impl View for GitRef {
    type V = RefView;

    open spec fn view(&self) -> RefView {
        match self {
            GitRef::Simple(simple) => RefView { name: simple.name@, hash: simple.hash@, peeled: None },
            GitRef::Tag(tag) => RefView {
                name: tag.name@,
                hash: tag.hash@,
                peeled: Some(tag.obj_hash@),
            },
        }
    }
}

/// The references as plain values.
pub open spec fn refs_view(refs: Seq<GitRef>) -> Seq<RefView> {
    Seq::new(refs.len(), |i: int| refs[i]@)
}

/// The reference that a line of a packed-refs file gives: 40 hexadecimal
/// digits, a space and a name of at least one byte.
pub open spec fn entry_of(line: Seq<u8>) -> Option<RefView> {
    if line.len() >= 42 && is_hex_oid(line.take(40)) && line[40] == 32 {
        Some(RefView { hash: line.take(40), name: line.skip(41), peeled: None })
    } else {
        None
    }
}

/// `first`, where there is one, before what `rest` holds.
pub open spec fn prepended(first: Option<RefView>, rest: Result<Seq<RefView>, GitError>) -> Result<
    Seq<RefView>,
    GitError,
> {
    match rest {
        Err(error) => Err(error),
        Ok(refs) => Ok(
            (match first {
                Some(entry) => seq![entry],
                None => Seq::empty(),
            }) + refs,
        ),
    }
}

/// What one line of a packed-refs file does, given the reference of the
/// line before where that may still get a target: the reference that is now
/// complete, if one is, and the reference that may still get a target. A line
/// that starts with `#` is a comment. A line that starts with `^` gives the
/// target of the annotated tag of the line before: 40 hexadecimal digits.
/// Every other line gives a reference. Anything else is malformed.
pub open spec fn line_step(pending: Option<RefView>, line: Seq<u8>) -> Result<
    (Option<RefView>, Option<RefView>),
    GitError,
> {
    if line.len() > 0 && line[0] == 35 {
        Ok((pending, None))
    } else if line.len() > 0 && line[0] == 94 {
        match pending {
            Some(entry) => if line.len() == 41 && is_hex_oid(line.skip(1)) {
                Ok((Some(RefView { peeled: Some(line.skip(1)), ..entry }), None))
            } else {
                Err(GitError::MalformedRef)
            },
            None => Err(GitError::MalformedRef),
        }
    } else {
        match entry_of(line) {
            None => Err(GitError::MalformedRef),
            Some(entry) => Ok((pending, Some(entry))),
        }
    }
}

/// The references that a packed-refs file holds from `pos` on, given the
/// reference of the line before where that may still get a target.
pub open spec fn packed_refs_from(data: Seq<u8>, pos: int, pending: Option<RefView>) -> Result<
    Seq<RefView>,
    GitError,
>
    decreases data.len() - pos,
{
    if pos < 0 || pos >= data.len() {
        prepended(pending, Ok(Seq::empty()))
    } else {
        let (end, next) = line_at(data, pos);
        if next <= pos || end < pos {
            Err(GitError::MalformedRef)
        } else {
            match line_step(pending, data.subrange(pos, end)) {
                Err(error) => Err(error),
                Ok((complete, waiting)) => prepended(
                    complete,
                    packed_refs_from(data, next, waiting),
                ),
            }
        }
    }
}

/// The references that a packed-refs file holds.
pub open spec fn packed_refs(data: Seq<u8>) -> Result<Seq<RefView>, GitError> {
    packed_refs_from(data, 0, None)
}

/// `data` without the white space at its end: spaces, tabs, line feeds,
/// form feeds, vertical tabs and carriage returns.
pub open spec fn trimmed_end(data: Seq<u8>) -> Seq<u8>
    decreases data.len(),
{
    if data.len() > 0 && is_space(data.last()) {
        trimmed_end(data.drop_last())
    } else {
        data
    }
}

/// A space, a tab, a line feed, a vertical tab, a form feed or a carriage
/// return.
pub open spec fn is_space(byte: u8) -> bool {
    byte == 32 || (9 <= byte <= 13)
}

/// `"ref: "`
pub open spec fn word_ref() -> Seq<u8> {
    seq![114u8, 101u8, 102u8, 58u8, 32u8]
}

/// What the content of a loose reference file gives for the reference
/// `name`: nothing where the content, without the white space at its end,
/// starts with `ref: `; a reference where it is 40 hexadecimal digits; else
/// it is malformed.
pub open spec fn loose_ref(name: Seq<u8>, content: Seq<u8>) -> Result<Option<RefView>, GitError> {
    let target = trimmed_end(content);
    if starts_with(target, word_ref()) {
        Ok(None)
    } else if is_hex_oid(target) {
        Ok(Some(RefView { name, hash: target, peeled: None }))
    } else {
        Err(GitError::MalformedRef)
    }
}

/// Whether one of the references has the name `name`.
pub open spec fn has_name(refs: Seq<RefView>, name: Seq<u8>) -> bool {
    exists|i: int| 0 <= i < refs.len() && (#[trigger] refs[i]).name == name
}

/// The references with, of each name, only the first that has it.
pub open spec fn first_of_each_name(refs: Seq<RefView>) -> Seq<RefView>
    decreases refs.len(),
{
    if refs.len() == 0 {
        Seq::empty()
    } else {
        let earlier = first_of_each_name(refs.drop_last());
        if has_name(earlier, refs.last().name) {
            earlier
        } else {
            earlier.push(refs.last())
        }
    }
}

/// No two of the references have the same name.
pub open spec fn names_differ(refs: Seq<RefView>) -> bool {
    forall|i: int, j: int|
        0 <= i < j < refs.len() ==> (#[trigger] refs[i]).name != (#[trigger] refs[j]).name
}

/// Keeping the first reference of each name leaves no name twice, keeps
/// every name, and keeps of each name the first reference that has it.
#[verifier::rlimit(30)]
pub proof fn lemma_first_of_each_name(refs: Seq<RefView>)
    ensures
        names_differ(first_of_each_name(refs)),
        forall|name: Seq<u8>| has_name(refs, name) == has_name(first_of_each_name(refs), name),
        forall|i: int|
            0 <= i < first_of_each_name(refs).len() ==> exists|j: int|
                0 <= j < refs.len() && refs[j] == (#[trigger] first_of_each_name(refs)[i]) && forall|
                    k: int,
                |
                    0 <= k < j ==> (#[trigger] refs[k]).name != refs[j].name,
    decreases refs.len(),
{
    if refs.len() > 0 {
        let head = refs.drop_last();
        let earlier = first_of_each_name(head);
        let kept = first_of_each_name(refs);
        lemma_first_of_each_name(head);
        assert forall|name: Seq<u8>| has_name(refs, name) == has_name(kept, name) by {
            if has_name(refs, name) {
                let i = choose|i: int| 0 <= i < refs.len() && (#[trigger] refs[i]).name == name;
                if i < refs.len() - 1 {
                    assert(head[i].name == name);
                    assert(has_name(head, name));
                    let k = choose|k: int| 0 <= k < earlier.len() && (#[trigger] earlier[k]).name == name;
                    assert(kept[k].name == name);
                } else if has_name(earlier, name) {
                } else {
                    assert(kept[kept.len() - 1].name == name);
                }
            }
            if has_name(kept, name) {
                let k = choose|k: int| 0 <= k < kept.len() && (#[trigger] kept[k]).name == name;
                if k < earlier.len() {
                    assert(earlier[k].name == name);
                    assert(has_name(head, name));
                    let i = choose|i: int| 0 <= i < head.len() && (#[trigger] head[i]).name == name;
                    assert(refs[i].name == name);
                } else {
                    assert(refs[refs.len() - 1].name == name);
                }
            }
        }
        assert forall|i: int| 0 <= i < kept.len() implies exists|j: int|
            0 <= j < refs.len() && refs[j] == (#[trigger] kept[i]) && forall|k: int|
                0 <= k < j ==> (#[trigger] refs[k]).name != refs[j].name by {
            if i < earlier.len() {
                assert(kept[i] == earlier[i]);
                let j = choose|j: int|
                    0 <= j < head.len() && head[j] == earlier[i] && forall|k: int|
                        0 <= k < j ==> (#[trigger] head[k]).name != head[j].name;
                assert(refs[j] == kept[i]);
                assert forall|k: int| 0 <= k < j implies (#[trigger] refs[k]).name != refs[j].name by {
                    assert(head[k].name != head[j].name);
                }
            } else {
                let j = refs.len() - 1;
                assert(refs[j] == kept[i]);
                assert forall|k: int| 0 <= k < j implies (#[trigger] refs[k]).name != refs[j].name by {
                    if refs[k].name == refs[j].name {
                        assert(head[k].name == refs[j].name);
                        assert(has_name(head, refs[j].name));
                    }
                }
            }
        }
        assert forall|i: int, j: int| 0 <= i < j < kept.len() implies (#[trigger] kept[i]).name != (
        #[trigger] kept[j]).name by {
            if j < earlier.len() {
                assert(earlier[i].name != earlier[j].name);
            } else {
                assert(kept[i] == earlier[i]);
                if kept[i].name == kept[j].name {
                    assert(has_name(earlier, refs.last().name));
                }
            }
        }
    }
}

/// What is to be done for one reference when references are updated.
#[derive(Debug)]
pub struct RefUpdate {
    /// The 40 hexadecimal digits to write into the reference's file.
    pub ref_target: Vec<u8>,
    /// The object that the reference points at afterwards.
    pub target: ObjectHash,
    /// The tag payload to write as a new object before the reference is
    /// written, where there is one.
    pub new_tag: Option<Vec<u8>>,
}

/// What `rewritten` gives for `hash`, or `hash` where it gives nothing.
pub open spec fn remapped(rewritten: Map<ObjectHash, ObjectHash>, hash: ObjectHash) -> ObjectHash {
    if rewritten.contains_key(hash) {
        rewritten[hash]
    } else {
        hash
    }
}

/// What `rewritten_commits` gives for `hash`, or `hash` where it gives
/// nothing.
pub fn remap(rewritten_commits: &FxHashMap<ObjectHash, ObjectHash>, hash: &ObjectHash) -> (mapped:
    ObjectHash)
    ensures
        mapped == remapped(rewritten_commits@, *hash),
{
    match oid_map_get(rewritten_commits, hash) {
        Some(mapped) => *mapped,
        None => *hash,
    }
}

impl GitRef {
    /// The name of the reference.
    pub fn get_name(&self) -> (name: &[u8])
        ensures
            name@ == self@.name,
    {
        match self {
            GitRef::Simple(simple) => simple.name.as_slice(),
            GitRef::Tag(tag) => tag.name.as_slice(),
        }
    }

    /// The 40 hexadecimal digits of the object that the reference points
    /// at.
    pub fn get_target(&self) -> (target: &[u8])
        ensures
            target@ == self@.hash,
    {
        match self {
            GitRef::Simple(simple) => simple.hash.as_slice(),
            GitRef::Tag(tag) => tag.hash.as_slice(),
        }
    }

    /// All references: the loose ones and, where there is a packed-refs
    /// file, the ones that it holds behind them, with only the first
    /// reference of each name kept. Without a packed-refs file the loose
    /// references are all there is.
    pub fn read_all(loose: Vec<GitRef>, packed: Option<&[u8]>) -> (all: Result<Vec<GitRef>, GitError>)
        ensures
            packed is None ==> all is Ok && all->Ok_0 == loose,
            packed is Some ==> match packed_refs(packed->Some_0@) {
                Err(error) => all is Err && all->Err_0 == error,
                Ok(found) => all is Ok && refs_view(all->Ok_0@) == first_of_each_name(
                    refs_view(loose@) + found,
                ),
            },
    {
        match packed {
            None => Ok(loose),
            Some(content) => {
                let mut found = match get_packed_refs(content) {
                    Ok(found) => found,
                    Err(error) => {
                        return Err(error);
                    },
                };
                let mut refs = loose;
                let ghost joined = refs_view(refs@) + refs_view(found@);
                refs.append(&mut found);
                assert(refs_view(refs@) =~= joined);
                Ok(dedup_by_name(refs))
            },
        }
    }

    /// What is to be done for a reference that points at `target_obj`, whose
    /// identifier in hexadecimal is `ref_target`. A commit is replaced by
    /// what `rewritten_commits` gives for it. A tree stays. An annotated tag
    /// of a commit becomes a new tag of what `rewritten_commits` gives for
    /// that commit, and the reference points at the new tag. An annotated
    /// tag of a tree stays. An annotated tag of a tag is not supported.
    pub fn rewrite_ref(
        target_obj: GitObject,
        ref_target: &[u8],
        rewritten_commits: &FxHashMap<ObjectHash, ObjectHash>,
    ) -> (update: Result<RefUpdate, GitError>)
        ensures
            match target_obj {
                GitObject::Commit(commit) => {
                    &&& update is Ok
                    &&& update->Ok_0.target == remapped(rewritten_commits@, commit.spec_hash().0)
                    &&& update->Ok_0.ref_target@ == hex_lower(update->Ok_0.target@)
                    &&& update->Ok_0.new_tag is None
                },
                GitObject::Tree(tree) => {
                    &&& update is Ok
                    &&& update->Ok_0.target == tree.spec_hash().0
                    &&& update->Ok_0.ref_target@ == ref_target@
                    &&& update->Ok_0.new_tag is None
                },
                GitObject::Tag(tag) => if tag@.kind == crate::hashing::kind_commit() {
                    &&& update is Ok
                    &&& update->Ok_0.new_tag is Some
                    &&& update->Ok_0.new_tag->Some_0@ == serialized_tag(
                        TagView {
                            object: hex_lower(
                                remapped(rewritten_commits@, oid_with(hex_decoded(tag@.object)))@,
                            ),
                            ..tag@
                        },
                    )
                    &&& update->Ok_0.target@ == object_id(kind_tag(), update->Ok_0.new_tag->Some_0@)
                    &&& update->Ok_0.ref_target@ == hex_lower(update->Ok_0.target@)
                } else if tag@.kind == crate::hashing::kind_tree() {
                    &&& update is Ok
                    &&& tag.spec_hash() is Some ==> update->Ok_0.target == tag.spec_hash()->Some_0
                    &&& tag.spec_hash() is None ==> update->Ok_0.target@ == object_id(
                        kind_tag(),
                        serialized_tag(tag@),
                    )
                    &&& update->Ok_0.ref_target@ == hex_lower(update->Ok_0.target@)
                    &&& update->Ok_0.new_tag is None
                } else {
                    update is Err && update->Err_0 == GitError::UnsupportedTagChain
                },
            },
    {
        match target_obj {
            GitObject::Commit(commit) => {
                let target = remap(rewritten_commits, &commit.hash().0);
                Ok(RefUpdate { ref_target: target.to_hex(), target, new_tag: None })
            },
            GitObject::Tree(tree) => {
                Ok(RefUpdate { ref_target: copy_of(ref_target), target: tree.hash().0, new_tag: None })
            },
            GitObject::Tag(mut target_tag) => match target_tag.target_type() {
                TagTargetType::Commit => {
                    let commit = target_tag.object();
                    proof {
                        lemma_same_bytes_same_hash(commit, oid_with(hex_decoded(target_tag@.object)));
                    }
                    let mapped = remap(rewritten_commits, &commit);
                    target_tag.set_object(mapped);
                    let payload = target_tag.to_bytes();
                    let word = crate::hashing::tag_kind();
                    let target = crate::hashing::calculate_hash(payload.as_slice(), word.as_slice());
                    Ok(RefUpdate { ref_target: target.to_hex(), target, new_tag: Some(payload) })
                },
                TagTargetType::Tree => {
                    let target = target_tag.current_hash();
                    Ok(RefUpdate { ref_target: target.to_hex(), target, new_tag: None })
                },
                TagTargetType::Tag => Err(GitError::UnsupportedTagChain),
            },
        }
    }
}

/// Whether one of the first `count` references has the name `name`.
fn name_taken(refs: &Vec<GitRef>, count: usize, name: &[u8]) -> (taken: bool)
    requires
        count <= refs@.len(),
    ensures
        taken == has_name(refs_view(refs@).take(count as int), name@),
{
    let mut i: usize = 0;
    while i < count
        invariant
            i <= count <= refs@.len(),
            forall|j: int| 0 <= j < i ==> (#[trigger] refs@[j])@.name != name@,
        decreases count - i,
    {
        if same_bytes(refs[i].get_name(), name) {
            assert(refs_view(refs@).take(count as int)[i as int].name == name@);
            return true;
        }
        i += 1;
    }
    assert forall|j: int| 0 <= j < count implies (#[trigger] refs_view(refs@).take(count as int)[j]).name
        != name@ by {
        assert(refs@[j]@.name != name@);
    }
    false
}

/// The references with, of each name, only the first that has it.
#[verifier::rlimit(30)]
pub fn dedup_by_name(refs: Vec<GitRef>) -> (kept: Vec<GitRef>)
    ensures
        refs_view(kept@) == first_of_each_name(refs_view(refs@)),
{
    let mut kept: Vec<GitRef> = Vec::new();
    let mut rest = refs;
    let ghost all = refs_view(refs@);
    let total = rest.len();
    let mut reversed: Vec<GitRef> = Vec::new();
    while rest.len() > 0
        invariant
            rest@.len() + reversed@.len() == total,
            total == all.len(),
            forall|j: int| 0 <= j < rest@.len() ==> (#[trigger] rest@[j])@ == all[j],
            forall|j: int|
                0 <= j < reversed@.len() ==> (#[trigger] reversed@[j])@ == all[total - 1 - j],
        decreases rest@.len(),
    {
        match rest.pop() {
            Some(last) => {
                reversed.push(last);
            },
            None => {},
        }
    }
    let mut done: usize = 0;
    proof {
        assert(all.take(0) =~= Seq::<RefView>::empty());
        assert(refs_view(kept@) =~= Seq::<RefView>::empty());
    }
    while reversed.len() > 0
        invariant
            done + reversed@.len() == total,
            total == all.len(),
            forall|j: int|
                0 <= j < reversed@.len() ==> (#[trigger] reversed@[j])@ == all[total - 1 - j],
            refs_view(kept@) == first_of_each_name(all.take(done as int)),
        decreases reversed@.len(),
    {
        let ghost before = refs_view(kept@);
        match reversed.pop() {
            Some(next) => {
                proof {
                    assert(all.take(done + 1).drop_last() =~= all.take(done as int));
                    assert(all.take(done + 1).last() == next@);
                    assert(refs_view(kept@).take(kept@.len() as int) =~= refs_view(kept@));
                }
                if !name_taken(&kept, kept.len(), next.get_name()) {
                    kept.push(next);
                    assert(refs_view(kept@) =~= before.push(next@));
                }
                done += 1;
            },
            None => {},
        }
    }
    proof {
        assert(all.take(total as int) =~= all);
    }
    kept
}

/// Reads the line of a packed-refs file that gives a reference.
fn read_entry(line: &[u8]) -> (entry: Option<(Vec<u8>, Vec<u8>)>)
    ensures
        match entry_of(line@) {
            None => entry is None,
            Some(view) => entry is Some && entry->Some_0.0@ == view.hash && entry->Some_0.1@
                == view.name,
        },
{
    if line.len() < 42 {
        return None;
    }
    if !is_hex_at(line, 0, 40) || line[40] != 32 {
        assert(line@.subrange(0, 40) == line@.take(40));
        return None;
    }
    assert(line@.subrange(0, 40) == line@.take(40));
    let hash = copy_of(slice_subrange(line, 0, 40));
    let name = copy_of(slice_subrange(line, 41, line.len()));
    assert(name@ == line@.skip(41));
    Some((hash, name))
}

/// The reference that is waiting for its target, where there is one.
pub open spec fn pending_view(pending: Option<(Vec<u8>, Vec<u8>)>) -> Option<RefView> {
    match pending {
        Some((hash, name)) => Some(RefView { hash: hash@, name: name@, peeled: None }),
        None => None,
    }
}

/// The references with `added` behind them, where there is one.
pub open spec fn with_added(refs: Seq<RefView>, added: Option<RefView>) -> Seq<RefView> {
    match added {
        Some(entry) => refs.push(entry),
        None => refs,
    }
}

/// Takes one line of a packed-refs file: puts the reference that is now
/// complete behind `result`, and gives the reference that may still get a
/// target.
#[verifier::rlimit(30)]
fn take_line(result: &mut Vec<GitRef>, pending: Option<(Vec<u8>, Vec<u8>)>, line: &[u8]) -> (waiting:
    Result<Option<(Vec<u8>, Vec<u8>)>, GitError>)
    ensures
        match line_step(pending_view(pending), line@) {
            Err(error) => waiting is Err && waiting->Err_0 == error,
            Ok((complete, next)) => waiting is Ok && pending_view(waiting->Ok_0) == next
                && refs_view(final(result)@) == with_added(refs_view(old(result)@), complete),
        },
{
    let ghost before = refs_view(result@);
    if line.len() > 0 && line[0] == 35 {
        match pending {
            Some((hash, name)) => {
                result.push(GitRef::Simple(SimpleRef { name, hash }));
                assert(refs_view(result@) =~= before.push(pending_view(pending)->Some_0));
            },
            None => {},
        }
        Ok(None)
    } else if line.len() > 0 && line[0] == 94 {
        match pending {
            Some((hash, name)) => {
                if line.len() != 41 {
                    return Err(GitError::MalformedRef);
                }
                assert(line@.subrange(1, 41) =~= line@.skip(1));
                if !is_hex_at(line, 1, 40) {
                    return Err(GitError::MalformedRef);
                }
                let obj_hash = copy_of(slice_subrange(line, 1, 41));
                result.push(GitRef::Tag(TagRef { name, hash, obj_hash }));
                assert(refs_view(result@) =~= before.push(
                    RefView { peeled: Some(line@.skip(1)), ..pending_view(pending)->Some_0 },
                ));
                Ok(None)
            },
            None => Err(GitError::MalformedRef),
        }
    } else {
        let entry = match read_entry(line) {
            Some(entry) => entry,
            None => {
                return Err(GitError::MalformedRef);
            },
        };
        match pending {
            Some((hash, name)) => {
                result.push(GitRef::Simple(SimpleRef { name, hash }));
                assert(refs_view(result@) =~= before.push(pending_view(pending)->Some_0));
            },
            None => {},
        }
        Ok(Some(entry))
    }
}

/// Reads the references that a packed-refs file holds.
#[verifier::rlimit(30)]
pub fn get_packed_refs(data: &[u8]) -> (read: Result<Vec<GitRef>, GitError>)
    ensures
        match packed_refs(data@) {
            Err(error) => read is Err && read->Err_0 == error,
            Ok(found) => read is Ok && refs_view(read->Ok_0@) == found,
        },
{
    let mut result: Vec<GitRef> = Vec::new();
    let mut pending: Option<(Vec<u8>, Vec<u8>)> = None;
    let total = data.len();
    let mut pos: usize = 0;
    proof {
        match packed_refs_from(data@, 0, None) {
            Ok(rest) => {
                assert(refs_view(result@) + rest =~= rest);
            },
            Err(_) => {},
        }
    }
    while pos < total
        invariant
            pos <= total,
            total == data@.len(),
            match packed_refs_from(data@, pos as int, pending_view(pending)) {
                Ok(rest) => packed_refs(data@) == Ok::<Seq<RefView>, GitError>(
                    refs_view(result@) + rest,
                ),
                Err(error) => packed_refs(data@) == Err::<Seq<RefView>, GitError>(error),
            },
        decreases total - pos,
    {
        let (end, next) = next_line(data, pos);
        let line = slice_subrange(data, pos, end);
        let ghost before = refs_view(result@);
        let ghost step = line_step(pending_view(pending), line@);
        pending = match take_line(&mut result, pending, line) {
            Ok(waiting) => waiting,
            Err(error) => {
                return Err(error);
            },
        };
        proof {
            let complete = step->Ok_0.0;
            match packed_refs_from(data@, next as int, pending_view(pending)) {
                Ok(rest) => {
                    match complete {
                        Some(entry) => {
                            assert(before + (seq![entry] + rest) =~= refs_view(result@) + rest);
                        },
                        None => {
                            assert(before + (Seq::<RefView>::empty() + rest) =~= refs_view(result@)
                                + rest);
                        },
                    }
                },
                Err(_) => {},
            }
        }
        pos = next;
    }
    let ghost before = refs_view(result@);
    let ghost waiting = pending_view(pending);
    match pending {
        Some((hash, name)) => {
            result.push(GitRef::Simple(SimpleRef { name, hash }));
            proof {
                assert(refs_view(result@) =~= before.push(waiting->Some_0));
                assert(before + (seq![waiting->Some_0] + Seq::<RefView>::empty()) =~= refs_view(
                    result@,
                ));
            }
        },
        None => {
            proof {
                assert(before + (Seq::<RefView>::empty() + Seq::<RefView>::empty()) =~= before);
            }
        },
    }
    Ok(result)
}

/// Whether `byte` is white space.
fn space(byte: u8) -> (white: bool)
    ensures
        white == is_space(byte),
{
    byte == 32 || (9 <= byte && byte <= 13)
}

/// Reads the content of the file of the loose reference `name`.
pub fn get_loose_ref(name: Vec<u8>, content: &[u8]) -> (read: Result<Option<GitRef>, GitError>)
    ensures
        match loose_ref(name@, content@) {
            Err(error) => read is Err && read->Err_0 == error,
            Ok(None) => read is Ok && read->Ok_0 is None,
            Ok(Some(view)) => read is Ok && read->Ok_0 is Some && read->Ok_0->Some_0@ == view,
        },
{
    let mut end = content.len();
    proof {
        assert(content@.take(end as int) =~= content@);
    }
    while end > 0 && space(content[end - 1])
        invariant
            end <= content@.len(),
            trimmed_end(content@.take(end as int)) == trimmed_end(content@),
        decreases end,
    {
        proof {
            assert(content@.take(end as int).drop_last() =~= content@.take(end - 1));
        }
        end -= 1;
    }
    let target = slice_subrange(content, 0, end);
    assert(target@ == content@.take(end as int));
    let word: [u8; 5] = [114, 101, 102, 58, 32];
    assert(word@ =~= word_ref());
    if has_prefix(target, word.as_slice()) {
        return Ok(None);
    }
    if target.len() != 40 {
        return Err(GitError::MalformedRef);
    }
    assert(target@.subrange(0, 40) =~= target@);
    if !is_hex_at(target, 0, 40) {
        return Err(GitError::MalformedRef);
    }
    Ok(Some(GitRef::Simple(SimpleRef { name, hash: copy_of(target) })))
}

} // verus!
