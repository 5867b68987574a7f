use crate::compression::{unpacked, Decompression};
use crate::error::GitError;
use crate::idx_reader::{get_pack_offsets, index_entries, offsets_of, IdxError};
use crate::object_hash::{CommitHash, ObjectHash, TreeHash};
use crate::objs::commit::{parsed_commit, CommitBase};
use crate::objs::tag::{parsed_tag, Tag};
use crate::objs::tree::{parsed_tree, Tree};
use crate::objs::GitObject;
use crate::oid_map::{lemma_same_bytes_same_hash, oid_map_get, oid_map_insert, oid_map_new};
use crate::pack_diff::{
    all_fit, applied, composed_chain, delta_of, diff_at, output_len, read_varint, varint_at, Instr,
    PackDiff,
};
use rustc_hash::FxHashMap;
use vstd::prelude::*;
use vstd::slice::slice_subrange;

verus! {

/// The header of one entry of a pack: what kind of object it announces, where
/// the entry starts, how long the header is and how long the entry's data is
/// once inflated.
#[derive(Clone, Copy, Debug)]
pub struct PackObject {
    pub object_type: u8,
    pub offset: usize,
    pub header_len: usize,
    pub data_size: usize,
}

/// The header of the entry that starts at `offset` of `pack`: the kind in
/// bits 4 to 6 of the first byte, the size in its low four bits and, while a
/// byte is 128 or more, in the low seven bits of the next, lowest bits first.
/// `TruncatedPackOrIndex` where the pack ends before the header does,
/// `MalformedObject` where the size is beyond what can be addressed.
pub open spec fn header_at(pack: Seq<u8>, offset: int) -> Result<PackObject, GitError> {
    if offset < 0 || offset >= pack.len() || offset > usize::MAX {
        Err(GitError::TruncatedPackOrIndex)
    } else {
        let first = pack[offset];
        let kind = ((first / 16) % 8) as u8;
        let low = (first % 16) as nat;
        if first < 128 {
            Ok(
                PackObject {
                    object_type: kind,
                    offset: offset as usize,
                    header_len: 1,
                    data_size: low as usize,
                },
            )
        } else {
            match varint_at(pack, offset + 1) {
                None => Err(GitError::TruncatedPackOrIndex),
                Some((rest, end)) => if low + 16 * rest > usize::MAX || end - offset > usize::MAX {
                    Err(GitError::MalformedObject)
                } else {
                    Ok(
                        PackObject {
                            object_type: kind,
                            offset: offset as usize,
                            header_len: (end - offset) as usize,
                            data_size: (low + 16 * rest) as usize,
                        },
                    )
                },
            }
        }
    }
}

impl PackObject {
    /// Reads the header of the entry that starts at `offset` of `pack`.
    pub fn create(pack: &[u8], offset: usize) -> (made: Result<PackObject, GitError>)
        ensures
            made == header_at(pack@, offset as int),
    {
        if offset >= pack.len() {
            return Err(GitError::TruncatedPackOrIndex);
        }
        let first = pack[offset];
        let object_type = (first / 16) % 8;
        let low = (first % 16) as usize;
        if first < 128 {
            return Ok(PackObject { object_type, offset, header_len: 1, data_size: low });
        }
        proof {
            if varint_at(pack@, offset + 1) is Some {
                crate::pack_diff::lemma_varint_from_grows(pack@, offset + 1, 0, 1);
            }
        }
        match read_varint(pack, offset + 1) {
            Err(error) => Err(error),
            Ok((rest, end)) => {
                if rest > (usize::MAX - low) / 16 {
                    return Err(GitError::MalformedObject);
                }
                Ok(
                    PackObject {
                        object_type,
                        offset,
                        header_len: end - offset,
                        data_size: low + 16 * rest,
                    },
                )
            },
        }
    }
}

/// The deltas of the chain of offset deltas that starts with the entry
/// `entry` of `pack`, the delta of `entry` first; the length of the target
/// of `entry`; and the first entry that the chain reaches that is no offset
/// delta. Each delta must lie behind its base: an offset of zero or one that
/// leads before the start of the pack is malformed.
pub open spec fn ofs_chain(pack: Seq<u8>, entry: PackObject) -> Result<
    (Seq<Seq<Instr>>, nat, PackObject),
    GitError,
>
    decreases entry.offset,
{
    match diff_at(pack, entry) {
        Err(error) => Err(error),
        Ok((negative_offset, target_len, instrs)) => if negative_offset == 0 || negative_offset
            > entry.offset {
            Err(GitError::MalformedObject)
        } else {
            match header_at(pack, entry.offset - negative_offset) {
                Err(error) => Err(error),
                Ok(base) => if base.object_type != 6 {
                    Ok((seq![instrs], target_len, base))
                } else if base.offset >= entry.offset {
                    Err(GitError::MalformedObject)
                } else {
                    match ofs_chain(pack, base) {
                        Err(error) => Err(error),
                        Ok((chain, _, last)) => Ok((seq![instrs] + chain, target_len, last)),
                    }
                },
            }
        },
    }
}

/// What follows `base` in a chain of offset deltas: the deltas from `base`
/// on and the entry where the chain ends, or nothing more where `base` is no
/// offset delta.
pub open spec fn chain_rest(pack: Seq<u8>, base: PackObject) -> Result<
    (Seq<Seq<Instr>>, PackObject),
    GitError,
> {
    if base.object_type != 6 {
        Ok((Seq::empty(), base))
    } else {
        match ofs_chain(pack, base) {
            Err(error) => Err(error),
            Ok((chain, _, last)) => Ok((chain, last)),
        }
    }
}

/// A pack as plain values: its bytes and the offsets of its objects.
pub struct PackView {
    pub pack: Seq<u8>,
    pub objects: Map<ObjectHash, u64>,
}

/// The first pack from `from` on that holds `oid`, and the offset that it
/// holds for it.
pub open spec fn located_from(packs: Seq<PackView>, oid: ObjectHash, from: int) -> Option<
    (int, u64),
>
    decreases packs.len() - from,
{
    if from < 0 || from >= packs.len() {
        None
    } else if packs[from].objects.contains_key(oid) {
        Some((from, packs[from].objects[oid]))
    } else {
        located_from(packs, oid, from + 1)
    }
}

/// The identifier with these bytes.
pub open spec fn oid_with(bytes: Seq<u8>) -> ObjectHash {
    choose|hash: ObjectHash| hash@ == bytes
}

/// How far a delta is resolved whose last base is the entry `entry` of pack
/// `index`, `entry` being no offset delta: the payload of `entry` and the
/// entry that gives the object its kind. A reference delta is applied to
/// the object that it names, found in the packs with one step less to go;
/// with no step to go the base counts as missing.
pub open spec fn plain_bytes(packs: Seq<PackView>, index: int, entry: PackObject, fuel: nat) -> Result<
    (Seq<u8>, PackObject),
    GitError,
>
    decreases fuel, 0nat,
{
    let pack = packs[index].pack;
    let start = entry.offset + entry.header_len;
    if entry.object_type == 7 {
        if fuel == 0 {
            Err(GitError::MissingBase)
        } else if start + 20 > pack.len() {
            Err(GitError::TruncatedPackOrIndex)
        } else {
            match object_bytes(packs, oid_with(pack.subrange(start, start + 20)), (fuel - 1) as nat) {
                Err(error) => Err(error),
                Ok(None) => Err(GitError::MissingBase),
                Ok(Some((base, kind))) => match unpacked(pack, start + 20, entry.data_size as nat) {
                    Err(error) => Err(error),
                    Ok(delta) => match delta_of(delta) {
                        Err(error) => Err(error),
                        Ok((target_len, instrs)) => if all_fit(instrs, base.len()) && output_len(
                            instrs,
                        ) == target_len {
                            Ok((applied(instrs, base), kind))
                        } else {
                            Err(GitError::MalformedObject)
                        },
                    },
                },
            }
        }
    } else if 1 <= entry.object_type <= 4 {
        match unpacked(pack, start, entry.data_size as nat) {
            Err(error) => Err(error),
            Ok(bytes) => Ok((bytes, entry)),
        }
    } else {
        Err(GitError::UnknownObjectType)
    }
}

/// The payload of the entry `entry` of pack `index`, and the entry that
/// gives the object its kind: the last base that is no delta. A chain of
/// offset deltas is folded into one delta, which is applied to the payload
/// of the entry where the chain ends.
pub open spec fn entry_bytes(packs: Seq<PackView>, index: int, entry: PackObject, fuel: nat) -> Result<
    (Seq<u8>, PackObject),
    GitError,
>
    decreases fuel, 1nat,
{
    let pack = packs[index].pack;
    if entry.object_type == 6 {
        match ofs_chain(pack, entry) {
            Err(error) => Err(error),
            Ok((chain, target_len, last)) => match plain_bytes(packs, index, last, fuel) {
                Err(error) => Err(error),
                Ok((base, kind)) => if all_fit(composed_chain(chain), base.len()) && output_len(
                    composed_chain(chain),
                ) == target_len {
                    Ok((applied(composed_chain(chain), base), kind))
                } else {
                    Err(GitError::MalformedObject)
                },
            },
        }
    } else {
        plain_bytes(packs, index, entry, fuel)
    }
}

/// The payload of the object `oid` as the packs hold it, and the entry that
/// gives the object its kind; nothing where no pack holds `oid`. The first
/// pack that holds it counts.
pub open spec fn object_bytes(packs: Seq<PackView>, oid: ObjectHash, fuel: nat) -> Result<
    Option<(Seq<u8>, PackObject)>,
    GitError,
>
    decreases fuel, 2nat,
{
    match located_from(packs, oid, 0) {
        None => Ok(None),
        Some((index, offset)) => if offset > usize::MAX {
            Err(GitError::TruncatedPackOrIndex)
        } else {
            match header_at(packs[index].pack, offset as int) {
                Err(error) => Err(error),
                Ok(entry) => match entry_bytes(packs, index, entry, fuel) {
                    Err(error) => Err(error),
                    Ok(found) => Ok(Some(found)),
                },
            }
        },
    }
}

/// The offset that the last of the entries for `oid` gives.
pub open spec fn offset_of(entries: Seq<(Seq<u8>, nat)>, oid: Seq<u8>) -> Option<nat>
    decreases entries.len(),
{
    if entries.len() == 0 {
        None
    } else if entries.last().0 == oid {
        Some(entries.last().1)
    } else {
        offset_of(entries.drop_last(), oid)
    }
}

/// The map holds for each object the offset that the entries give.
pub open spec fn holds_entries(objects: Map<ObjectHash, u64>, entries: Seq<(Seq<u8>, nat)>) -> bool {
    forall|hash: ObjectHash|
        (#[trigger] objects.contains_key(hash)) == (offset_of(entries, hash@) is Some) && (
        objects.contains_key(hash) ==> objects[hash] as nat == offset_of(entries, hash@)->Some_0)
}

/// How many objects the indexes of the first `count` sources list
/// together, or the highest number there is where they list more.
pub open spec fn listed_objects(sources: Seq<(&[u8], &[u8])>, count: int) -> usize
    decreases count,
{
    if count <= 0 {
        0
    } else {
        let before = listed_objects(sources, count - 1);
        let more = index_entries(sources[count - 1].1@)->Ok_0.len();
        if before + more > usize::MAX {
            usize::MAX
        } else {
            (before + more) as usize
        }
    }
}

/// A pack with the offsets of its objects.
pub struct PackWithObjects<'a> {
    pub pack: &'a [u8],
    pub objects: FxHashMap<ObjectHash, u64>,
}

impl<'a> View for PackWithObjects<'a> {
    type V = PackView;

    open spec fn view(&self) -> PackView {
        PackView { pack: self.pack@, objects: self.objects@ }
    }
}

/// The packs of a repository, and how many reference deltas may follow one
/// another when an object is resolved.
pub struct PackReader<'a> {
    pub packs: Vec<PackWithObjects<'a>>,
    pub depth_limit: usize,
}

/// The packs as plain values.
pub open spec fn packs_view(packs: Seq<PackWithObjects>) -> Seq<PackView> {
    Seq::new(packs.len(), |i: int| packs[i]@)
}

impl<'a> PackReader<'a> {
    /// The packs as plain values.
    pub open spec fn view_packs(&self) -> Seq<PackView> {
        packs_view(self.packs@)
    }

    /// A reader of no packs.
    pub fn new() -> (reader: PackReader<'a>)
        ensures
            reader.packs@.len() == 0,
            reader.depth_limit == 0,
    {
        PackReader { packs: Vec::new(), depth_limit: 0 }
    }

    /// Adds a pack with the content of its index. The reader is left as it
    /// was where the index cannot be read.
    #[verifier::rlimit(30)]
    pub fn add_pack(&mut self, pack: &'a [u8], idx: &[u8]) -> (added: Result<(), IdxError>)
        ensures
            match index_entries(idx@) {
                Err(error) => added == Err::<(), IdxError>(error) && *final(self) == *old(self),
                Ok(entries) => {
                    &&& added is Ok
                    &&& final(self).packs@.len() == old(self).packs@.len() + 1
                    &&& final(self).packs@.take(old(self).packs@.len() as int) == old(self).packs@
                    &&& final(self).packs@.last().pack@ == pack@
                    &&& holds_entries(final(self).packs@.last().objects@, entries)
                    &&& final(self).depth_limit == (if old(self).depth_limit + entries.len()
                        > usize::MAX {
                        usize::MAX
                    } else {
                        (old(self).depth_limit + entries.len()) as usize
                    })
                },
            },
    {
        let offsets = match get_pack_offsets(idx) {
            Ok(offsets) => offsets,
            Err(error) => {
                return Err(error);
            },
        };
        let ghost entries = offsets_of(offsets@);
        let mut objects: FxHashMap<ObjectHash, u64> = oid_map_new();
        let mut i: usize = 0;
        proof {
            assert(entries.take(0) =~= Seq::<(Seq<u8>, nat)>::empty());
        }
        while i < offsets.len()
            invariant
                i <= offsets@.len(),
                entries == offsets_of(offsets@),
                holds_entries(objects@, entries.take(i as int)),
            decreases offsets@.len() - i,
        {
            let entry = offsets[i];
            let ghost before = objects@;
            oid_map_insert(&mut objects, entry.hash, entry.offset);
            proof {
                let done = entries.take(i as int);
                let next = entries.take(i + 1);
                assert(next.drop_last() =~= done);
                assert(next.last() == (entry.hash@, entry.offset as nat));
                assert forall|hash: ObjectHash|
                    (#[trigger] objects@.contains_key(hash)) == (offset_of(next, hash@) is Some) && (
                    objects@.contains_key(hash) ==> objects@[hash] as nat == offset_of(
                        next,
                        hash@,
                    )->Some_0) by {
                    if hash@ == entry.hash@ {
                        lemma_same_bytes_same_hash(hash, entry.hash);
                    } else {
                        assert(before.contains_key(hash) == (offset_of(done, hash@) is Some));
                    }
                }
            }
            i += 1;
        }
        proof {
            assert(entries.take(offsets@.len() as int) =~= entries);
        }
        let ghost old_packs = self.packs@;
        self.packs.push(PackWithObjects { pack, objects });
        self.depth_limit = self.depth_limit.saturating_add(offsets.len());
        proof {
            assert(self.packs@.take(old_packs.len() as int) =~= old_packs);
        }
        Ok(())
    }

    /// The reader of these packs, each given with the content of its index.
    /// Its depth limit is the number of objects that the indexes list.
    pub fn create(sources: &Vec<(&'a [u8], &'a [u8])>) -> (made: Result<PackReader<'a>, IdxError>)
        ensures
            made is Ok ==> made->Ok_0.depth_limit == listed_objects(sources@, sources@.len() as int),
            made is Ok ==> made->Ok_0.packs@.len() == sources@.len() && forall|i: int|
                0 <= i < sources@.len() ==> (#[trigger] made->Ok_0.packs@[i]).pack@ == sources@[i].0@
                    && index_entries(sources@[i].1@) is Ok && holds_entries(
                    made->Ok_0.packs@[i].objects@,
                    index_entries(sources@[i].1@)->Ok_0,
                ),
            made is Err ==> exists|i: int|
                0 <= i < sources@.len() && index_entries((#[trigger] sources@[i]).1@) == Err::<
                    Seq<(Seq<u8>, nat)>,
                    IdxError,
                >(made->Err_0),
            (forall|i: int| 0 <= i < sources@.len() ==> index_entries((#[trigger] sources@[i]).1@) is Ok)
                ==> made is Ok,
    {
        let mut reader = PackReader::new();
        let mut k: usize = 0;
        while k < sources.len()
            invariant
                k <= sources@.len(),
                reader.packs@.len() == k,
                reader.depth_limit == listed_objects(sources@, k as int),
                forall|i: int|
                    0 <= i < k ==> (#[trigger] reader.packs@[i]).pack@ == sources@[i].0@
                        && index_entries(sources@[i].1@) is Ok && holds_entries(
                        reader.packs@[i].objects@,
                        index_entries(sources@[i].1@)->Ok_0,
                    ),
            decreases sources@.len() - k,
        {
            let ghost before = reader.packs@;
            let (pack, idx) = sources[k];
            match reader.add_pack(pack, idx) {
                Ok(()) => {},
                Err(error) => {
                    return Err(error);
                },
            }
            proof {
                assert forall|i: int| 0 <= i < k + 1 implies (#[trigger] reader.packs@[i]).pack@
                    == sources@[i].0@ && index_entries(sources@[i].1@) is Ok && holds_entries(
                    reader.packs@[i].objects@,
                    index_entries(sources@[i].1@)->Ok_0,
                ) by {
                    if i < k {
                        assert(reader.packs@[i] == reader.packs@.take(k as int)[i]);
                        assert(reader.packs@[i] == before[i]);
                    }
                }
            }
            k += 1;
        }
        Ok(reader)
    }

    /// The payload of the object `object_hash` as the packs hold it, and the
    /// entry that gives the object its kind; nothing where no pack holds it.
    pub fn read_git_object_bytes(
        &self,
        decompression: &mut Decompression,
        object_hash: &ObjectHash,
    ) -> (read: Result<Option<(Vec<u8>, PackObject)>, GitError>)
        ensures
            same_found(read, object_bytes(self.view_packs(), *object_hash, self.depth_limit as nat)),
    {
        self.read_bytes(decompression, object_hash, self.depth_limit)
    }

    /// The payload of the object `object_hash` with `fuel` reference deltas
    /// to go.
    fn read_bytes(&self, decompression: &mut Decompression, object_hash: &ObjectHash, fuel: usize) -> (read:
        Result<Option<(Vec<u8>, PackObject)>, GitError>)
        ensures
            same_found(read, object_bytes(self.view_packs(), *object_hash, fuel as nat)),
        decreases fuel, 3nat,
    {
        match get_offset(self, object_hash) {
            None => Ok(None),
            Some((index, offset)) => {
                if offset > usize::MAX as u64 {
                    return Err(GitError::TruncatedPackOrIndex);
                }
                let pack = self.packs[index].pack;
                assert(self.view_packs()[index as int].pack == pack@);
                let entry = match PackObject::create(pack, offset as usize) {
                    Ok(entry) => entry,
                    Err(error) => {
                        return Err(error);
                    },
                };
                match self.read_entry(decompression, index, entry, fuel) {
                    Ok(found) => Ok(Some(found)),
                    Err(error) => Err(error),
                }
            },
        }
    }

    /// The payload of the entry `entry` of pack `index`.
    fn read_entry(
        &self,
        decompression: &mut Decompression,
        index: usize,
        entry: PackObject,
        fuel: usize,
    ) -> (read: Result<(Vec<u8>, PackObject), GitError>)
        requires
            index < self.packs@.len(),
        ensures
            same_entry(read, entry_bytes(self.view_packs(), index as int, entry, fuel as nat)),
        decreases fuel, 2nat,
    {
        let pack = self.packs[index].pack;
        assert(self.view_packs()[index as int].pack == pack@);
        if entry.object_type == 6 {
            restore_diff_object_bytes(self, decompression, index, entry, fuel)
        } else {
            self.read_plain(decompression, index, entry, fuel)
        }
    }

    /// The payload of the entry `entry` of pack `index`, which is no offset
    /// delta.
    #[verifier::rlimit(30)]
    fn read_plain(
        &self,
        decompression: &mut Decompression,
        index: usize,
        entry: PackObject,
        fuel: usize,
    ) -> (read: Result<(Vec<u8>, PackObject), GitError>)
        requires
            index < self.packs@.len(),
        ensures
            same_entry(read, plain_bytes(self.view_packs(), index as int, entry, fuel as nat)),
        decreases fuel, 0nat,
    {
        let pack = self.packs[index].pack;
        assert(self.view_packs()[index as int].pack == pack@);
        let total = pack.len();
        if entry.object_type == 7 {
            if fuel == 0 {
                return Err(GitError::MissingBase);
            }
            if entry.offset > total || entry.header_len > total - entry.offset || total
                - entry.offset - entry.header_len < 20 {
                return Err(GitError::TruncatedPackOrIndex);
            }
            let start = entry.offset + entry.header_len;
            let base_hash = match ObjectHash::try_from(slice_subrange(pack, start, start + 20)) {
                Ok(hash) => hash,
                Err(error) => {
                    assert(false);
                    return Err(error);
                },
            };
            proof {
                lemma_same_bytes_same_hash(base_hash, oid_with(pack@.subrange(start as int, start + 20)));
            }
            let (base, kind) = match self.read_bytes(decompression, &base_hash, fuel - 1) {
                Err(error) => {
                    return Err(error);
                },
                Ok(None) => {
                    return Err(GitError::MissingBase);
                },
                Ok(Some(found)) => found,
            };
            let delta = match decompression.unpack(pack, &entry, 20) {
                Ok(delta) => delta,
                Err(error) => {
                    return Err(error);
                },
            };
            let diff = match PackDiff::from_delta_bytes(delta.as_slice(), 0) {
                Ok(diff) => diff,
                Err(error) => {
                    return Err(error);
                },
            };
            match diff.apply(base.as_slice()) {
                Ok(bytes) => Ok((bytes, kind)),
                Err(error) => Err(error),
            }
        } else if 1 <= entry.object_type && entry.object_type <= 4 {
            match decompression.unpack(pack, &entry, 0) {
                Ok(bytes) => Ok((bytes, entry)),
                Err(error) => Err(error),
            }
        } else {
            Err(GitError::UnknownObjectType)
        }
    }

    /// The object `object_hash` as the packs hold it; nothing where no pack
    /// holds it. A blob is no object that this reader hands out: it fails
    /// with `UnknownObjectType`.
    pub fn read_git_object(&self, decompression: &mut Decompression, object_hash: ObjectHash) -> (read:
        Result<Option<GitObject>, GitError>)
        ensures
            match object_bytes(self.view_packs(), object_hash, self.depth_limit as nat) {
                Err(error) => read is Err && read->Err_0 == error,
                Ok(None) => read is Ok && read->Ok_0 is None,
                Ok(Some((bytes, kind))) => parsed_object(read, object_hash, bytes, kind.object_type),
            },
    {
        match self.read_git_object_bytes(decompression, &object_hash) {
            Err(error) => Err(error),
            Ok(None) => Ok(None),
            Ok(Some((bytes, kind))) => match object_from_bytes(object_hash, bytes, kind.object_type) {
                Ok(object) => Ok(Some(object)),
                Err(error) => Err(error),
            },
        }
    }
}

/// `read` is the object of kind `object_type` that `bytes` holds, or the
/// failure to read one.
pub open spec fn parsed_object(
    read: Result<Option<GitObject>, GitError>,
    object_hash: ObjectHash,
    bytes: Seq<u8>,
    object_type: u8,
) -> bool {
    if object_type == 1 {
        match parsed_commit(bytes, false) {
            None => read is Err && read->Err_0 == GitError::MalformedObject,
            Some(commit) => read is Ok && read->Ok_0 is Some && read->Ok_0->Some_0 is Commit
                && read->Ok_0->Some_0->Commit_0@ == commit && read->Ok_0->Some_0->Commit_0.spec_hash()
                == CommitHash(object_hash),
        }
    } else if object_type == 2 {
        match parsed_tree(bytes, false) {
            None => read is Err && read->Err_0 == GitError::MalformedObject,
            Some(tree) => read is Ok && read->Ok_0 is Some && read->Ok_0->Some_0 is Tree
                && read->Ok_0->Some_0->Tree_0@ == tree && read->Ok_0->Some_0->Tree_0.spec_hash()
                == TreeHash(object_hash),
        }
    } else if object_type == 4 {
        match parsed_tag(bytes, false) {
            None => read is Err && read->Err_0 == GitError::MalformedObject,
            Some(tag) => read is Ok && read->Ok_0 is Some && read->Ok_0->Some_0 is Tag
                && read->Ok_0->Some_0->Tag_0@ == tag && read->Ok_0->Some_0->Tag_0.spec_hash() == Some(
                object_hash,
            ),
        }
    } else {
        read is Err && read->Err_0 == GitError::UnknownObjectType
    }
}

/// Reads the object of kind `object_type` from its payload: 1 is a commit,
/// 2 a tree, 4 a tag.
pub fn object_from_bytes(object_hash: ObjectHash, bytes: Vec<u8>, object_type: u8) -> (read: Result<
    GitObject,
    GitError,
>)
    ensures
        parsed_object(
            match read {
                Ok(object) => Ok(Some(object)),
                Err(error) => Err(error),
            },
            object_hash,
            bytes@,
            object_type,
        ),
{
    if object_type == 1 {
        match CommitBase::create(CommitHash(object_hash), bytes, false) {
            Ok(commit) => Ok(GitObject::Commit(commit)),
            Err(error) => Err(error),
        }
    } else if object_type == 2 {
        match Tree::create(TreeHash(object_hash), bytes, false) {
            Ok(tree) => Ok(GitObject::Tree(tree)),
            Err(error) => Err(error),
        }
    } else if object_type == 4 {
        match Tag::create(Some(object_hash), bytes, false) {
            Ok(tag) => Ok(GitObject::Tag(tag)),
            Err(error) => Err(error),
        }
    } else {
        Err(GitError::UnknownObjectType)
    }
}

/// `read` holds what `expected` names.
pub open spec fn same_entry(
    read: Result<(Vec<u8>, PackObject), GitError>,
    expected: Result<(Seq<u8>, PackObject), GitError>,
) -> bool {
    match expected {
        Err(error) => read is Err && read->Err_0 == error,
        Ok((bytes, kind)) => read is Ok && read->Ok_0.0@ == bytes && read->Ok_0.1 == kind,
    }
}

/// `read` holds what `expected` names.
pub open spec fn same_found(
    read: Result<Option<(Vec<u8>, PackObject)>, GitError>,
    expected: Result<Option<(Seq<u8>, PackObject)>, GitError>,
) -> bool {
    match expected {
        Err(error) => read is Err && read->Err_0 == error,
        Ok(None) => read is Ok && read->Ok_0 is None,
        Ok(Some((bytes, kind))) => read is Ok && read->Ok_0 is Some && read->Ok_0->Some_0.0@ == bytes
            && read->Ok_0->Some_0.1 == kind,
    }
}

/// Folds the chain of offset deltas that starts with `pack_object` into one
/// delta. Gives the delta and the entry where the chain ends.
#[verifier::rlimit(30)]
pub fn collect_ofs_chain(compression: &mut Decompression, pack: &[u8], pack_object: PackObject) -> (folded:
    Result<(PackDiff, PackObject), GitError>)
    ensures
        match ofs_chain(pack@, pack_object) {
            Err(error) => folded is Err && folded->Err_0 == error,
            Ok((chain, target_len, last)) => folded is Ok && folded->Ok_0.0.instrs()
                == composed_chain(chain) && folded->Ok_0.0.target_len == target_len && folded->Ok_0.1
                == last,
        },
{
    let mut pack_diff = match PackDiff::create(compression, pack, &pack_object) {
        Ok(diff) => diff,
        Err(error) => {
            return Err(error);
        },
    };
    if pack_diff.negative_offset == 0 || pack_diff.negative_offset > pack_object.offset {
        return Err(GitError::MalformedObject);
    }
    let mut base = match PackObject::create(pack, pack_object.offset - pack_diff.negative_offset) {
        Ok(base) => base,
        Err(error) => {
            return Err(error);
        },
    };
    let ghost mut prefix: Seq<Seq<Instr>> = seq![pack_diff.instrs()];
    let ghost target_len = pack_diff.target_len;
    proof {
        match chain_rest(pack@, base) {
            Ok((rest, last)) => {
                assert(prefix + rest =~= seq![pack_diff.instrs()] + rest);
                if base.object_type != 6 {
                    assert(prefix + rest =~= prefix);
                }
            },
            Err(error) => {},
        }
    }
    while base.object_type == 6
        invariant
            prefix.len() >= 1,
            pack_diff.instrs() == composed_chain(prefix),
            pack_diff.target_len == target_len,
            base.offset < pack_object.offset,
            match chain_rest(pack@, base) {
                Ok((rest, last)) => ofs_chain(pack@, pack_object) == Ok::<
                    (Seq<Seq<Instr>>, nat, PackObject),
                    GitError,
                >((prefix + rest, target_len as nat, last)),
                Err(error) => ofs_chain(pack@, pack_object) == Err::<
                    (Seq<Seq<Instr>>, nat, PackObject),
                    GitError,
                >(error),
            },
        decreases base.offset,
    {
        let target_diff = match PackDiff::create(compression, pack, &base) {
            Ok(diff) => diff,
            Err(error) => {
                return Err(error);
            },
        };
        if target_diff.negative_offset == 0 || target_diff.negative_offset > base.offset {
            return Err(GitError::MalformedObject);
        }
        let next = match PackObject::create(pack, base.offset - target_diff.negative_offset) {
            Ok(next) => next,
            Err(error) => {
                return Err(error);
            },
        };
        let ghost inner = target_diff.instrs();
        pack_diff = pack_diff.combine(&target_diff);
        proof {
            let before = prefix;
            prefix = prefix.push(inner);
            assert(prefix.drop_last() =~= before);
            match chain_rest(pack@, next) {
                Ok((rest, last)) => {
                    assert(before + (seq![inner] + rest) =~= prefix + rest);
                },
                Err(error) => {},
            }
        }
        base = next;
    }
    proof {
        assert(prefix + Seq::<Seq<Instr>>::empty() =~= prefix);
    }
    Ok((pack_diff, base))
}

/// The payload of the offset-delta entry `pack_object` of pack `index`: the
/// chain of offset deltas folded into one delta, applied to the payload of
/// the entry where the chain ends.
pub fn restore_diff_object_bytes(
    reader: &PackReader<'_>,
    compression: &mut Decompression,
    index: usize,
    pack_object: PackObject,
    fuel: usize,
) -> (restored: Result<(Vec<u8>, PackObject), GitError>)
    requires
        index < reader.packs@.len(),
        pack_object.object_type == 6,
    ensures
        same_entry(
            restored,
            entry_bytes(reader.view_packs(), index as int, pack_object, fuel as nat),
        ),
    decreases fuel, 1nat,
{
    let pack = reader.packs[index].pack;
    assert(reader.view_packs()[index as int].pack == pack@);
    let (pack_diff, last) = match collect_ofs_chain(compression, pack, pack_object) {
        Ok(folded) => folded,
        Err(error) => {
            return Err(error);
        },
    };
    let (content, kind) = match reader.read_plain(compression, index, last, fuel) {
        Ok(found) => found,
        Err(error) => {
            return Err(error);
        },
    };
    match pack_diff.apply(content.as_slice()) {
        Ok(bytes) => Ok((bytes, kind)),
        Err(error) => Err(error),
    }
}

/// The first pack that holds `object_hash`, and the offset that it holds for
/// it.
pub fn get_offset(pack_reader: &PackReader<'_>, object_hash: &ObjectHash) -> (found: Option<
    (usize, u64),
>)
    ensures
        match located_from(pack_reader.view_packs(), *object_hash, 0) {
            None => found is None,
            Some((index, offset)) => found is Some && found->Some_0.0 == index && found->Some_0.1
                == offset && 0 <= index < pack_reader.packs@.len(),
        },
{
    let mut i: usize = 0;
    while i < pack_reader.packs.len()
        invariant
            i <= pack_reader.packs@.len(),
            located_from(pack_reader.view_packs(), *object_hash, i as int) == located_from(
                pack_reader.view_packs(),
                *object_hash,
                0,
            ),
        decreases pack_reader.packs@.len() - i,
    {
        assert(pack_reader.view_packs()[i as int] == pack_reader.packs@[i as int]@);
        match oid_map_get(&pack_reader.packs[i].objects, object_hash) {
            Some(offset) => {
                return Some((i, *offset));
            },
            None => {},
        }
        i += 1;
    }
    None
}

} // verus!
