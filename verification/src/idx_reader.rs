use crate::object_hash::ObjectHash;
use vstd::prelude::*;
use vstd::slice::slice_subrange;

verus! {

pub const HEADER_LEN: usize = 8;

pub const FANOUT_LEN: usize = 4;

pub const HASHES_TABLE_START: usize = 1032;

/// One entry of a pack index: an object and where its entry starts in the
/// pack.
#[derive(Clone, Copy, Debug)]
pub struct PackOffset {
    pub hash: ObjectHash,
    pub offset: u64,
}

/// The ways in which reading a pack index can fail.
#[derive(Clone, Copy, Debug, PartialEq, Eq, Structural)]
pub enum IdxError {
    /// The index does not start with the version 2 magic and version.
    InvalidHeader,
    /// The index ends inside one of its tables.
    TruncatedIndex,
}

impl IdxError {
    /// A sentence that names the failure.
    pub fn message(&self) -> (text: &'static str)
        ensures
            text@ == (match *self {
                IdxError::InvalidHeader => "IDX file has invalid header."@,
                IdxError::TruncatedIndex => "IDX file is truncated."@,
            }),
    {
        match self {
            IdxError::InvalidHeader => "IDX file has invalid header.",
            IdxError::TruncatedIndex => "IDX file is truncated.",
        }
    }
}

/// The eight bytes that a version 2 pack index starts with.
pub open spec fn index_magic() -> Seq<u8> {
    seq![255u8, 116u8, 79u8, 99u8, 0u8, 0u8, 0u8, 2u8]
}

/// The number that four bytes of `bytes` spell from `at` on, highest byte
/// first.
pub open spec fn be32(bytes: Seq<u8>, at: int) -> nat {
    (bytes[at] as nat) * 16777216 + (bytes[at + 1] as nat) * 65536 + (bytes[at + 2] as nat) * 256
        + (bytes[at + 3] as nat)
}

/// The number that eight bytes of `bytes` spell from `at` on, highest byte
/// first.
pub open spec fn be64(bytes: Seq<u8>, at: int) -> nat {
    be32(bytes, at) * 4294967296 + be32(bytes, at + 4)
}

/// Checks that `buffer` starts with the magic and version of a version 2
/// pack index.
pub fn verify_header(buffer: &[u8]) -> (checked: Result<(), IdxError>)
    ensures
        buffer@.len() < 8 ==> checked == Err::<(), IdxError>(IdxError::TruncatedIndex),
        buffer@.len() >= 8 && buffer@.take(8) == index_magic() ==> checked == Ok::<(), IdxError>(()),
        buffer@.len() >= 8 && buffer@.take(8) != index_magic() ==> checked == Err::<(), IdxError>(
            IdxError::InvalidHeader,
        ),
{
    if buffer.len() < 8 {
        return Err(IdxError::TruncatedIndex);
    }
    if buffer[0] == 255 && buffer[1] == 116 && buffer[2] == 79 && buffer[3] == 99 && buffer[4] == 0
        && buffer[5] == 0 && buffer[6] == 0 && buffer[7] == 2 {
        assert(buffer@.take(8) =~= index_magic());
        return Ok(());
    }
    proof {
        let head = buffer@.take(8);
        let magic = index_magic();
        if head == magic {
            assert(head[0] == magic[0] && head[1] == magic[1] && head[2] == magic[2] && head[3]
                == magic[3] && head[4] == magic[4] && head[5] == magic[5] && head[6] == magic[6]
                && head[7] == magic[7]);
        }
    }
    Err(IdxError::InvalidHeader)
}

/// Whether the highest bit of the first byte is set.
pub fn msb_set(pack_offset: &[u8]) -> (set: bool)
    requires
        pack_offset@.len() >= 1,
    ensures
        set == (pack_offset@[0] >= 128),
{
    pack_offset[0] >= 128
}

/// The number of objects that the last slot of the fanout table gives: the
/// first four bytes of `bytes`, highest byte first.
pub fn get_file_count_from_fanout(bytes: &[u8]) -> (count: usize)
    requires
        bytes@.len() >= 4,
    ensures
        count == be32(bytes@, 0),
{
    let count: u32 = (bytes[3] as u32) + (bytes[2] as u32) * 256 + (bytes[1] as u32) * 65536 + (
    bytes[0] as u32) * 16777216;
    count as usize
}

/// Where the tables of an index of `count` objects start: the offsets of 4
/// bytes and the offsets of 8 bytes.
pub open spec fn offsets_start(count: nat) -> nat {
    1032 + 24 * count
}

pub open spec fn large_offsets_start(count: nat) -> nat {
    1032 + 28 * count
}

/// The identifier of object `k` of the index.
pub open spec fn indexed_hash(idx: Seq<u8>, k: int) -> Seq<u8> {
    idx.subrange(1032 + 20 * k, 1032 + 20 * k + 20)
}

/// Whether the offset of object `k` of an index of `count` objects stands in
/// the table of 8-byte offsets.
pub open spec fn is_large(idx: Seq<u8>, count: nat, k: int) -> bool {
    idx[offsets_start(count) + 4 * k] >= 128
}

/// The offset that the 4-byte slot of object `k` holds, its highest bit left
/// out.
pub open spec fn small_offset(idx: Seq<u8>, count: nat, k: int) -> nat {
    let at = offsets_start(count) + 4 * k;
    ((idx[at] % 128) as nat) * 16777216 + (idx[at + 1] as nat) * 65536 + (idx[at + 2] as nat) * 256
        + (idx[at + 3] as nat)
}

/// Of the first `k` objects, those whose offset stands in the 4-byte table,
/// in order, each with its offset.
pub open spec fn small_entries(idx: Seq<u8>, count: nat, k: nat) -> Seq<(Seq<u8>, nat)>
    decreases k,
{
    if k == 0 {
        Seq::empty()
    } else {
        let earlier = small_entries(idx, count, (k - 1) as nat);
        if is_large(idx, count, k - 1) {
            earlier
        } else {
            earlier.push((indexed_hash(idx, k - 1), small_offset(idx, count, k - 1)))
        }
    }
}

/// Of the first `k` objects, those whose offset stands in the 8-byte table,
/// in order.
pub open spec fn large_hashes(idx: Seq<u8>, count: nat, k: nat) -> Seq<Seq<u8>>
    decreases k,
{
    if k == 0 {
        Seq::empty()
    } else {
        let earlier = large_hashes(idx, count, (k - 1) as nat);
        if is_large(idx, count, k - 1) {
            earlier.push(indexed_hash(idx, k - 1))
        } else {
            earlier
        }
    }
}

/// The objects whose offset stands in the 8-byte table, each with the slot
/// of that table that its place among them selects.
pub open spec fn large_entries(idx: Seq<u8>, count: nat) -> Seq<(Seq<u8>, nat)> {
    let hashes = large_hashes(idx, count, count);
    Seq::new(hashes.len(), |j: int| (hashes[j], be64(idx, large_offsets_start(count) + 8 * j)))
}

/// What a version 2 pack index holds: the objects with an offset of 4 bytes
/// in the order of the index, then those with an offset of 8 bytes in the
/// order of the index. An index that is too short for its header and fanout
/// table or for one of its other tables is truncated; one whose first eight
/// bytes are not the magic and version is invalid. An index of no objects
/// holds nothing, whatever follows its fanout table.
pub open spec fn index_entries(idx: Seq<u8>) -> Result<Seq<(Seq<u8>, nat)>, IdxError> {
    if idx.len() < 1032 {
        Err(IdxError::TruncatedIndex)
    } else if idx.take(8) != index_magic() {
        Err(IdxError::InvalidHeader)
    } else {
        let count = be32(idx, 1028);
        if count == 0 {
            Ok(Seq::empty())
        } else if idx.len() < large_offsets_start(count) {
            Err(IdxError::TruncatedIndex)
        } else if idx.len() < large_offsets_start(count) + 8 * large_hashes(idx, count, count).len() {
            Err(IdxError::TruncatedIndex)
        } else {
            Ok(small_entries(idx, count, count) + large_entries(idx, count))
        }
    }
}

/// The entries as plain values: the bytes of each identifier and its offset.
pub open spec fn offsets_of(entries: Seq<PackOffset>) -> Seq<(Seq<u8>, nat)> {
    Seq::new(entries.len(), |i: int| (entries[i].hash@, entries[i].offset as nat))
}

/// There are no more large offsets than objects looked at.
pub proof fn lemma_large_hashes_len(idx: Seq<u8>, count: nat, k: nat)
    ensures
        large_hashes(idx, count, k).len() <= k,
        small_entries(idx, count, k).len() <= k,
    decreases k,
{
    if k > 0 {
        lemma_large_hashes_len(idx, count, (k - 1) as nat);
    }
}

/// Reads the identifier that starts at `at`.
fn read_hash(idx: &[u8], at: usize) -> (hash: ObjectHash)
    requires
        at + 20 <= idx@.len(),
    ensures
        hash@ == idx@.subrange(at as int, at + 20),
{
    let mut bytes = [0u8; 20];
    let mut i: usize = 0;
    let total = idx.len();
    while i < 20
        invariant
            i <= 20,
            at + 20 <= total,
            total == idx@.len(),
            forall|j: int| 0 <= j < i ==> bytes@[j] == idx@[at + j],
        decreases 20 - i,
    {
        bytes[i] = idx[at + i];
        i += 1;
    }
    assert(bytes@ =~= idx@.subrange(at as int, at + 20));
    ObjectHash { bytes }
}

/// Reads a version 2 pack index: each object with the offset of its entry in
/// the pack.
#[verifier::rlimit(30)]
pub fn get_pack_offsets(idx: &[u8]) -> (read: Result<Vec<PackOffset>, IdxError>)
    ensures
        match index_entries(idx@) {
            Ok(entries) => read is Ok && offsets_of(read->Ok_0@) == entries,
            Err(error) => read == Err::<Vec<PackOffset>, IdxError>(error),
        },
{
    let total = idx.len();
    if total < HASHES_TABLE_START {
        return Err(IdxError::TruncatedIndex);
    }
    match verify_header(idx) {
        Ok(()) => {},
        Err(error) => {
            return Err(error);
        },
    }
    let fanout = slice_subrange(idx, HEADER_LEN + 255 * FANOUT_LEN, total);
    let object_count = get_file_count_from_fanout(fanout);
    let mut result: Vec<PackOffset> = Vec::new();
    assert(object_count == be32(idx@, 1028));
    if object_count == 0 {
        assert(offsets_of(result@) =~= Seq::empty());
        return Ok(result);
    }
    let count = object_count as u64;
    let needed: u64 = 1032 + 28 * count;
    if (total as u64) < needed {
        return Err(IdxError::TruncatedIndex);
    }
    let offsets_at: usize = HASHES_TABLE_START + 24 * object_count;
    let large_at: usize = HASHES_TABLE_START + 28 * object_count;
    let mut large_offsets: Vec<ObjectHash> = Vec::new();
    let mut k: usize = 0;
    while k < object_count
        invariant
            k <= object_count,
            total == idx@.len(),
            object_count > 0,
            offsets_at == offsets_start(object_count as nat),
            large_at == large_offsets_start(object_count as nat),
            large_at <= total,
            offsets_of(result@) == small_entries(idx@, object_count as nat, k as nat),
            large_offsets@.len() == large_hashes(idx@, object_count as nat, k as nat).len(),
            forall|j: int|
                0 <= j < large_offsets@.len() ==> (#[trigger] large_offsets@[j])@ == large_hashes(
                    idx@,
                    object_count as nat,
                    k as nat,
                )[j],
        decreases object_count - k,
    {
        let hash = read_hash(idx, HASHES_TABLE_START + 20 * k);
        let at = offsets_at + 4 * k;
        let ghost before = offsets_of(result@);
        if msb_set(slice_subrange(idx, at, at + 4)) {
            large_offsets.push(hash);
        } else {
            let offset: u64 = (idx[at + 3] as u64) + (idx[at + 2] as u64) * 256 + (idx[at + 1] as u64)
                * 65536 + ((idx[at] % 128) as u64) * 16777216;
            result.push(PackOffset { hash, offset });
            assert(offsets_of(result@) =~= before.push((hash@, offset as nat)));
        }
        k += 1;
    }
    let large_count = large_offsets.len();
    proof {
        lemma_large_hashes_len(idx@, object_count as nat, object_count as nat);
    }
    if ((total - large_at) as u64) < 8 * (large_count as u64) {
        return Err(IdxError::TruncatedIndex);
    }
    let ghost smalls = offsets_of(result@);
    let ghost larges = large_entries(idx@, object_count as nat);
    let mut j: usize = 0;
    while j < large_count
        invariant
            j <= large_count,
            total == idx@.len(),
            large_count == large_offsets@.len(),
            large_at == large_offsets_start(object_count as nat),
            large_at + 8 * large_count <= total,
            larges == large_entries(idx@, object_count as nat),
            larges.len() == large_count,
            forall|i: int|
                0 <= i < large_offsets@.len() ==> (#[trigger] large_offsets@[i])@ == large_hashes(
                    idx@,
                    object_count as nat,
                    object_count as nat,
                )[i],
            offsets_of(result@) == smalls + larges.take(j as int),
        decreases large_count - j,
    {
        let at = large_at + 8 * j;
        let high: u64 = (idx[at + 3] as u64) + (idx[at + 2] as u64) * 256 + (idx[at + 1] as u64)
            * 65536 + (idx[at] as u64) * 16777216;
        let low: u64 = (idx[at + 7] as u64) + (idx[at + 6] as u64) * 256 + (idx[at + 5] as u64)
            * 65536 + (idx[at + 4] as u64) * 16777216;
        let offset: u64 = high * 4294967296 + low;
        let hash = large_offsets[j];
        let ghost before = offsets_of(result@);
        result.push(PackOffset { hash, offset });
        proof {
            assert(larges[j as int] == (hash@, offset as nat));
            assert(larges.take(j + 1) =~= larges.take(j as int).push(larges[j as int]));
            assert(offsets_of(result@) =~= before.push((hash@, offset as nat)));
            assert(smalls + larges.take(j + 1) =~= (smalls + larges.take(j as int)).push(
                larges[j as int],
            ));
        }
        j += 1;
    }
    proof {
        assert(larges.take(large_count as int) =~= larges);
    }
    Ok(result)
}

} // verus!
