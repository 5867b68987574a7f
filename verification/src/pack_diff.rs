use crate::compression::{unpacked, Decompression};
use crate::error::GitError;
use crate::packreader::PackObject;
use vstd::prelude::*;
use vstd::slice::{slice_subrange, slice_to_vec};

verus! {

/// One instruction of a delta, as a plain value.
pub enum Instr {
    /// Take `len` bytes of the base, from `offset` on.
    Copy { offset: nat, len: nat },
    /// Take these bytes.
    Add { bytes: Seq<u8> },
}

impl Instr {
    /// How many bytes the instruction puts out.
    pub open spec fn len(self) -> nat {
        match self {
            Instr::Copy { offset, len } => len,
            Instr::Add { bytes } => bytes.len(),
        }
    }

    /// The instruction reads only inside a base of `base_len` bytes.
    pub open spec fn fits(self, base_len: nat) -> bool {
        match self {
            Instr::Copy { offset, len } => offset + len <= base_len,
            Instr::Add { bytes } => true,
        }
    }

    /// The bytes that the instruction puts out, given the base.
    pub open spec fn output(self, base: Seq<u8>) -> Seq<u8> {
        match self {
            Instr::Copy { offset, len } => base.subrange(offset as int, (offset + len) as int),
            Instr::Add { bytes } => bytes,
        }
    }

    /// The instruction that puts out `take` bytes of this one's output, from
    /// its byte `skip` on.
    pub open spec fn part(self, skip: nat, take: nat) -> Instr {
        match self {
            Instr::Copy { offset, len } => Instr::Copy { offset: offset + skip, len: take },
            Instr::Add { bytes } => Instr::Add { bytes: bytes.subrange(skip as int, (skip + take) as int) },
        }
    }
}

/// Every instruction reads only inside a base of `base_len` bytes.
pub open spec fn all_fit(instrs: Seq<Instr>, base_len: nat) -> bool {
    forall|i: int| 0 <= i < instrs.len() ==> (#[trigger] instrs[i]).fits(base_len)
}

/// How many bytes the instructions put out together.
pub open spec fn output_len(instrs: Seq<Instr>) -> nat
    decreases instrs.len(),
{
    if instrs.len() == 0 {
        0
    } else {
        instrs[0].len() + output_len(instrs.drop_first())
    }
}

/// The target that the instructions build from the base: their outputs, one
/// after the other.
pub open spec fn applied(instrs: Seq<Instr>, base: Seq<u8>) -> Seq<u8>
    decreases instrs.len(),
{
    if instrs.len() == 0 {
        Seq::empty()
    } else {
        instrs[0].output(base) + applied(instrs.drop_first(), base)
    }
}

/// The instructions that put out `take` bytes of what `instrs` put out, from
/// byte `skip` on, or as many of them as there are.
pub open spec fn window(instrs: Seq<Instr>, skip: nat, take: nat) -> Seq<Instr>
    decreases instrs.len(),
{
    if instrs.len() == 0 || take == 0 {
        Seq::empty()
    } else {
        let n = instrs[0].len();
        if skip >= n {
            window(instrs.drop_first(), (skip - n) as nat, take)
        } else {
            let piece = if n - skip <= take {
                (n - skip) as nat
            } else {
                take
            };
            seq![instrs[0].part(skip, piece)] + window(
                instrs.drop_first(),
                0,
                (take - piece) as nat,
            )
        }
    }
}

/// What one instruction of a delta becomes when the delta of its base is
/// folded in: an `Add` stays, a `Copy` becomes the window of `inner` that it
/// asks for.
pub open spec fn rebased(instr: Instr, inner: Seq<Instr>) -> Seq<Instr> {
    match instr {
        Instr::Copy { offset, len } => window(inner, offset, len),
        Instr::Add { bytes } => seq![instr],
    }
}

/// The delta against the base of `inner` that builds what `outer` builds from
/// the output of `inner`.
pub open spec fn composed(outer: Seq<Instr>, inner: Seq<Instr>) -> Seq<Instr>
    decreases outer.len(),
{
    if outer.len() == 0 {
        Seq::empty()
    } else {
        rebased(outer[0], inner) + composed(outer.drop_first(), inner)
    }
}

/// A chain of deltas folded into one, the delta of the target first and the
/// delta against the base that is no delta last.
pub open spec fn composed_chain(chain: Seq<Seq<Instr>>) -> Seq<Instr>
    decreases chain.len(),
{
    if chain.len() == 0 {
        Seq::empty()
    } else if chain.len() == 1 {
        chain[0]
    } else {
        composed(composed_chain(chain.drop_last()), chain.last())
    }
}

/// A chain of deltas applied one after the other, the last to the base, each
/// earlier one to what the next built.
pub open spec fn applied_chain(chain: Seq<Seq<Instr>>, base: Seq<u8>) -> Seq<u8>
    decreases chain.len(),
{
    if chain.len() == 0 {
        base
    } else {
        applied_chain(chain.drop_last(), applied(chain.last(), base))
    }
}

/// Every delta of the chain reads only inside what it is applied to.
pub open spec fn chain_fits(chain: Seq<Seq<Instr>>, base: Seq<u8>) -> bool
    decreases chain.len(),
{
    if chain.len() == 0 {
        true
    } else {
        all_fit(chain.last(), base.len()) && chain_fits(
            chain.drop_last(),
            applied(chain.last(), base),
        )
    }
}

/// The target is as long as the instructions say.
pub proof fn lemma_applied_len(instrs: Seq<Instr>, base: Seq<u8>)
    requires
        all_fit(instrs, base.len()),
    ensures
        applied(instrs, base).len() == output_len(instrs),
    decreases instrs.len(),
{
    if instrs.len() > 0 {
        assert(instrs[0].fits(base.len()));
        lemma_applied_len(instrs.drop_first(), base);
    }
}

/// A single instruction builds its own output.
pub proof fn lemma_applied_single(instr: Instr, base: Seq<u8>)
    ensures
        applied(seq![instr], base) == instr.output(base),
        output_len(seq![instr]) == instr.len(),
{
    let single = seq![instr];
    assert(single.drop_first() =~= Seq::<Instr>::empty());
    assert(applied(single.drop_first(), base) =~= Seq::<u8>::empty());
    assert(output_len(single.drop_first()) == 0);
    assert(applied(single, base) =~= instr.output(base));
}

/// Instructions put one after the other build their targets one after the
/// other.
pub proof fn lemma_applied_concat(first: Seq<Instr>, second: Seq<Instr>, base: Seq<u8>)
    ensures
        applied(first + second, base) == applied(first, base) + applied(second, base),
    decreases first.len(),
{
    if first.len() == 0 {
        assert(first + second =~= second);
        assert(applied(first, base) + applied(second, base) =~= applied(second, base));
    } else {
        assert((first + second).drop_first() =~= first.drop_first() + second);
        lemma_applied_concat(first.drop_first(), second, base);
        assert(applied(first + second, base) =~= applied(first, base) + applied(second, base));
    }
}

/// A window of instructions that fit the base fits the base, and builds the
/// bytes of the target that it was cut for.
#[verifier::rlimit(30)]
pub proof fn lemma_window_applied(instrs: Seq<Instr>, base: Seq<u8>, skip: nat, take: nat)
    requires
        all_fit(instrs, base.len()),
        skip + take <= output_len(instrs),
    ensures
        all_fit(window(instrs, skip, take), base.len()),
        applied(window(instrs, skip, take), base) == applied(instrs, base).subrange(
            skip as int,
            (skip + take) as int,
        ),
    decreases instrs.len(),
{
    lemma_applied_len(instrs, base);
    let target = applied(instrs, base);
    if instrs.len() == 0 || take == 0 {
        assert(applied(window(instrs, skip, take), base) =~= target.subrange(
            skip as int,
            (skip + take) as int,
        ));
    } else {
        let head = instrs[0];
        let rest = instrs.drop_first();
        let n = head.len();
        let out = head.output(base);
        assert(head.fits(base.len()));
        assert(out.len() == n);
        assert forall|i: int| 0 <= i < rest.len() implies (#[trigger] rest[i]).fits(
            base.len(),
        ) by {
            assert(rest[i] == instrs[i + 1]);
        }
        lemma_applied_len(rest, base);
        if skip >= n {
            lemma_window_applied(rest, base, (skip - n) as nat, take);
            assert(target.subrange(skip as int, (skip + take) as int) =~= applied(rest, base).subrange(
                skip - n,
                skip - n + take,
            ));
        } else {
            let piece = if n - skip <= take {
                (n - skip) as nat
            } else {
                take
            };
            let cut = head.part(skip, piece);
            let remaining = (take - piece) as nat;
            lemma_window_applied(rest, base, 0, remaining);
            let tail = window(rest, 0, remaining);
            assert(cut.fits(base.len()));
            assert(cut.output(base) =~= out.subrange(skip as int, (skip + piece) as int));
            assert forall|i: int| 0 <= i < window(instrs, skip, take).len() implies (
            #[trigger] window(instrs, skip, take)[i]).fits(base.len()) by {
                if i > 0 {
                    assert(window(instrs, skip, take)[i] == tail[i - 1]);
                }
            }
            assert((seq![cut] + tail).drop_first() =~= tail);
            assert(applied(window(instrs, skip, take), base) =~= cut.output(base) + applied(
                tail,
                base,
            ));
            assert(target.subrange(skip as int, (skip + take) as int) =~= out.subrange(
                skip as int,
                (skip + piece) as int,
            ) + applied(rest, base).subrange(0, remaining as int));
        }
    }
}

/// Folding the delta of the base into a delta changes nothing of what is
/// built: where `inner` reads only inside `base` and `outer` reads only
/// inside what `inner` builds, the composed delta reads only inside `base`
/// and builds from it what `outer` builds from the output of `inner`.
#[verifier::rlimit(30)]
pub proof fn lemma_composed_applied(outer: Seq<Instr>, inner: Seq<Instr>, base: Seq<u8>)
    requires
        all_fit(inner, base.len()),
        all_fit(outer, applied(inner, base).len()),
    ensures
        all_fit(composed(outer, inner), base.len()),
        applied(composed(outer, inner), base) == applied(outer, applied(inner, base)),
    decreases outer.len(),
{
    if outer.len() > 0 {
        let head = outer[0];
        let rest = outer.drop_first();
        let middle = applied(inner, base);
        assert(head.fits(middle.len()));
        assert forall|i: int| 0 <= i < rest.len() implies (#[trigger] rest[i]).fits(
            middle.len(),
        ) by {
            assert(rest[i] == outer[i + 1]);
        }
        lemma_composed_applied(rest, inner, base);
        lemma_applied_len(inner, base);
        let first = rebased(head, inner);
        match head {
            Instr::Copy { offset, len } => {
                lemma_window_applied(inner, base, offset, len);
            },
            Instr::Add { bytes } => {
                lemma_applied_single(head, base);
            },
        }
        assert(all_fit(first, base.len()));
        assert(applied(first, base) == head.output(middle));
        lemma_applied_concat(first, composed(rest, inner), base);
        assert forall|i: int| 0 <= i < composed(outer, inner).len() implies (
        #[trigger] composed(outer, inner)[i]).fits(base.len()) by {
            if i < first.len() {
                assert(composed(outer, inner)[i] == first[i]);
            } else {
                assert(composed(outer, inner)[i] == composed(rest, inner)[i - first.len()]);
            }
        }
    }
}

/// A chain of deltas folded into one builds from the base what the chain
/// builds step by step, and reads only inside the base.
pub proof fn lemma_chain_applied(chain: Seq<Seq<Instr>>, base: Seq<u8>)
    requires
        chain.len() > 0,
        chain_fits(chain, base),
    ensures
        all_fit(composed_chain(chain), base.len()),
        applied(composed_chain(chain), base) == applied_chain(chain, base),
    decreases chain.len(),
{
    if chain.len() == 1 {
        assert(chain.drop_last() =~= Seq::<Seq<Instr>>::empty());
        assert(applied_chain(chain.drop_last(), applied(chain.last(), base)) == applied(
            chain.last(),
            base,
        ));
    } else {
        let middle = applied(chain.last(), base);
        lemma_chain_applied(chain.drop_last(), middle);
        lemma_composed_applied(composed_chain(chain.drop_last()), chain.last(), base);
    }
}

/// A copy instruction: take `len` bytes of the base, from `offset` on.
#[derive(Debug)]
pub struct CopyInstruction {
    offset: usize,
    len: usize,
}

impl CopyInstruction {
    #[verifier::type_invariant]
    spec fn in_range(self) -> bool {
        self.offset + self.len <= usize::MAX
    }

    /// Where in the base the copy starts.
    pub closed spec fn spec_offset(&self) -> nat {
        self.offset as nat
    }

    /// How many bytes are copied.
    pub closed spec fn spec_len(&self) -> nat {
        self.len as nat
    }

    /// The copy of `len` bytes from `offset` on. One whose end lies beyond
    /// what can be addressed is refused.
    pub fn new(offset: usize, len: usize) -> (made: Result<CopyInstruction, GitError>)
        ensures
            offset + len <= usize::MAX ==> made is Ok && made->Ok_0.spec_offset() == offset
                && made->Ok_0.spec_len() == len,
            offset + len > usize::MAX ==> made == Err::<CopyInstruction, GitError>(
                GitError::MalformedObject,
            ),
    {
        if len > usize::MAX - offset {
            Err(GitError::MalformedObject)
        } else {
            Ok(CopyInstruction { offset, len })
        }
    }

    /// Where in the base the copy starts.
    pub fn offset(&self) -> (offset: usize)
        ensures
            offset == self.spec_offset(),
    {
        self.offset
    }

    /// How many bytes are copied.
    pub fn len(&self) -> (len: usize)
        ensures
            len == self.spec_len(),
            self.spec_offset() + len <= usize::MAX,
    {
        proof {
            use_type_invariant(self);
        }
        self.len
    }

    /// Reads the copy instruction that starts at `current_offset` of `data`
    /// and moves `current_offset` behind it.
    #[verifier::rlimit(30)]
    pub fn create(data: &[u8], current_offset: &mut usize) -> (made: Result<
        CopyInstruction,
        GitError,
    >)
        ensures
            made is Ok ==> copy_at(data@, *old(current_offset) as int) == Some(
                (
                    Instr::Copy {
                        offset: made->Ok_0.spec_offset(),
                        len: made->Ok_0.spec_len(),
                    },
                    *final(current_offset) as int,
                ),
            ),
            copy_at(data@, *old(current_offset) as int) is None ==> made == Err::<
                CopyInstruction,
                GitError,
            >(GitError::TruncatedPackOrIndex),
            copy_at(data@, *old(current_offset) as int) is Some && !copy_at(
                data@,
                *old(current_offset) as int,
            )->Some_0.0.fits(usize::MAX as nat) ==> made == Err::<CopyInstruction, GitError>(
                GitError::MalformedObject,
            ),
            copy_at(data@, *old(current_offset) as int) is Some && copy_at(
                data@,
                *old(current_offset) as int,
            )->Some_0.0.fits(usize::MAX as nat) ==> made is Ok,
            made is Err ==> *final(current_offset) == *old(current_offset),
    {
        let start = *current_offset;
        if start >= data.len() {
            return Err(GitError::TruncatedPackOrIndex);
        }
        let flags = data[start];
        let mut pos = start + 1;
        let mut fields: [u8; 7] = [0u8; 7];
        let mut bits = flags;
        let mut k: usize = 0;
        while k < 7
            invariant
                k <= 7,
                start == *old(current_offset),
                start < data@.len(),
                flags == data@[start as int],
                start < pos <= start + 1 + k,
                pos <= data@.len(),
                bits == flag_bits(flags, k as nat),
                flagged_bytes(data@, start + 1, flags, 0) == Some((Seq::<u8>::empty(), start + 1)),
                flagged_bytes(data@, start + 1, flags, k as nat) == Some(
                    (fields@.take(k as int), pos as int),
                ),
            decreases 7 - k,
        {
            let ghost before = fields@;
            if bits % 2 == 1 {
                if pos >= data.len() {
                    proof {
                        lemma_flagged_bytes_none(data@, start + 1, flags, (k + 1) as nat, 7);
                    }
                    return Err(GitError::TruncatedPackOrIndex);
                }
                fields[k] = data[pos];
                pos += 1;
            } else {
                fields[k] = 0;
            }
            bits = bits / 2;
            assert(fields@.take(k + 1) =~= before.take(k as int).push(fields@[k as int]));
            k += 1;
        }
        assert(fields@.take(7) =~= fields@);
        let offset: u64 = fields[0] as u64 + 256 * (fields[1] as u64) + 65536 * (fields[2] as u64)
            + 16777216 * (fields[3] as u64);
        let length: u64 = fields[4] as u64 + 256 * (fields[5] as u64) + 65536 * (fields[6] as u64);
        let length: u64 = if length == 0 {
            65536
        } else {
            length
        };
        if offset + length > usize::MAX as u64 {
            return Err(GitError::MalformedObject);
        }
        *current_offset = pos;
        Ok(CopyInstruction { offset: offset as usize, len: length as usize })
    }
}

/// The flags of a copy instruction with the lowest `k` of them shifted out.
pub open spec fn flag_bits(flags: u8, k: nat) -> u8
    decreases k,
{
    if k == 0 {
        flags
    } else {
        flag_bits(flags, (k - 1) as nat) / 2
    }
}

/// The first `count` fields of a copy instruction whose flags are `flags` and
/// whose field bytes start at `pos`: for each flag from the lowest up, the
/// next byte of `data` where the flag is set and zero where it is not. Also
/// where the bytes end. Nothing where `data` ends before.
pub open spec fn flagged_bytes(data: Seq<u8>, pos: int, flags: u8, count: nat) -> Option<
    (Seq<u8>, int),
>
    decreases count,
{
    if count == 0 {
        Some((Seq::empty(), pos))
    } else {
        match flagged_bytes(data, pos, flags, (count - 1) as nat) {
            None => None,
            Some((fields, end)) => if flag_bits(flags, (count - 1) as nat) % 2 == 1 {
                if 0 <= end < data.len() {
                    Some((fields.push(data[end]), end + 1))
                } else {
                    None
                }
            } else {
                Some((fields.push(0u8), end))
            },
        }
    }
}

/// Once the data has ended inside the fields, it has ended for every larger
/// number of fields.
pub proof fn lemma_flagged_bytes_none(data: Seq<u8>, pos: int, flags: u8, count: nat, more: nat)
    requires
        flagged_bytes(data, pos, flags, count) is None,
        count <= more,
    ensures
        flagged_bytes(data, pos, flags, more) is None,
    decreases more,
{
    if count < more {
        lemma_flagged_bytes_none(data, pos, flags, count, (more - 1) as nat);
    }
}

/// The copy instruction that starts at `pos` of `data`, and where it ends:
/// the flags, then for each of the four lowest flags that is set one byte of
/// the offset and for each of the next three one byte of the length, lowest
/// byte first. A length of zero stands for 65536. Nothing where `data` ends
/// before the instruction does.
pub open spec fn copy_at(data: Seq<u8>, pos: int) -> Option<(Instr, int)> {
    if !(0 <= pos < data.len()) {
        None
    } else {
        match flagged_bytes(data, pos + 1, data[pos], 7) {
            None => None,
            Some((fields, end)) => {
                let offset = fields[0] as nat + 256 * (fields[1] as nat) + 65536 * (
                fields[2] as nat) + 16777216 * (fields[3] as nat);
                let len = fields[4] as nat + 256 * (fields[5] as nat) + 65536 * (fields[6] as nat);
                Some(
                    (
                        Instr::Copy {
                            offset,
                            len: if len == 0 {
                                65536
                            } else {
                                len
                            },
                        },
                        end,
                    ),
                )
            },
        }
    }
}

/// An add instruction: take these bytes.
#[derive(Debug)]
pub struct AddInstruction {
    pub bytes: Vec<u8>,
}

/// The add instruction that starts at `pos` of `data`, and where it ends: a
/// count, then that many bytes. Nothing where `data` ends before the
/// instruction does.
pub open spec fn add_at(data: Seq<u8>, pos: int) -> Option<(Instr, int)> {
    if !(0 <= pos < data.len()) {
        None
    } else if pos + 1 + data[pos] > data.len() {
        None
    } else {
        Some((Instr::Add { bytes: data.subrange(pos + 1, pos + 1 + data[pos]) }, pos + 1 + data[pos]))
    }
}

impl AddInstruction {
    /// Reads the add instruction that starts at `current_offset` of `data`
    /// and moves `current_offset` behind it.
    #[verifier::rlimit(30)]
    pub fn create(data: &[u8], current_offset: &mut usize) -> (made: Result<
        AddInstruction,
        GitError,
    >)
        ensures
            made is Ok ==> add_at(data@, *old(current_offset) as int) == Some(
                (Instr::Add { bytes: made->Ok_0.bytes@ }, *final(current_offset) as int),
            ),
            add_at(data@, *old(current_offset) as int) is Some ==> made is Ok,
            add_at(data@, *old(current_offset) as int) is None ==> made == Err::<
                AddInstruction,
                GitError,
            >(GitError::TruncatedPackOrIndex),
            made is Err ==> *final(current_offset) == *old(current_offset),
    {
        let start = *current_offset;
        let total = data.len();
        if start >= total {
            return Err(GitError::TruncatedPackOrIndex);
        }
        let bytes_to_copy = data[start] as usize;
        if bytes_to_copy > total - start - 1 {
            return Err(GitError::TruncatedPackOrIndex);
        }
        let bytes = slice_to_vec(slice_subrange(data, start + 1, start + 1 + bytes_to_copy));
        *current_offset = start + 1 + bytes_to_copy;
        Ok(AddInstruction { bytes })
    }
}

/// One instruction of a delta.
#[derive(Debug)]
pub enum DiffInstruction {
    Copy(CopyInstruction),
    Add(AddInstruction),
}

impl View for DiffInstruction {
    type V = Instr;

    open spec fn view(&self) -> Instr {
        match self {
            DiffInstruction::Copy(copy) => Instr::Copy {
                offset: copy.spec_offset(),
                len: copy.spec_len(),
            },
            DiffInstruction::Add(add) => Instr::Add { bytes: add.bytes@ },
        }
    }
}

impl DiffInstruction {
    /// How many bytes the instruction puts out.
    pub fn len(&self) -> (len: usize)
        ensures
            len == self@.len(),
    {
        match self {
            DiffInstruction::Copy(copy) => copy.len(),
            DiffInstruction::Add(add) => add.bytes.len(),
        }
    }
}

/// The instructions as plain values.
pub open spec fn instrs_of(instructions: Seq<DiffInstruction>) -> Seq<Instr> {
    Seq::new(instructions.len(), |i: int| instructions[i]@)
}

/// The instruction that starts at `pos` of `data`, and where it ends: a copy
/// where the first byte is 128 or more, else an add.
pub open spec fn instr_at(data: Seq<u8>, pos: int) -> Option<(Instr, int)> {
    if 0 <= pos < data.len() && data[pos] >= 128 {
        copy_at(data, pos)
    } else {
        add_at(data, pos)
    }
}

/// The instructions that `data` holds from `pos` to its end, as far as they
/// can be read, and the failure that stops the reading, if one does:
/// `TruncatedPackOrIndex` where `data` ends inside an instruction,
/// `MalformedObject` where a copy ends beyond what can be addressed.
pub open spec fn instrs_from(data: Seq<u8>, pos: int) -> Result<Seq<Instr>, GitError>
    decreases data.len() - pos,
{
    if pos < 0 || pos >= data.len() {
        Ok(Seq::empty())
    } else {
        match instr_at(data, pos) {
            None => Err(GitError::TruncatedPackOrIndex),
            Some((instr, next)) => if !instr.fits(usize::MAX as nat) {
                Err(GitError::MalformedObject)
            } else if next <= pos || next > data.len() {
                Err(GitError::MalformedObject)
            } else {
                match instrs_from(data, next) {
                    Ok(rest) => Ok(seq![instr] + rest),
                    Err(error) => Err(error),
                }
            },
        }
    }
}

/// A variable-length number that starts at `pos` of `data`: seven bits in
/// each byte, the lowest seven first, a byte of 128 or more saying that
/// another follows. `sum` is what the earlier bytes add up to and `scale` the
/// weight of the next byte. Gives the number and where it ends, or nothing
/// where `data` ends before the number does.
pub open spec fn varint_from(data: Seq<u8>, pos: int, sum: nat, scale: nat) -> Option<(nat, int)>
    decreases data.len() - pos,
{
    if pos < 0 || pos >= data.len() {
        None
    } else {
        let total = sum + (data[pos] % 128) as nat * scale;
        if data[pos] < 128 {
            Some((total, pos + 1))
        } else {
            varint_from(data, pos + 1, total, scale * 128)
        }
    }
}

/// The variable-length number that starts at `pos` of `data`, and where it
/// ends.
pub open spec fn varint_at(data: Seq<u8>, pos: int) -> Option<(nat, int)> {
    varint_from(data, pos, 0, 1)
}

/// A variable-length number is at least what its earlier bytes add up to.
pub proof fn lemma_varint_from_grows(data: Seq<u8>, pos: int, sum: nat, scale: nat)
    requires
        varint_from(data, pos, sum, scale) is Some,
    ensures
        varint_from(data, pos, sum, scale)->Some_0.0 >= sum,
        varint_from(data, pos, sum, scale)->Some_0.1 > pos,
        varint_from(data, pos, sum, scale)->Some_0.1 <= data.len(),
    decreases data.len() - pos,
{
    if data[pos] >= 128 {
        let total = sum + (data[pos] % 128) as nat * scale;
        lemma_varint_from_grows(data, pos + 1, total, scale * 128);
    }
}

/// Reads the variable-length number that starts at `offset` of `delta_data`.
/// Gives the number and where it ends. Fails with `TruncatedPackOrIndex`
/// where the data ends before the number does, and with `MalformedObject`
/// where the number is beyond what can be addressed.
#[verifier::rlimit(30)]
pub fn read_varint(delta_data: &[u8], offset: usize) -> (read: Result<(usize, usize), GitError>)
    ensures
        match varint_at(delta_data@, offset as int) {
            None => read == Err::<(usize, usize), GitError>(GitError::TruncatedPackOrIndex),
            Some((value, end)) => if value <= usize::MAX {
                read is Ok && read->Ok_0.0 == value && read->Ok_0.1 == end
            } else {
                read == Err::<(usize, usize), GitError>(GitError::MalformedObject)
            },
        },
{
    let total = delta_data.len();
    let mut pos = offset;
    let mut sum: usize = 0;
    let mut scale: usize = 1;
    let mut scale_known = true;
    let mut beyond = false;
    let ghost mut true_sum: nat = 0;
    let ghost mut true_scale: nat = 1;
    loop
        invariant
            offset <= pos,
            total == delta_data@.len(),
            true_scale >= 1,
            varint_from(delta_data@, pos as int, true_sum, true_scale) == varint_at(
                delta_data@,
                offset as int,
            ),
            !beyond ==> sum == true_sum,
            beyond ==> true_sum > usize::MAX,
            scale_known ==> scale == true_scale,
            !scale_known ==> true_scale > usize::MAX,
        decreases total - pos,
    {
        if pos >= total {
            return Err(GitError::TruncatedPackOrIndex);
        }
        let byte = delta_data[pos];
        let low = (byte % 128) as usize;
        proof {
            assert(low as nat * true_scale >= 0) by (nonlinear_arith)
                requires
                    true_scale >= 1,
            ;
            if low >= 1 {
                assert(low as nat * true_scale >= true_scale) by (nonlinear_arith)
                    requires
                        low >= 1,
                        true_scale >= 1,
                ;
            } else {
                assert(low as nat * true_scale == 0) by (nonlinear_arith)
                    requires
                        low == 0,
                ;
            }
        }
        if low != 0 && !beyond {
            if !scale_known {
                beyond = true;
            } else if low > usize::MAX / scale {
                assert(low as nat * true_scale > usize::MAX) by (nonlinear_arith)
                    requires
                        low > usize::MAX / scale,
                        scale >= 1,
                        scale == true_scale,
                ;
                beyond = true;
            } else {
                assert(low * scale <= usize::MAX) by (nonlinear_arith)
                    requires
                        low <= usize::MAX / scale,
                        scale >= 1,
                ;
                let term = low * scale;
                if term > usize::MAX - sum {
                    beyond = true;
                } else {
                    sum = sum + term;
                }
            }
        }
        proof {
            true_sum = true_sum + low as nat * true_scale;
        }
        pos += 1;
        if byte < 128 {
            if beyond {
                return Err(GitError::MalformedObject);
            }
            return Ok((sum, pos));
        }
        if scale_known {
            if scale > usize::MAX / 128 {
                scale_known = false;
            } else {
                scale = scale * 128;
            }
        }
        proof {
            true_scale = true_scale * 128;
        }
    }
}

/// Reads the instructions that `diff_data` holds from `bytes_read` to its
/// end.
pub fn build_delta_instructions(diff_data: &[u8], bytes_read: usize) -> (built: Result<
    Vec<DiffInstruction>,
    GitError,
>)
    ensures
        match instrs_from(diff_data@, bytes_read as int) {
            Ok(instrs) => built is Ok && instrs_of(built->Ok_0@) == instrs,
            Err(error) => built == Err::<Vec<DiffInstruction>, GitError>(error),
        },
{
    let mut result: Vec<DiffInstruction> = Vec::new();
    let mut pos = bytes_read;
    let total = diff_data.len();
    while pos < total
        invariant
            total == diff_data@.len(),
            bytes_read <= pos,
            match instrs_from(diff_data@, pos as int) {
                Ok(rest) => instrs_from(diff_data@, bytes_read as int) == Ok::<
                    Seq<Instr>,
                    GitError,
                >(instrs_of(result@) + rest),
                Err(error) => instrs_from(diff_data@, bytes_read as int) == Err::<
                    Seq<Instr>,
                    GitError,
                >(error),
            },
        decreases total - pos,
    {
        let ghost before = instrs_of(result@);
        let ghost start = pos;
        let instruction = diff_data[pos];
        if instruction >= 128 {
            match CopyInstruction::create(diff_data, &mut pos) {
                Ok(copy) => {
                    proof {
                        lemma_flagged_bytes_end(diff_data@, start + 1, diff_data@[start as int], 7);
                    }
                    result.push(DiffInstruction::Copy(copy));
                },
                Err(error) => {
                    return Err(error);
                },
            }
        } else {
            match AddInstruction::create(diff_data, &mut pos) {
                Ok(add) => {
                    result.push(DiffInstruction::Add(add));
                },
                Err(error) => {
                    return Err(error);
                },
            }
        }
        proof {
            let instr = result@[result@.len() - 1]@;
            assert(instr_at(diff_data@, start as int) == Some((instr, pos as int)));
            assert(instrs_of(result@) =~= before.push(instr));
            match instrs_from(diff_data@, pos as int) {
                Ok(rest) => {
                    assert(before + (seq![instr] + rest) =~= instrs_of(result@) + rest);
                },
                Err(error) => {},
            }
        }
    }
    proof {
        assert(instrs_of(result@) + Seq::<Instr>::empty() =~= instrs_of(result@));
    }
    Ok(result)
}

/// The field bytes of a copy instruction end behind where they start, and
/// inside the data.
pub proof fn lemma_flagged_bytes_end(data: Seq<u8>, pos: int, flags: u8, count: nat)
    requires
        flagged_bytes(data, pos, flags, count) is Some,
        0 <= pos <= data.len(),
    ensures
        pos <= flagged_bytes(data, pos, flags, count)->Some_0.1 <= data.len(),
        flagged_bytes(data, pos, flags, count)->Some_0.0.len() == count,
    decreases count,
{
    if count > 0 {
        lemma_flagged_bytes_end(data, pos, flags, (count - 1) as nat);
    }
}

/// A delta: the instructions that build a target of `target_len` bytes from a
/// base, and how far before the delta's own entry the entry of its base
/// starts in the pack.
#[derive(Debug)]
pub struct PackDiff {
    pub target_len: usize,
    pub negative_offset: usize,
    pub instructions: Vec<DiffInstruction>,
}

/// What the data of a delta holds: the length of the base, the length of the
/// target and the instructions.
pub open spec fn delta_of(data: Seq<u8>) -> Result<(nat, Seq<Instr>), GitError> {
    match varint_at(data, 0) {
        None => Err(GitError::TruncatedPackOrIndex),
        Some((base_len, after_base)) => if base_len > usize::MAX {
            Err(GitError::MalformedObject)
        } else {
            match varint_at(data, after_base) {
                None => Err(GitError::TruncatedPackOrIndex),
                Some((target_len, after_target)) => if target_len > usize::MAX {
                    Err(GitError::MalformedObject)
                } else {
                    match instrs_from(data, after_target) {
                        Ok(instrs) => Ok((target_len, instrs)),
                        Err(error) => Err(error),
                    }
                },
            }
        },
    }
}

/// The base offset that starts at `pos` of `data`: seven bits in each byte,
/// the highest first, a byte of 128 or more saying that another follows, and
/// one added for each byte that follows. `sum` is what the earlier bytes
/// make. Gives the offset and where it ends, or nothing where `data` ends
/// before it does.
pub open spec fn base_offset_from(data: Seq<u8>, pos: int, sum: nat) -> Option<(nat, int)>
    decreases data.len() - pos,
{
    if pos < 0 || pos >= data.len() {
        None
    } else {
        let total = sum * 128 + (data[pos] % 128) as nat;
        if data[pos] < 128 {
            Some((total, pos + 1))
        } else {
            base_offset_from(data, pos + 1, total + 1)
        }
    }
}

/// The base offset of a delta entry whose header ends at `pos`, and how many
/// bytes it takes.
pub open spec fn base_offset_at(data: Seq<u8>, pos: int) -> Option<(nat, int)> {
    match base_offset_from(data, pos, 0) {
        Some((offset, end)) => Some((offset, end - pos)),
        None => None,
    }
}

/// Reads the base offset of the delta entry `pack_object`: how far before
/// the entry the entry of its base starts, and how many bytes the offset
/// takes. Fails with `TruncatedPackOrIndex` where the pack ends before the
/// offset does, and with `MalformedObject` where the offset is beyond what
/// can be addressed.
pub fn read_base_offset(pack: &[u8], pack_object: &PackObject) -> (read: Result<
    (usize, usize),
    GitError,
>)
    ensures
        match base_offset_at(pack@, pack_object.offset + pack_object.header_len) {
            None => read == Err::<(usize, usize), GitError>(GitError::TruncatedPackOrIndex),
            Some((offset, taken)) => if offset <= usize::MAX {
                read is Ok && read->Ok_0.0 == offset && read->Ok_0.1 == taken
            } else {
                read == Err::<(usize, usize), GitError>(GitError::MalformedObject)
            },
        },
{
    let total = pack.len();
    if pack_object.offset >= total || pack_object.header_len >= total - pack_object.offset {
        return Err(GitError::TruncatedPackOrIndex);
    }
    let start = pack_object.offset + pack_object.header_len;
    let mut pos = start;
    let mut sum: usize = 0;
    let mut beyond = false;
    let ghost mut true_sum: nat = 0;
    loop
        invariant
            start <= pos,
            start == pack_object.offset + pack_object.header_len,
            total == pack@.len(),
            base_offset_from(pack@, pos as int, true_sum) == base_offset_from(
                pack@,
                start as int,
                0,
            ),
            !beyond ==> sum == true_sum,
            beyond ==> true_sum > usize::MAX,
        decreases total - pos,
    {
        if pos >= total {
            return Err(GitError::TruncatedPackOrIndex);
        }
        let byte = pack[pos];
        let low = (byte % 128) as usize;
        if !beyond {
            if sum > (usize::MAX - low) / 128 {
                beyond = true;
            } else {
                sum = sum * 128 + low;
            }
        }
        proof {
            true_sum = true_sum * 128 + low as nat;
        }
        pos += 1;
        if byte < 128 {
            if beyond {
                return Err(GitError::MalformedObject);
            }
            return Ok((sum, pos - start));
        }
        if !beyond {
            if sum == usize::MAX {
                beyond = true;
            } else {
                sum = sum + 1;
            }
        }
        proof {
            true_sum = true_sum + 1;
        }
    }
}

/// What the offset-delta entry `entry` of `pack` holds: how far before the
/// entry its base starts, the length of the target and the instructions.
pub open spec fn diff_at(pack: Seq<u8>, entry: PackObject) -> Result<(nat, nat, Seq<Instr>), GitError> {
    match base_offset_at(pack, entry.offset + entry.header_len) {
        None => Err(GitError::TruncatedPackOrIndex),
        Some((negative_offset, taken)) => if negative_offset > usize::MAX {
            Err(GitError::MalformedObject)
        } else {
            match unpacked(
                pack,
                entry.offset + entry.header_len + taken,
                entry.data_size as nat,
            ) {
                Err(error) => Err(error),
                Ok(data) => match delta_of(data) {
                    Ok((target_len, instrs)) => Ok((negative_offset, target_len, instrs)),
                    Err(error) => Err(error),
                },
            }
        },
    }
}

impl PackDiff {
    /// The instructions as plain values.
    pub open spec fn instrs(&self) -> Seq<Instr> {
        instrs_of(self.instructions@)
    }

    /// Reads a delta from its inflated data: the length of the base, the
    /// length of the target, then the instructions. `negative_offset` is
    /// kept as it is.
    pub fn from_delta_bytes(data: &[u8], negative_offset: usize) -> (made: Result<
        PackDiff,
        GitError,
    >)
        ensures
            match delta_of(data@) {
                Ok((target_len, instrs)) => made is Ok && made->Ok_0.target_len == target_len
                    && made->Ok_0.negative_offset == negative_offset && made->Ok_0.instrs()
                    == instrs,
                Err(error) => made == Err::<PackDiff, GitError>(error),
            },
    {
        let (_base_len, bytes_read) = match read_varint(data, 0) {
            Ok(read) => read,
            Err(error) => {
                return Err(error);
            },
        };
        let (target_len, bytes_read) = match read_varint(data, bytes_read) {
            Ok(read) => read,
            Err(error) => {
                return Err(error);
            },
        };
        let instructions = match build_delta_instructions(data, bytes_read) {
            Ok(instructions) => instructions,
            Err(error) => {
                return Err(error);
            },
        };
        Ok(PackDiff { instructions, target_len, negative_offset })
    }

    /// Reads the delta of the offset-delta entry `pack_object`: the base
    /// offset behind the entry's header, then the inflated delta data.
    pub fn create(compression: &mut Decompression, pack: &[u8], pack_object: &PackObject) -> (made:
        Result<PackDiff, GitError>)
        ensures
            match diff_at(pack@, *pack_object) {
                Ok((negative_offset, target_len, instrs)) => made is Ok
                    && made->Ok_0.negative_offset == negative_offset && made->Ok_0.target_len
                    == target_len && made->Ok_0.instrs() == instrs,
                Err(error) => made == Err::<PackDiff, GitError>(error),
            },
    {
        let (base_offset, bytes_read) = match read_base_offset(pack, pack_object) {
            Ok(read) => read,
            Err(error) => {
                return Err(error);
            },
        };
        let diff_instruction_bytes = match compression.unpack(pack, pack_object, bytes_read) {
            Ok(bytes) => bytes,
            Err(error) => {
                return Err(error);
            },
        };
        PackDiff::from_delta_bytes(diff_instruction_bytes.as_slice(), base_offset)
    }

    /// Folds the delta `other` of this delta's base into this delta: the
    /// result builds from the base of `other` what this delta builds from
    /// the output of `other`.
    #[verifier::rlimit(30)]
    pub fn combine(self, other: &PackDiff) -> (folded: PackDiff)
        ensures
            folded.target_len == self.target_len,
            folded.negative_offset == other.negative_offset,
            folded.instrs() == composed(self.instrs(), other.instrs()),
    {
        let mut instructions: Vec<DiffInstruction> = Vec::new();
        let mut i: usize = 0;
        let count = self.instructions.len();
        proof {
            assert(self.instrs().skip(0) =~= self.instrs());
            assert(instrs_of(instructions@) + composed(self.instrs(), other.instrs()) =~= composed(
                self.instrs(),
                other.instrs(),
            ));
        }
        while i < count
            invariant
                i <= count,
                count == self.instructions@.len(),
                instrs_of(instructions@) + composed(self.instrs().skip(i as int), other.instrs())
                    == composed(self.instrs(), other.instrs()),
            decreases count - i,
        {
            let ghost before = instrs_of(instructions@);
            let ghost rest = self.instrs().skip(i as int);
            proof {
                assert(rest[0] == self.instructions@[i as int]@);
                assert(rest.drop_first() =~= self.instrs().skip(i + 1));
            }
            match &self.instructions[i] {
                DiffInstruction::Copy(copy) => {
                    let mut pieces = get_instructions_from_copy(copy, other);
                    let ghost added = instrs_of(pieces@);
                    instructions.append(&mut pieces);
                    proof {
                        assert(instrs_of(instructions@) =~= before + added);
                        assert((before + added) + composed(rest.drop_first(), other.instrs())
                            =~= before + (added + composed(rest.drop_first(), other.instrs())));
                    }
                },
                DiffInstruction::Add(add) => {
                    let bytes = slice_to_vec(add.bytes.as_slice());
                    instructions.push(DiffInstruction::Add(AddInstruction { bytes }));
                    proof {
                        let added = seq![rest[0]];
                        assert(instrs_of(instructions@) =~= before + added);
                        assert((before + added) + composed(rest.drop_first(), other.instrs())
                            =~= before + (added + composed(rest.drop_first(), other.instrs())));
                    }
                },
            }
            i += 1;
        }
        proof {
            assert(self.instrs().skip(count as int) =~= Seq::<Instr>::empty());
            assert(instrs_of(instructions@) + Seq::<Instr>::empty() =~= instrs_of(instructions@));
        }
        PackDiff { target_len: self.target_len, negative_offset: other.negative_offset, instructions }
    }

    /// The delta can be applied to a base of `base_len` bytes: every copy
    /// reads inside the base, and the instructions put out exactly
    /// `target_len` bytes.
    pub open spec fn applies_to(&self, base_len: nat) -> bool {
        all_fit(self.instrs(), base_len) && output_len(self.instrs()) == self.target_len
    }

    /// Builds the target from the base `bytes`. Fails with `MalformedObject`
    /// where a copy reads outside the base or the instructions do not put
    /// out exactly `target_len` bytes.
    #[verifier::rlimit(30)]
    pub fn apply(&self, bytes: &[u8]) -> (target: Result<Vec<u8>, GitError>)
        ensures
            self.applies_to(bytes@.len()) ==> target is Ok && target->Ok_0@ == applied(
                self.instrs(),
                bytes@,
            ),
            !self.applies_to(bytes@.len()) ==> target == Err::<Vec<u8>, GitError>(
                GitError::MalformedObject,
            ),
    {
        let mut target: Vec<u8> = Vec::new();
        let count = self.instructions.len();
        let base_len = bytes.len();
        let mut i: usize = 0;
        while i < count
            invariant
                i <= count,
                count == self.instructions@.len(),
                base_len == bytes@.len(),
                all_fit(self.instrs().take(i as int), base_len as nat),
                target@ == applied(self.instrs().take(i as int), bytes@),
                target@.len() == output_len(self.instrs().take(i as int)),
                target@.len() <= self.target_len,
            decreases count - i,
        {
            let ghost done = self.instrs().take(i as int);
            let ghost next = self.instrs().take(i + 1);
            let ghost instr = self.instructions@[i as int]@;
            proof {
                assert(next =~= done + seq![instr]);
                lemma_output_len_concat(done, seq![instr]);
                lemma_applied_concat(done, seq![instr], bytes@);
                lemma_applied_single(instr, bytes@);
            }
            let room = self.target_len - target.len();
            match &self.instructions[i] {
                DiffInstruction::Add(add) => {
                    if add.bytes.len() > room {
                        proof {
                            lemma_output_len_prefix(self.instrs(), i + 1);
                        }
                        return Err(GitError::MalformedObject);
                    }
                    let mut copy = slice_to_vec(add.bytes.as_slice());
                    target.append(&mut copy);
                },
                DiffInstruction::Copy(copy) => {
                    let len = copy.len();
                    let offset = copy.offset();
                    if offset + len > base_len {
                        assert(!self.instrs()[i as int].fits(base_len as nat));
                        return Err(GitError::MalformedObject);
                    }
                    if len > room {
                        proof {
                            lemma_output_len_prefix(self.instrs(), i + 1);
                        }
                        return Err(GitError::MalformedObject);
                    }
                    let mut copy = slice_to_vec(slice_subrange(bytes, offset, offset + len));
                    target.append(&mut copy);
                },
            }
            proof {
                assert forall|j: int| 0 <= j < next.len() implies (#[trigger] next[j]).fits(
                    base_len as nat,
                ) by {
                    if j < i {
                        assert(next[j] == done[j]);
                    }
                }
            }
            i += 1;
        }
        proof {
            assert(self.instrs().take(count as int) =~= self.instrs());
        }
        if target.len() != self.target_len {
            return Err(GitError::MalformedObject);
        }
        Ok(target)
    }
}

/// Instructions put one after the other put out as many bytes as both
/// together.
pub proof fn lemma_output_len_concat(first: Seq<Instr>, second: Seq<Instr>)
    ensures
        output_len(first + second) == output_len(first) + output_len(second),
    decreases first.len(),
{
    if first.len() == 0 {
        assert(first + second =~= second);
    } else {
        assert((first + second).drop_first() =~= first.drop_first() + second);
        lemma_output_len_concat(first.drop_first(), second);
    }
}

/// The first `count` instructions put out no more bytes than all of them.
pub proof fn lemma_output_len_prefix(instrs: Seq<Instr>, count: int)
    requires
        0 <= count <= instrs.len(),
    ensures
        output_len(instrs.take(count)) <= output_len(instrs),
{
    assert(instrs =~= instrs.take(count) + instrs.skip(count));
    lemma_output_len_concat(instrs.take(count), instrs.skip(count));
}

/// The instructions against the base of `source` that put out what
/// `copy_instruction` copies from the output of `source`.
#[verifier::rlimit(30)]
pub fn get_instructions_from_copy(copy_instruction: &CopyInstruction, source: &PackDiff) -> (pieces:
    Vec<DiffInstruction>)
    ensures
        instrs_of(pieces@) == window(
            source.instrs(),
            copy_instruction.spec_offset(),
            copy_instruction.spec_len(),
        ),
{
    let mut result: Vec<DiffInstruction> = Vec::new();
    let mut skip = copy_instruction.offset();
    let mut take = copy_instruction.len();
    let count = source.instructions.len();
    let mut i: usize = 0;
    proof {
        assert(source.instrs().skip(0) =~= source.instrs());
        assert(instrs_of(result@) + window(source.instrs(), skip as nat, take as nat) =~= window(
            source.instrs(),
            skip as nat,
            take as nat,
        ));
    }
    while i < count && take > 0
        invariant
            i <= count,
            count == source.instructions@.len(),
            instrs_of(result@) + window(source.instrs().skip(i as int), skip as nat, take as nat)
                == window(
                source.instrs(),
                copy_instruction.spec_offset(),
                copy_instruction.spec_len(),
            ),
        decreases count - i,
    {
        let ghost before = instrs_of(result@);
        let ghost rest = source.instrs().skip(i as int);
        proof {
            assert(rest[0] == source.instructions@[i as int]@);
            assert(rest.drop_first() =~= source.instrs().skip(i + 1));
        }
        let source_instruction = &source.instructions[i];
        let source_instruction_len = source_instruction.len();
        if skip >= source_instruction_len {
            skip = skip - source_instruction_len;
        } else {
            let bytes_to_take = if source_instruction_len - skip <= take {
                source_instruction_len - skip
            } else {
                take
            };
            let piece = match source_instruction {
                DiffInstruction::Copy(copy) => {
                    let from = copy.offset();
                    let whole = copy.len();
                    DiffInstruction::Copy(CopyInstruction { offset: from + skip, len: bytes_to_take })
                },
                DiffInstruction::Add(add) => DiffInstruction::Add(
                    AddInstruction {
                        bytes: slice_to_vec(
                            slice_subrange(add.bytes.as_slice(), skip, skip + bytes_to_take),
                        ),
                    },
                ),
            };
            assert(piece@ == rest[0].part(skip as nat, bytes_to_take as nat));
            result.push(piece);
            proof {
                let added = seq![rest[0].part(skip as nat, bytes_to_take as nat)];
                let tail = window(rest.drop_first(), 0, (take - bytes_to_take) as nat);
                assert(instrs_of(result@) =~= before + added);
                assert((before + added) + tail =~= before + (added + tail));
            }
            take = take - bytes_to_take;
            skip = 0;
        }
        i += 1;
    }
    proof {
        if i == count {
            assert(source.instrs().skip(count as int) =~= Seq::<Instr>::empty());
        }
        assert(instrs_of(result@) + Seq::<Instr>::empty() =~= instrs_of(result@));
    }
    result
}

} // verus!
