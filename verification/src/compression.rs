use crate::error::GitError;
use crate::packreader::PackObject;
use libdeflater::{DecompressionError, Decompressor};
use std::io::{Read, Write};
use vstd::prelude::*;
use vstd::slice::slice_subrange;

verus! {

/// `libdeflater::Decompressor`, a context for inflating.
#[verifier::external_type_specification]
#[verifier::external_body]
pub struct ExDecompressor(Decompressor);

/// `libdeflater::DecompressionError`, the failure to inflate.
#[verifier::external_type_specification]
#[verifier::external_body]
pub struct ExDecompressionError(DecompressionError);

/// What `Decompressor::deflate_decompress` makes of raw DEFLATE data and an
/// output buffer of `room` bytes: nothing where it reports an error, else the
/// bytes that it wrote and their number. What the buffer holds behind them is
/// no part of this.
pub uninterp spec fn raw_inflate(deflate_data: Seq<u8>, room: nat) -> Option<(Seq<u8>, nat)>;

/// What `flate2::read::DeflateDecoder` reads from raw DEFLATE data up to the
/// end of the stream: nothing where it reports an error, else the bytes.
pub uninterp spec fn raw_inflate_stream(deflate_data: Seq<u8>) -> Option<Seq<u8>>;

/// The zlib stream that `flate2::write::ZlibEncoder` writes for `data` at the
/// default compression level.
pub uninterp spec fn zlib_compressed(data: Seq<u8>) -> Seq<u8>;

/// `Decompressor::deflate_decompress` on a fresh buffer of `room` bytes. It
/// gives the buffer, which keeps its length, and the number of bytes written,
/// which is no more than `room`. The bytes written, the first of the buffer,
/// and their number are what [`raw_inflate`] names; nothing is said of the
/// bytes behind them.
#[verifier::external_body]
fn deflate_decompress(decompressor: &mut Decompressor, deflate_data: &[u8], room: usize) -> (decoded:
    Result<(Vec<u8>, usize), DecompressionError>)
    requires
        room <= isize::MAX,
    ensures
        decoded is Ok ==> raw_inflate(deflate_data@, room as nat) == Some(
            (decoded->Ok_0.0@.take(decoded->Ok_0.1 as int), decoded->Ok_0.1 as nat),
        ),
        decoded is Ok ==> decoded->Ok_0.0@.len() == room,
        decoded is Ok ==> decoded->Ok_0.1 <= room,
        decoded is Err ==> raw_inflate(deflate_data@, room as nat) is None,
{
    let mut out = vec![0u8; room];
    let written = decompressor.deflate_decompress(deflate_data, &mut out)?;
    Ok((out, written))
}

/// `Decompressor::new`: a context for inflating.
#[verifier::external_body]
fn new_decompressor() -> (decompressor: Decompressor) {
    Decompressor::new()
}

/// `flate2::read::DeflateDecoder` read to the end of the stream. The result
/// is the one that [`raw_inflate_stream`] names.
#[verifier::external_body]
fn deflate_read_to_end(deflate_data: &[u8]) -> (decoded: Option<Vec<u8>>)
    ensures
        decoded is Some ==> raw_inflate_stream(deflate_data@) == Some(decoded->Some_0@),
        decoded is None ==> raw_inflate_stream(deflate_data@) is None,
{
    let mut out = Vec::new();
    match flate2::read::DeflateDecoder::new(deflate_data).read_to_end(&mut out) {
        Ok(_) => Some(out),
        Err(_) => None,
    }
}

/// `flate2::write::ZlibEncoder` at the default level, fed `head` and then
/// `body`. The result is the stream that [`zlib_compressed`] names for the
/// two joined.
#[verifier::external_body]
fn zlib_encode(head: &[u8], body: &[u8]) -> (stream: Vec<u8>)
    ensures
        stream@ == zlib_compressed(head@ + body@),
{
    let mut encoder = flate2::write::ZlibEncoder::new(Vec::new(), flate2::Compression::default());
    encoder.write_all(head).unwrap();
    encoder.write_all(body).unwrap();
    encoder.finish().unwrap()
}

/// The inflated data of exactly `size` bytes, where the raw DEFLATE data
/// decodes to that many.
pub open spec fn inflated_exact(deflate_data: Seq<u8>, size: nat) -> Option<Seq<u8>> {
    match raw_inflate(deflate_data, size) {
        Some((bytes, written)) => if written == size {
            Some(bytes)
        } else {
            None
        },
        None => None,
    }
}

/// The data of a pack entry: what follows the two bytes of the zlib header at
/// `start`, inflated to `size` bytes. No entry is larger than a buffer can
/// be.
pub open spec fn unpacked(pack: Seq<u8>, start: int, size: nat) -> Result<Seq<u8>, GitError> {
    if start + 2 > pack.len() {
        Err(GitError::TruncatedPackOrIndex)
    } else if size > isize::MAX {
        Err(GitError::MalformedObject)
    } else {
        match inflated_exact(pack.skip(start + 2), size) {
            Some(bytes) => Ok(bytes),
            None => Err(GitError::MalformedObject),
        }
    }
}

/// The content of a loose object file, inflated: what follows the two bytes
/// of the zlib header.
pub open spec fn unpacked_file(file: Seq<u8>) -> Result<Seq<u8>, GitError> {
    if file.len() < 2 {
        Err(GitError::TruncatedPackOrIndex)
    } else {
        match raw_inflate_stream(file.skip(2)) {
            Some(bytes) => Ok(bytes),
            None => Err(GitError::MalformedObject),
        }
    }
}

/// `found` holds the bytes that `expected` names, or the same error.
pub open spec fn same_bytes(found: Result<Vec<u8>, GitError>, expected: Result<Seq<u8>, GitError>) -> bool {
    match expected {
        Ok(bytes) => found is Ok && found->Ok_0@ == bytes,
        Err(error) => found == Err::<Vec<u8>, GitError>(error),
    }
}

/// The decimal digits of `n`.
pub open spec fn decimal(n: nat) -> Seq<u8>
    decreases n,
{
    if n < 10 {
        seq![(48 + n) as u8]
    } else {
        decimal(n / 10).push((48 + n % 10) as u8)
    }
}

/// What precedes the payload of an object in a loose file and in the hash of
/// the object: the kind, a space, the payload's length in decimal and a zero
/// byte.
pub open spec fn preamble(kind: Seq<u8>, payload_len: nat) -> Seq<u8> {
    kind + seq![32u8] + decimal(payload_len) + seq![0u8]
}

/// The decimal digits of `n`.
pub fn decimal_digits(n: usize) -> (digits: Vec<u8>)
    ensures
        digits@ == decimal(n as nat),
{
    let mut reversed: Vec<u8> = Vec::new();
    let mut rest = n;
    reversed.push(48 + (rest % 10) as u8);
    rest = rest / 10;
    while rest > 0
        invariant
            reversed@.len() >= 1,
            rest == 0 ==> reversed@.reverse() == decimal(n as nat),
            rest > 0 ==> decimal(n as nat) == decimal(rest as nat) + reversed@.reverse(),
        decreases rest,
    {
        let ghost before = reversed@;
        let ghost old_rest = rest;
        reversed.push(48 + (rest % 10) as u8);
        rest = rest / 10;
        proof {
            let digit = (48 + old_rest % 10) as u8;
            assert(reversed@.reverse() =~= seq![digit] + before.reverse());
            if rest == 0 {
                assert(decimal(old_rest as nat) == seq![digit]);
            } else {
                assert(decimal(old_rest as nat) == decimal(rest as nat).push(digit));
                assert(decimal(rest as nat).push(digit) + before.reverse() =~= decimal(rest as nat)
                    + (seq![digit] + before.reverse()));
            }
        }
    }
    let mut digits: Vec<u8> = Vec::new();
    let mut i = reversed.len();
    while i > 0
        invariant
            i <= reversed@.len(),
            digits@.len() == reversed@.len() - i,
            forall|j: int| 0 <= j < digits@.len() ==> digits@[j] == reversed@[reversed@.len() - 1 - j],
        decreases i,
    {
        i -= 1;
        digits.push(reversed[i]);
    }
    assert(digits@ =~= reversed@.reverse());
    digits
}

/// The preamble of an object of the given kind and payload length.
pub fn preamble_bytes(kind: &[u8], payload_len: usize) -> (head: Vec<u8>)
    ensures
        head@ == preamble(kind@, payload_len as nat),
{
    let mut head: Vec<u8> = Vec::new();
    let mut i: usize = 0;
    while i < kind.len()
        invariant
            i <= kind@.len(),
            head@ == kind@.take(i as int),
        decreases kind@.len() - i,
    {
        head.push(kind[i]);
        assert(kind@.take(i + 1) =~= kind@.take(i as int).push(kind@[i as int]));
        i += 1;
    }
    assert(kind@.take(kind@.len() as int) =~= kind@);
    head.push(32u8);
    let mut digits = decimal_digits(payload_len);
    let ghost with_space = head@;
    head.append(&mut digits);
    head.push(0u8);
    assert(head@ =~= preamble(kind@, payload_len as nat));
    head
}

/// The contexts that inflating needs, kept for reuse.
pub struct Decompression {
    libdeflate_decompressor: Decompressor,
}

impl Default for Decompression {
    fn default() -> (fresh: Decompression) {
        Decompression { libdeflate_decompressor: new_decompressor() }
    }
}

impl Decompression {
    /// Inflates the data of the pack entry `pack_object`, which starts
    /// `additional_offset` bytes after the entry's header with a zlib header
    /// of two bytes, to exactly the size that the entry announces.
    pub fn unpack(&mut self, pack: &[u8], pack_object: &PackObject, additional_offset: usize) -> (bytes:
        Result<Vec<u8>, GitError>)
        ensures
            same_bytes(
                bytes,
                unpacked(
                    pack@,
                    pack_object.offset + pack_object.header_len + additional_offset,
                    pack_object.data_size as nat,
                ),
            ),
    {
        let total = pack.len();
        if pack_object.offset > total || pack_object.header_len > total - pack_object.offset {
            return Err(GitError::TruncatedPackOrIndex);
        }
        let after_header = pack_object.offset + pack_object.header_len;
        if additional_offset > total - after_header || total - after_header - additional_offset < 2 {
            return Err(GitError::TruncatedPackOrIndex);
        }
        if pack_object.data_size > isize::MAX as usize {
            return Err(GitError::MalformedObject);
        }
        let start = after_header + additional_offset + 2;
        let deflate_data = slice_subrange(pack, start, total);
        assert(deflate_data@ == pack@.skip(start as int));
        match deflate_decompress(&mut self.libdeflate_decompressor, deflate_data, pack_object.data_size) {
            Ok((buffer, written)) => {
                if written == pack_object.data_size {
                    assert(buffer@.take(written as int) =~= buffer@);
                    Ok(buffer)
                } else {
                    Err(GitError::MalformedObject)
                }
            },
            Err(_) => Err(GitError::MalformedObject),
        }
    }

    /// Inflates the content of a loose object file: the zlib header of two
    /// bytes is left out and the rest is read as raw DEFLATE data to the end
    /// of the stream.
    pub fn unpack_file(&mut self, file: &[u8]) -> (bytes: Result<Vec<u8>, GitError>)
        ensures
            same_bytes(bytes, unpacked_file(file@)),
    {
        if file.len() < 2 {
            return Err(GitError::TruncatedPackOrIndex);
        }
        let deflate_data = slice_subrange(file, 2, file.len());
        assert(deflate_data@ == file@.skip(2));
        match deflate_read_to_end(deflate_data) {
            Some(bytes) => Ok(bytes),
            None => Err(GitError::MalformedObject),
        }
    }
}

/// The content of the loose file of an object: the zlib stream of the
/// preamble followed by the payload.
pub fn pack_file(prefix: &[u8], data: &[u8]) -> (content: Vec<u8>)
    ensures
        content@ == zlib_compressed(preamble(prefix@, data@.len()) + data@),
{
    let head = preamble_bytes(prefix, data.len());
    zlib_encode(head.as_slice(), data)
}

} // verus!
