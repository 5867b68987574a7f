use crate::compression::{preamble, preamble_bytes};
use crate::object_hash::ObjectHash;
use crate::objs::commit::{serialized, CommitEditable, WriteBytes};
use crate::objs::tag::Tag;
use crate::objs::tree::{tree_payload, Tree};
use rs_sha1::{HasherContext, Sha1Hasher};
use std::hash::Hasher;
use vstd::prelude::*;

verus! {

/// The SHA-1 digest of `data`, as `rs_sha1::Sha1Hasher` computes it: 20
/// bytes.
pub uninterp spec fn sha1(data: Seq<u8>) -> Seq<u8>;

/// `rs_sha1::Sha1Hasher` fed `head` and then `body`: the digest of the two
/// joined.
#[verifier::external_body]
fn sha1_digest(head: &[u8], body: &[u8]) -> (digest: [u8; 20])
    ensures
        digest@ == sha1(head@ + body@),
{
    let mut hasher = Sha1Hasher::default();
    hasher.write(head);
    hasher.write(body);
    HasherContext::finish(&mut hasher).into()
}

/// The identifier of the object of kind `kind` with payload `payload`: the
/// SHA-1 digest of the preamble followed by the payload.
pub open spec fn object_id(kind: Seq<u8>, payload: Seq<u8>) -> Seq<u8> {
    sha1(preamble(kind, payload.len()) + payload)
}

/// `"commit"`
pub open spec fn kind_commit() -> Seq<u8> {
    seq![99u8, 111u8, 109u8, 109u8, 105u8, 116u8]
}

/// `"tree"`
pub open spec fn kind_tree() -> Seq<u8> {
    seq![116u8, 114u8, 101u8, 101u8]
}

/// `"tag"`
pub open spec fn kind_tag() -> Seq<u8> {
    seq![116u8, 97u8, 103u8]
}

/// `"commit"`
pub fn commit_kind() -> (word: Vec<u8>)
    ensures
        word@ == kind_commit(),
{
    let word: [u8; 6] = [99, 111, 109, 109, 105, 116];
    let word = vstd::slice::slice_to_vec(word.as_slice());
    assert(word@ =~= kind_commit());
    word
}

/// `"tree"`
pub fn tree_kind() -> (word: Vec<u8>)
    ensures
        word@ == kind_tree(),
{
    let word: [u8; 4] = [116, 114, 101, 101];
    let word = vstd::slice::slice_to_vec(word.as_slice());
    assert(word@ =~= kind_tree());
    word
}

/// `"tag"`
pub fn tag_kind() -> (word: Vec<u8>)
    ensures
        word@ == kind_tag(),
{
    let word: [u8; 3] = [116, 97, 103];
    let word = vstd::slice::slice_to_vec(word.as_slice());
    assert(word@ =~= kind_tag());
    word
}

/// The identifier of the object of kind `prefix` with payload `data`.
pub fn calculate_hash(data: &[u8], prefix: &[u8]) -> (hash: ObjectHash)
    ensures
        hash@ == object_id(prefix@, data@),
{
    let head = preamble_bytes(prefix, data.len());
    ObjectHash::new(sha1_digest(head.as_slice(), data))
}

/// An object that is ready to be written: its identifier, its kind and its
/// payload.
#[derive(Debug)]
pub struct WriteObject {
    hash: ObjectHash,
    prefix: Vec<u8>,
    bytes: WriteBytes,
}

impl WriteObject {
    /// The kind of the object.
    pub closed spec fn kind(&self) -> Seq<u8> {
        self.prefix@
    }

    /// The payload of the object.
    pub closed spec fn payload(&self) -> Seq<u8> {
        self.bytes@
    }

    /// The identifier of the object.
    pub closed spec fn spec_hash(&self) -> ObjectHash {
        self.hash
    }

    /// The identifier of the object.
    pub fn hash(&self) -> (hash: &ObjectHash)
        ensures
            *hash == self.spec_hash(),
    {
        &self.hash
    }

    /// The kind of the object.
    pub fn prefix(&self) -> (prefix: &[u8])
        ensures
            prefix@ == self.kind(),
    {
        self.prefix.as_slice()
    }

    /// The payload of the object.
    pub fn bytes(&self) -> (payload: &[u8])
        ensures
            payload@ == self.payload(),
    {
        self.bytes.payload()
    }

    /// The commit as an object to be written: its payload is the payload of
    /// its fields, and its identifier the one of that payload.
    pub fn from_commit(value: CommitEditable) -> (object: WriteObject)
        ensures
            object.kind() == kind_commit(),
            object.payload() == serialized(value@),
            object.spec_hash()@ == object_id(kind_commit(), serialized(value@)),
    {
        let written = value.to_bytes();
        let prefix = commit_kind();
        let hash = calculate_hash(written.payload(), prefix.as_slice());
        WriteObject { hash, prefix, bytes: written }
    }

    /// The tag as an object to be written, under the identifier that the tag
    /// holds.
    pub fn from_tag(value: Tag) -> (object: WriteObject)
        requires
            value.spec_hash() is Some,
        ensures
            object.kind() == kind_tag(),
            object.payload() == value.payload(),
            object.spec_hash() == value.spec_hash()->Some_0,
    {
        let hash = *value.hash();
        let prefix = tag_kind();
        WriteObject { hash, prefix, bytes: value.into_bytes() }
    }

    /// The tree as an object to be written, under the identifier that the
    /// tree holds.
    pub fn from_tree(value: Tree) -> (object: WriteObject)
        ensures
            object.kind() == kind_tree(),
            object.payload() == tree_payload(value@),
            object.spec_hash() == value.spec_hash().0,
    {
        let hash = value.hash().0;
        let prefix = tree_kind();
        WriteObject { hash, prefix, bytes: value.bytes() }
    }
}

} // verus!
