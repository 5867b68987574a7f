use crate::error::GitError;
use vstd::prelude::*;
use vstd::std_specs::convert::FromSpecImpl;

verus! {

/// The lowercase hexadecimal digit of a value below 16.
pub open spec fn hex_digit(nibble: int) -> u8 {
    if nibble < 10 {
        (48 + nibble) as u8
    } else {
        (87 + nibble) as u8
    }
}

/// The lowercase hexadecimal text of some bytes: two digits for each byte,
/// the high half first.
pub open spec fn hex_lower(bytes: Seq<u8>) -> Seq<u8> {
    Seq::new(
        2 * bytes.len(),
        |i: int|
            if i % 2 == 0 {
                hex_digit(bytes[i / 2] as int / 16)
            } else {
                hex_digit(bytes[i / 2] as int % 16)
            },
    )
}

/// [`hex_lower`] as characters.
pub open spec fn hex_text(bytes: Seq<u8>) -> Seq<char> {
    Seq::new(2 * bytes.len(), |i: int| hex_lower(bytes)[i] as char)
}

/// The value of a lowercase hexadecimal digit, if `c` is one.
pub open spec fn hex_value(c: u8) -> Option<u8> {
    if 48 <= c <= 57 {
        Some((c - 48) as u8)
    } else if 97 <= c <= 102 {
        Some((c - 87) as u8)
    } else {
        None
    }
}

/// Every byte of `text` is a lowercase hexadecimal digit.
pub open spec fn is_hex_lower(text: Seq<u8>) -> bool {
    forall|i: int| 0 <= i < text.len() ==> (#[trigger] hex_value(text[i])) is Some
}

/// The bytes that `text` spells, two digits for each byte.
pub open spec fn hex_decoded(text: Seq<u8>) -> Seq<u8> {
    Seq::new(
        text.len() / 2,
        |i: int| (hex_value(text[2 * i]).unwrap() * 16 + hex_value(text[2 * i + 1]).unwrap()) as u8,
    )
}

/// `text` is the hexadecimal form of an object identifier: 40 lowercase
/// hexadecimal digits.
pub open spec fn is_hex_oid(text: Seq<u8>) -> bool {
    text.len() == 40 && is_hex_lower(text)
}

/// Decoding the hexadecimal text of some bytes gives the bytes back, and the
/// text holds only lowercase hexadecimal digits.
pub proof fn lemma_hex_decode_encode(bytes: Seq<u8>)
    ensures
        is_hex_lower(hex_lower(bytes)),
        hex_lower(bytes).len() == 2 * bytes.len(),
        hex_decoded(hex_lower(bytes)) == bytes,
{
    let text = hex_lower(bytes);
    assert forall|i: int| 0 <= i < text.len() implies (#[trigger] hex_value(text[i])) is Some by {
        let b = bytes[i / 2] as int;
        assert(0 <= b / 16 < 16 && 0 <= b % 16 < 16);
    }
    assert forall|i: int| 0 <= i < bytes.len() implies hex_decoded(text)[i] == bytes[i] by {
        let b = bytes[i] as int;
        assert((2 * i) / 2 == i && (2 * i) % 2 == 0);
        assert((2 * i + 1) / 2 == i && (2 * i + 1) % 2 == 1);
        assert(0 <= b / 16 < 16 && 0 <= b % 16 < 16);
        assert(b == (b / 16) * 16 + b % 16);
    }
    assert(hex_decoded(text) =~= bytes);
}

/// Encoding the bytes that an even number of lowercase hexadecimal digits
/// spell gives the digits back.
pub proof fn lemma_hex_encode_decode(text: Seq<u8>)
    requires
        is_hex_lower(text),
        text.len() % 2 == 0,
    ensures
        hex_lower(hex_decoded(text)) == text,
{
    let bytes = hex_decoded(text);
    assert forall|i: int| 0 <= i < text.len() implies hex_lower(bytes)[i] == text[i] by {
        let k = i / 2;
        assert(hex_value(text[2 * k]) is Some);
        assert(hex_value(text[2 * k + 1]) is Some);
        let hi = hex_value(text[2 * k]).unwrap() as int;
        let lo = hex_value(text[2 * k + 1]).unwrap() as int;
        assert(0 <= hi < 16 && 0 <= lo < 16);
        assert(bytes[k] as int == hi * 16 + lo);
        assert((hi * 16 + lo) / 16 == hi && (hi * 16 + lo) % 16 == lo);
        if i % 2 == 0 {
            assert(i == 2 * k);
        } else {
            assert(i == 2 * k + 1);
        }
    }
    assert(hex_lower(bytes) =~= text);
}

/// `hex::encode`: the lowercase hexadecimal text of `bytes`, two digits for
/// each byte.
#[verifier::external_body]
fn hex_encode(bytes: &[u8]) -> (text: String)
    ensures
        text@ == hex_text(bytes@),
{
    hex::encode(bytes)
}

/// The value of the hexadecimal digit `c`, if it is one.
fn nibble(c: u8) -> (value: Option<u8>)
    ensures
        value == hex_value(c),
{
    if 48 <= c && c <= 57 {
        Some(c - 48)
    } else if 97 <= c && c <= 102 {
        Some(c - 87)
    } else {
        None
    }
}

/// A 20-byte object identifier.
#[derive(Clone, Copy, Debug, Hash, PartialEq, Eq)]
pub struct ObjectHash {
    pub bytes: [u8; 20],
}

impl View for ObjectHash {
    type V = Seq<u8>;

    open spec fn view(&self) -> Seq<u8> {
        self.bytes@
    }
}

impl ObjectHash {
    /// Wraps 20 raw bytes as an identifier.
    pub fn new(bytes: [u8; 20]) -> (hash: ObjectHash)
        ensures
            hash.bytes == bytes,
    {
        ObjectHash { bytes }
    }

    /// Reads an identifier from its 20 raw bytes. Any other length is
    /// refused.
    pub fn try_from(value: &[u8]) -> (parsed: Result<ObjectHash, GitError>)
        ensures
            value@.len() == 20 ==> parsed is Ok && parsed->Ok_0@ == value@,
            value@.len() != 20 ==> parsed == Err::<ObjectHash, GitError>(
                GitError::UnsupportedHashAlgorithm,
            ),
    {
        if value.len() != 20 {
            return Err(GitError::UnsupportedHashAlgorithm);
        }
        let mut bytes = [0u8; 20];
        let mut i: usize = 0;
        while i < 20
            invariant
                i <= 20,
                value@.len() == 20,
                forall|j: int| 0 <= j < i ==> bytes@[j] == value@[j],
            decreases 20 - i,
        {
            bytes[i] = value[i];
            i += 1;
        }
        assert(bytes@ =~= value@);
        Ok(ObjectHash { bytes })
    }

    /// Reads an identifier from its hexadecimal form: 40 lowercase
    /// hexadecimal digits. Anything else is refused.
    pub fn try_from_bstr(hash: &[u8]) -> (parsed: Result<ObjectHash, GitError>)
        ensures
            is_hex_oid(hash@) ==> parsed is Ok && parsed->Ok_0@ == hex_decoded(hash@),
            !is_hex_oid(hash@) ==> parsed == Err::<ObjectHash, GitError>(GitError::MalformedRef),
    {
        if hash.len() != 40 {
            return Err(GitError::MalformedRef);
        }
        let mut bytes = [0u8; 20];
        let mut i: usize = 0;
        while i < 20
            invariant
                i <= 20,
                hash@.len() == 40,
                forall|j: int| 0 <= j < 2 * i ==> (#[trigger] hex_value(hash@[j])) is Some,
                forall|j: int| 0 <= j < i ==> bytes@[j] == hex_decoded(hash@)[j],
            decreases 20 - i,
        {
            let hi = nibble(hash[2 * i]);
            let lo = nibble(hash[2 * i + 1]);
            match (hi, lo) {
                (Some(h), Some(l)) => {
                    bytes[i] = h * 16 + l;
                },
                _ => {
                    return Err(GitError::MalformedRef);
                },
            }
            assert forall|j: int| 0 <= j < 2 * (i + 1) implies (#[trigger] hex_value(
                hash@[j],
            )) is Some by {
                if j >= 2 * i {
                    assert(j == 2 * i || j == 2 * i + 1);
                }
            }
            i += 1;
        }
        assert(bytes@ =~= hex_decoded(hash@));
        Ok(ObjectHash { bytes })
    }

    /// The 40 lowercase hexadecimal digits of the identifier, as bytes.
    pub fn to_hex(&self) -> (text: Vec<u8>)
        ensures
            text@ == hex_lower(self@),
            text@.len() == 40,
    {
        let mut text: Vec<u8> = Vec::with_capacity(40);
        let mut i: usize = 0;
        while i < 20
            invariant
                i <= 20,
                text@.len() == 2 * i,
                forall|j: int| 0 <= j < 2 * i ==> text@[j] == hex_lower(self@)[j],
            decreases 20 - i,
        {
            let b = self.bytes[i];
            let hi = b / 16;
            let lo = b % 16;
            let ghost old_text = text@;
            text.push(if hi < 10 { 48 + hi } else { 87 + hi });
            text.push(if lo < 10 { 48 + lo } else { 87 + lo });
            assert forall|j: int| 0 <= j < 2 * (i + 1) implies text@[j] == hex_lower(self@)[j] by {
                if j < 2 * i {
                    assert(text@[j] == old_text[j]);
                } else if j == 2 * i {
                    assert((2 * i) / 2 == i && (2 * i) % 2 == 0);
                } else {
                    assert(j == 2 * i + 1);
                    assert((2 * i + 1) / 2 == i && (2 * i + 1) % 2 == 1);
                }
            }
            i += 1;
        }
        assert(text@ =~= hex_lower(self@));
        text
    }

    /// The 40 lowercase hexadecimal digits of the identifier.
    pub fn to_string(&self) -> (text: String)
        ensures
            text@ == hex_text(self@),
    {
        hex_encode(self.bytes.as_slice())
    }

    /// Whether two identifiers hold the same bytes.
    pub fn same(&self, other: &ObjectHash) -> (equal: bool)
        ensures
            equal == (self@ == other@),
            equal == (*self == *other),
    {
        let mut i: usize = 0;
        while i < 20
            invariant
                i <= 20,
                forall|j: int| 0 <= j < i ==> self.bytes@[j] == other.bytes@[j],
            decreases 20 - i,
        {
            if self.bytes[i] != other.bytes[i] {
                return false;
            }
            i += 1;
        }
        assert(self.bytes@ =~= other.bytes@);
        assert(self.bytes == other.bytes);
        true
    }
}



impl From<[u8; 20]> for ObjectHash {
    fn from(value: [u8; 20]) -> (hash: ObjectHash) {
        ObjectHash { bytes: value }
    }
}

impl FromSpecImpl<[u8; 20]> for ObjectHash {
    open spec fn obeys_from_spec() -> bool {
        true
    }

    open spec fn from_spec(value: [u8; 20]) -> ObjectHash {
        ObjectHash { bytes: value }
    }
}

/// The identifier of a commit.
#[derive(Clone, Copy, Debug, Hash, PartialEq, Eq)]
pub struct CommitHash(pub ObjectHash);

impl View for CommitHash {
    type V = Seq<u8>;

    open spec fn view(&self) -> Seq<u8> {
        self.0@
    }
}

impl CommitHash {
    /// Reads the identifier of a commit from its 20 raw bytes.
    pub fn try_from(value: &[u8]) -> (parsed: Result<CommitHash, GitError>)
        ensures
            value@.len() == 20 ==> parsed is Ok && parsed->Ok_0@ == value@,
            value@.len() != 20 ==> parsed == Err::<CommitHash, GitError>(
                GitError::UnsupportedHashAlgorithm,
            ),
    {
        match ObjectHash::try_from(value) {
            Ok(hash) => Ok(CommitHash(hash)),
            Err(e) => Err(e),
        }
    }

    /// Reads the identifier of a commit from 40 lowercase hexadecimal digits.
    pub fn try_from_bstr(hash: &[u8]) -> (parsed: Result<CommitHash, GitError>)
        ensures
            is_hex_oid(hash@) ==> parsed is Ok && parsed->Ok_0@ == hex_decoded(hash@),
            !is_hex_oid(hash@) ==> parsed == Err::<CommitHash, GitError>(GitError::MalformedRef),
    {
        match ObjectHash::try_from_bstr(hash) {
            Ok(hash) => Ok(CommitHash(hash)),
            Err(e) => Err(e),
        }
    }

    /// The 40 lowercase hexadecimal digits of the identifier, as bytes.
    pub fn to_hex(&self) -> (text: Vec<u8>)
        ensures
            text@ == hex_lower(self@),
            text@.len() == 40,
    {
        self.0.to_hex()
    }

    /// The 40 lowercase hexadecimal digits of the identifier.
    pub fn to_string(&self) -> (text: String)
        ensures
            text@ == hex_text(self@),
    {
        self.0.to_string()
    }

    /// Whether two identifiers hold the same bytes.
    pub fn same(&self, other: &CommitHash) -> (equal: bool)
        ensures
            equal == (self@ == other@),
            equal == (*self == *other),
    {
        self.0.same(&other.0)
    }
}

impl From<ObjectHash> for CommitHash {
    fn from(value: ObjectHash) -> (typed: CommitHash) {
        CommitHash(value)
    }
}

impl FromSpecImpl<ObjectHash> for CommitHash {
    open spec fn obeys_from_spec() -> bool {
        true
    }

    open spec fn from_spec(value: ObjectHash) -> CommitHash {
        CommitHash(value)
    }
}

impl From<CommitHash> for ObjectHash {
    fn from(value: CommitHash) -> (raw: ObjectHash) {
        value.0
    }
}

impl FromSpecImpl<CommitHash> for ObjectHash {
    open spec fn obeys_from_spec() -> bool {
        true
    }

    open spec fn from_spec(value: CommitHash) -> ObjectHash {
        value.0
    }
}

/// The identifier of a tree.
#[derive(Clone, Copy, Debug, Hash, PartialEq, Eq)]
pub struct TreeHash(pub ObjectHash);

impl View for TreeHash {
    type V = Seq<u8>;

    open spec fn view(&self) -> Seq<u8> {
        self.0@
    }
}

impl TreeHash {
    /// Reads the identifier of a tree from its 20 raw bytes.
    pub fn try_from(value: &[u8]) -> (parsed: Result<TreeHash, GitError>)
        ensures
            value@.len() == 20 ==> parsed is Ok && parsed->Ok_0@ == value@,
            value@.len() != 20 ==> parsed == Err::<TreeHash, GitError>(
                GitError::UnsupportedHashAlgorithm,
            ),
    {
        match ObjectHash::try_from(value) {
            Ok(hash) => Ok(TreeHash(hash)),
            Err(e) => Err(e),
        }
    }

    /// Reads the identifier of a tree from 40 lowercase hexadecimal digits.
    pub fn try_from_bstr(hash: &[u8]) -> (parsed: Result<TreeHash, GitError>)
        ensures
            is_hex_oid(hash@) ==> parsed is Ok && parsed->Ok_0@ == hex_decoded(hash@),
            !is_hex_oid(hash@) ==> parsed == Err::<TreeHash, GitError>(GitError::MalformedRef),
    {
        match ObjectHash::try_from_bstr(hash) {
            Ok(hash) => Ok(TreeHash(hash)),
            Err(e) => Err(e),
        }
    }

    /// The 40 lowercase hexadecimal digits of the identifier, as bytes.
    pub fn to_hex(&self) -> (text: Vec<u8>)
        ensures
            text@ == hex_lower(self@),
            text@.len() == 40,
    {
        self.0.to_hex()
    }

    /// The 40 lowercase hexadecimal digits of the identifier.
    pub fn to_string(&self) -> (text: String)
        ensures
            text@ == hex_text(self@),
    {
        self.0.to_string()
    }

    /// Whether two identifiers hold the same bytes.
    pub fn same(&self, other: &TreeHash) -> (equal: bool)
        ensures
            equal == (self@ == other@),
            equal == (*self == *other),
    {
        self.0.same(&other.0)
    }
}

impl From<ObjectHash> for TreeHash {
    fn from(value: ObjectHash) -> (typed: TreeHash) {
        TreeHash(value)
    }
}

impl FromSpecImpl<ObjectHash> for TreeHash {
    open spec fn obeys_from_spec() -> bool {
        true
    }

    open spec fn from_spec(value: ObjectHash) -> TreeHash {
        TreeHash(value)
    }
}

impl From<TreeHash> for ObjectHash {
    fn from(value: TreeHash) -> (raw: ObjectHash) {
        value.0
    }
}

impl FromSpecImpl<TreeHash> for ObjectHash {
    open spec fn obeys_from_spec() -> bool {
        true
    }

    open spec fn from_spec(value: TreeHash) -> ObjectHash {
        value.0
    }
}

} // verus!
