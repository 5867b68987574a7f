use crate::bytes::{find_byte, first_at, has_prefix_at, lemma_first_at, same_bytes, starts_with_at};
use crate::error::GitError;
use crate::hashing::{calculate_hash, kind_commit, kind_tag, kind_tree, object_id, tag_kind};
use crate::object_hash::{hex_decoded, hex_lower, is_hex_oid, lemma_hex_decode_encode, ObjectHash};
use crate::objs::commit::{hash_line_at, payload_start, Span, WriteBytes};
use crate::objs::TagTargetType;
use crate::shared::RefSlice;
use vstd::prelude::*;
use vstd::slice::slice_subrange;

verus! {

/// The fields of a tag: the object that it points at as the 40 hexadecimal
/// digits that name it, the kind of that object, the name of the tag, and
/// everything behind the name line.
pub struct TagView {
    pub object: Seq<u8>,
    pub kind: Seq<u8>,
    pub name: Seq<u8>,
    pub remainder: Seq<u8>,
}

/// Where the fields of a tag lie in its buffer.
pub struct TagLayout {
    pub object: Span,
    pub kind: Span,
    pub name: Span,
    pub remainder: Span,
}

/// `"object "`
pub open spec fn word_object() -> Seq<u8> {
    seq![111u8, 98u8, 106u8, 101u8, 99u8, 116u8, 32u8]
}

/// `"type "`
pub open spec fn word_type() -> Seq<u8> {
    seq![116u8, 121u8, 112u8, 101u8, 32u8]
}

/// `"tag "`
pub open spec fn word_tag() -> Seq<u8> {
    seq![116u8, 97u8, 103u8, 32u8]
}

/// `"object "`
pub fn object_word() -> (word: [u8; 7])
    ensures
        word@ == word_object(),
{
    let word: [u8; 7] = [111, 98, 106, 101, 99, 116, 32];
    assert(word@ =~= word_object());
    word
}

/// `"type "`
pub fn type_word() -> (word: [u8; 5])
    ensures
        word@ == word_type(),
{
    let word: [u8; 5] = [116, 121, 112, 101, 32];
    assert(word@ =~= word_type());
    word
}

/// `"tag "`
pub fn tag_word() -> (word: [u8; 4])
    ensures
        word@ == word_tag(),
{
    let word: [u8; 4] = [116, 97, 103, 32];
    assert(word@ =~= word_tag());
    word
}

/// The kinds of object that a tag can point at.
pub open spec fn is_target_kind(kind: Seq<u8>) -> bool {
    kind == kind_commit() || kind == kind_tree() || kind == kind_tag()
}

/// Where the fields of the tag lie whose payload starts at `start` of
/// `data`: the object line, the type line, the tag line, and the rest.
/// Nothing where the payload does not follow this format.
pub open spec fn tag_layout(data: Seq<u8>, start: int) -> Option<TagLayout> {
    if !hash_line_at(data, start, word_object()) {
        None
    } else if !starts_with_at(data, start + 48, word_type()) {
        None
    } else {
        let kind_end = first_at(data, start + 53, 10);
        if kind_end >= data.len() || !is_target_kind(data.subrange(start + 53, kind_end)) {
            None
        } else if !starts_with_at(data, kind_end + 1, word_tag()) {
            None
        } else {
            let name_end = first_at(data, kind_end + 5, 10);
            if name_end >= data.len() {
                None
            } else {
                Some(
                    TagLayout {
                        object: Span { at: start + 7, len: 40 },
                        kind: Span { at: start + 53, len: kind_end - start - 53 },
                        name: Span { at: kind_end + 5, len: name_end - kind_end - 5 },
                        remainder: Span { at: name_end + 1, len: data.len() - name_end - 1 },
                    },
                )
            }
        }
    }
}

/// The fields that lie in `data` as `layout` says.
pub open spec fn tag_view_of(data: Seq<u8>, layout: TagLayout) -> TagView {
    TagView {
        object: layout.object.of(data),
        kind: layout.kind.of(data),
        name: layout.name.of(data),
        remainder: layout.remainder.of(data),
    }
}

/// The fields of the tag that `data` holds, if it holds one.
pub open spec fn parsed_tag(data: Seq<u8>, skip_first_null: bool) -> Option<TagView> {
    match payload_start(data, skip_first_null) {
        None => None,
        Some(start) => match tag_layout(data, start) {
            None => None,
            Some(layout) => Some(tag_view_of(data, layout)),
        },
    }
}

/// The payload of a tag with these fields: the object line, the type line,
/// the tag line and the rest.
pub open spec fn serialized_tag(tag: TagView) -> Seq<u8> {
    word_object() + tag.object + seq![10u8] + (word_type() + tag.kind + seq![10u8]) + (word_tag()
        + tag.name + seq![10u8]) + tag.remainder
}

/// Writing the fields of a tag back gives the payload that they were read
/// from. The fields lie inside the buffer, the object is named by 40
/// hexadecimal digits and its kind is one that a tag can point at.
pub proof fn lemma_tag_roundtrip(data: Seq<u8>, start: int)
    requires
        0 <= start <= data.len(),
        tag_layout(data, start) is Some,
    ensures
        serialized_tag(tag_view_of(data, tag_layout(data, start)->Some_0)) == data.skip(start),
        ({
            let layout = tag_layout(data, start)->Some_0;
            &&& layout.object.inside(data)
            &&& layout.kind.inside(data)
            &&& layout.name.inside(data)
            &&& layout.remainder.inside(data)
            &&& is_hex_oid(layout.object.of(data))
            &&& is_target_kind(layout.kind.of(data))
        }),
{
    let layout = tag_layout(data, start)->Some_0;
    let view = tag_view_of(data, layout);
    lemma_first_at(data, start + 53, 10);
    let kind_end = first_at(data, start + 53, 10);
    lemma_first_at(data, kind_end + 5, 10);
    let name_end = first_at(data, kind_end + 5, 10);
    assert(data.subrange(start, start + 7) == word_object());
    assert(data.subrange(start + 48, start + 53) == word_type());
    assert(data.subrange(kind_end + 1, kind_end + 5) == word_tag());
    assert(data.subrange(start + 48, kind_end + 1) =~= word_type() + view.kind + seq![10u8]);
    assert(data.subrange(kind_end + 1, name_end + 1) =~= word_tag() + view.name + seq![10u8]);
    assert(data.skip(start) =~= data.subrange(start, start + 7) + data.subrange(
        start + 7,
        start + 47,
    ) + seq![10u8] + data.subrange(start + 48, kind_end + 1) + data.subrange(
        kind_end + 1,
        name_end + 1,
    ) + data.subrange(name_end + 1, data.len() as int));
}

/// An annotated tag: its identifier where it is known, its buffer, and
/// where its fields lie in the buffer or what was set in their place.
#[derive(Debug)]
pub struct Tag {
    hash: Option<ObjectHash>,
    bytes: Vec<u8>,
    bytes_start: usize,
    object: RefSlice<u8>,
    obj_type: RefSlice<u8>,
    tag_name: RefSlice<u8>,
    remainder: RefSlice<u8>,
}

impl View for Tag {
    type V = TagView;

    closed spec fn view(&self) -> TagView {
        TagView {
            object: self.object.of(self.bytes@),
            kind: self.obj_type.of(self.bytes@),
            name: self.tag_name.of(self.bytes@),
            remainder: self.remainder.of(self.bytes@),
        }
    }
}

impl Tag {
    #[verifier::type_invariant]
    spec fn well_formed(self) -> bool {
        &&& self.bytes_start <= self.bytes@.len()
        &&& self.object.within(self.bytes@.len())
        &&& self.obj_type.within(self.bytes@.len())
        &&& self.tag_name.within(self.bytes@.len())
        &&& self.remainder.within(self.bytes@.len())
        &&& is_hex_oid(self.object.of(self.bytes@))
        &&& is_target_kind(self.obj_type.of(self.bytes@))
    }

    /// The identifier that the tag holds, where it holds one.
    pub closed spec fn spec_hash(&self) -> Option<ObjectHash> {
        self.hash
    }

    /// The payload that the tag was read from.
    pub closed spec fn payload(&self) -> Seq<u8> {
        self.bytes@.skip(self.bytes_start as int)
    }

    /// Reads a tag from `bytes`. With `skip_first_null` the payload starts
    /// behind the first zero byte, else at the start. Where no identifier is
    /// given, the tag gets the one of its payload. Fails with
    /// `MalformedObject` where the payload is no tag.
    pub fn create(hash: Option<ObjectHash>, bytes: Vec<u8>, skip_first_null: bool) -> (made: Result<
        Tag,
        GitError,
    >)
        ensures
            match parsed_tag(bytes@, skip_first_null) {
                None => made is Err && made->Err_0 == GitError::MalformedObject,
                Some(tag) => {
                    &&& made is Ok
                    &&& made->Ok_0@ == tag
                    &&& made->Ok_0.payload() == bytes@.skip(
                        payload_start(bytes@, skip_first_null)->Some_0,
                    )
                    &&& made->Ok_0.spec_hash() is Some
                    &&& hash is Some ==> made->Ok_0.spec_hash() == hash
                    &&& hash is None ==> made->Ok_0.spec_hash()->Some_0@ == object_id(
                        kind_tag(),
                        made->Ok_0.payload(),
                    )
                },
            },
    {
        let data = bytes.as_slice();
        let total = data.len();
        let mut start: usize = 0;
        if skip_first_null {
            let zero = find_byte(data, 0, 0);
            if zero >= total {
                return Err(GitError::MalformedObject);
            }
            start = zero + 1;
        }
        let object_w = object_word();
        if !has_prefix_at(data, start, object_w.as_slice()) {
            return Err(GitError::MalformedObject);
        }
        if total - start < 48 || !crate::bytes::is_hex_at(data, start + 7, 40) || data[start + 47]
            != 10 {
            return Err(GitError::MalformedObject);
        }
        let type_w = type_word();
        if !has_prefix_at(data, start + 48, type_w.as_slice()) {
            return Err(GitError::MalformedObject);
        }
        let kind_end = find_byte(data, start + 53, 10);
        if kind_end >= total {
            return Err(GitError::MalformedObject);
        }
        let kind = slice_subrange(data, start + 53, kind_end);
        let commit_k = crate::hashing::commit_kind();
        let tree_k = crate::hashing::tree_kind();
        let tag_k = tag_kind();
        if !(same_bytes(kind, commit_k.as_slice()) || same_bytes(kind, tree_k.as_slice())
            || same_bytes(kind, tag_k.as_slice())) {
            return Err(GitError::MalformedObject);
        }
        let tag_w = tag_word();
        if !has_prefix_at(data, kind_end + 1, tag_w.as_slice()) {
            return Err(GitError::MalformedObject);
        }
        let name_end = find_byte(data, kind_end + 5, 10);
        if name_end >= total {
            return Err(GitError::MalformedObject);
        }
        let hash = match hash {
            Some(hash) => hash,
            None => calculate_hash(slice_subrange(data, start, total), tag_k.as_slice()),
        };
        proof {
            lemma_tag_roundtrip(data@, start as int);
        }
        Ok(
            Tag {
                hash: Some(hash),
                bytes_start: start,
                object: RefSlice::new(start + 7, 40),
                obj_type: RefSlice::new(start + 53, kind_end - start - 53),
                tag_name: RefSlice::new(kind_end + 5, name_end - kind_end - 5),
                remainder: RefSlice::new(name_end + 1, total - name_end - 1),
                bytes,
            },
        )
    }

    /// The identifier of the tag.
    pub fn hash(&self) -> (hash: &ObjectHash)
        requires
            self.spec_hash() is Some,
        ensures
            *hash == self.spec_hash()->Some_0,
    {
        self.hash.as_ref().unwrap()
    }

    /// The identifier of the tag: the one that it holds, or else the one of
    /// the payload of its fields.
    pub fn current_hash(&self) -> (hash: ObjectHash)
        ensures
            self.spec_hash() is Some ==> hash == self.spec_hash()->Some_0,
            self.spec_hash() is None ==> hash@ == object_id(kind_tag(), serialized_tag(self@)),
    {
        match &self.hash {
            Some(hash) => *hash,
            None => {
                let payload = self.to_bytes();
                let word = tag_kind();
                calculate_hash(payload.as_slice(), word.as_slice())
            },
        }
    }

    /// The object that the tag points at.
    pub fn object(&self) -> (object: ObjectHash)
        ensures
            object@ == hex_decoded(self@.object),
            is_hex_oid(self@.object),
    {
        proof {
            use_type_invariant(self);
        }
        let text = self.object.get(self.bytes.as_slice());
        match ObjectHash::try_from_bstr(text) {
            Ok(hash) => hash,
            Err(_) => {
                assert(false);
                ObjectHash::new([0u8; 20])
            },
        }
    }

    /// Points the tag at `object`. The tag no longer holds an identifier.
    pub fn set_object(&mut self, object: ObjectHash)
        ensures
            final(self)@ == (TagView { object: hex_lower(object@), ..old(self)@ }),
            final(self).spec_hash() is None,
    {
        proof {
            use_type_invariant(&*self);
            lemma_hex_decode_encode(object@);
        }
        self.hash = None;
        self.object = RefSlice::Owned(object.to_hex());
    }

    /// The name of the tag.
    pub fn name(&self) -> (name: &[u8])
        ensures
            name@ == self@.name,
    {
        proof {
            use_type_invariant(self);
        }
        self.tag_name.get(self.bytes.as_slice())
    }

    /// The kind of object that the tag points at.
    pub fn target_type(&self) -> (kind: TagTargetType)
        ensures
            is_target_kind(self@.kind),
            kind == TagTargetType::Tag <==> self@.kind == kind_tag(),
            kind == TagTargetType::Commit <==> self@.kind == kind_commit(),
            kind == TagTargetType::Tree <==> self@.kind == kind_tree(),
    {
        proof {
            use_type_invariant(self);
        }
        let target = self.obj_type.get(self.bytes.as_slice());
        let tag_k = tag_kind();
        let commit_k = crate::hashing::commit_kind();
        assert(kind_tag() != kind_commit() && kind_tag() != kind_tree() && kind_commit()
            != kind_tree()) by {
            assert(kind_tag().len() == 3 && kind_commit().len() == 6 && kind_tree().len() == 4);
        }
        if same_bytes(target, tag_k.as_slice()) {
            TagTargetType::Tag
        } else if same_bytes(target, commit_k.as_slice()) {
            TagTargetType::Commit
        } else {
            TagTargetType::Tree
        }
    }

    /// The payload that the tag was read from.
    pub fn bytes(&self) -> (payload: &[u8])
        ensures
            payload@ == self.payload(),
    {
        proof {
            use_type_invariant(self);
        }
        slice_subrange(self.bytes.as_slice(), self.bytes_start, self.bytes.len())
    }

    /// The buffer of the tag with the place where its payload starts.
    pub fn into_bytes(self) -> (written: WriteBytes)
        ensures
            written@ == self.payload(),
    {
        proof {
            use_type_invariant(&self);
        }
        WriteBytes::new(self.bytes, self.bytes_start)
    }

    /// The payload of the tag's fields: the object line, the type line, the
    /// tag line and the rest.
    pub fn to_bytes(&self) -> (written: Vec<u8>)
        ensures
            written@ == serialized_tag(self@),
    {
        proof {
            use_type_invariant(self);
        }
        let data = self.bytes.as_slice();
        let mut result: Vec<u8> = Vec::new();
        let object_w = object_word();
        result.extend_from_slice(object_w.as_slice());
        result.extend_from_slice(self.object.get(data));
        result.push(10u8);
        let type_w = type_word();
        result.extend_from_slice(type_w.as_slice());
        result.extend_from_slice(self.obj_type.get(data));
        result.push(10u8);
        let tag_w = tag_word();
        result.extend_from_slice(tag_w.as_slice());
        result.extend_from_slice(self.tag_name.get(data));
        result.push(10u8);
        result.extend_from_slice(self.remainder.get(data));
        assert(result@ =~= serialized_tag(self@));
        result
    }
}

} // verus!
