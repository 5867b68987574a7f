use crate::bytes::{find_byte, first_at, lemma_first_at, lemma_first_at_is};
use crate::error::GitError;
use crate::hashing::{calculate_hash, kind_tree, object_id, tree_kind};
use crate::object_hash::TreeHash;
use crate::objs::commit::{payload_start, Span, WriteBytes};
use crate::shared::{RefSlice, SliceIndexes};
use vstd::prelude::*;
use vstd::slice::slice_subrange;

verus! {

/// One entry of a tree as plain values: the mode, a space and the name; and
/// the 20 bytes that identify the entry's object.
pub struct EntryView {
    pub text: Seq<u8>,
    pub hash: Seq<u8>,
}

/// The text of a tree entry is a mode of at least one byte, a space and a
/// name, and holds no zero byte.
pub open spec fn valid_text(text: Seq<u8>) -> bool {
    1 <= first_at(text, 0, 32) < text.len() && first_at(text, 0, 0) >= text.len()
}

/// Where the entries of the tree lie whose payload starts at `at` of `data`:
/// for each entry the part of its text and the part of its identifier.
/// Nothing where the payload is not a run of entries, each a valid text, a
/// zero byte and 20 bytes.
pub open spec fn tree_layout(data: Seq<u8>, at: int) -> Option<Seq<(Span, Span)>>
    decreases data.len() - at,
{
    if at < 0 || at > data.len() {
        None
    } else if at == data.len() {
        Some(Seq::empty())
    } else {
        let zero = first_at(data, at, 0);
        if zero < at || zero + 21 > data.len() {
            None
        } else if !valid_text(data.subrange(at, zero)) {
            None
        } else {
            match tree_layout(data, zero + 21) {
                None => None,
                Some(rest) => Some(
                    seq![(Span { at, len: zero - at }, Span { at: zero + 1, len: 20 })] + rest,
                ),
            }
        }
    }
}

/// The entries that lie in `data` as `layout` says.
pub open spec fn entries_of(data: Seq<u8>, layout: Seq<(Span, Span)>) -> Seq<EntryView> {
    Seq::new(
        layout.len(),
        |i: int| EntryView { text: layout[i].0.of(data), hash: layout[i].1.of(data) },
    )
}

/// The entries of the tree that `data` holds, if it holds one.
pub open spec fn parsed_tree(data: Seq<u8>, skip_first_null: bool) -> Option<Seq<EntryView>> {
    match payload_start(data, skip_first_null) {
        None => None,
        Some(start) => match tree_layout(data, start) {
            None => None,
            Some(layout) => Some(entries_of(data, layout)),
        },
    }
}

/// The payload of a tree with these entries: for each the text, a zero byte
/// and the identifier.
pub open spec fn tree_payload(entries: Seq<EntryView>) -> Seq<u8>
    decreases entries.len(),
{
    if entries.len() == 0 {
        Seq::empty()
    } else {
        entries[0].text + seq![0u8] + entries[0].hash + tree_payload(entries.drop_first())
    }
}

/// Every entry has a valid text and an identifier of 20 bytes.
pub open spec fn valid_entries(entries: Seq<EntryView>) -> bool {
    forall|i: int|
        0 <= i < entries.len() ==> valid_text((#[trigger] entries[i]).text) && entries[i].hash.len()
            == 20
}

/// The payload of entries put one after the other is their payloads put one
/// after the other.
pub proof fn lemma_tree_payload_concat(first: Seq<EntryView>, second: Seq<EntryView>)
    ensures
        tree_payload(first + second) == tree_payload(first) + tree_payload(second),
    decreases first.len(),
{
    if first.len() == 0 {
        assert(first + second =~= second);
        assert(tree_payload(first) + tree_payload(second) =~= tree_payload(second));
    } else {
        assert((first + second).drop_first() =~= first.drop_first() + second);
        lemma_tree_payload_concat(first.drop_first(), second);
        assert(tree_payload(first + second) =~= tree_payload(first) + tree_payload(second));
    }
}

/// A single entry's payload is its text, a zero byte and its identifier.
pub proof fn lemma_tree_payload_single(entry: EntryView)
    ensures
        tree_payload(seq![entry]) == entry.text + seq![0u8] + entry.hash,
{
    let single = seq![entry];
    assert(single.drop_first() =~= Seq::<EntryView>::empty());
    assert(tree_payload(single.drop_first()) =~= Seq::<u8>::empty());
    assert(tree_payload(single) =~= entry.text + seq![0u8] + entry.hash);
}

/// Writing the entries of a tree back gives the payload that they were read
/// from. The entries lie inside the buffer and are valid.
pub proof fn lemma_tree_roundtrip(data: Seq<u8>, at: int)
    requires
        tree_layout(data, at) is Some,
    ensures
        0 <= at <= data.len(),
        tree_payload(entries_of(data, tree_layout(data, at)->Some_0)) == data.skip(at),
        valid_entries(entries_of(data, tree_layout(data, at)->Some_0)),
        forall|i: int|
            0 <= i < tree_layout(data, at)->Some_0.len() ==> {
                let part = #[trigger] tree_layout(data, at)->Some_0[i];
                part.0.inside(data) && part.1.inside(data) && part.1.len == 20 && part.1.at
                    == part.0.at + part.0.len + 1
            },
    decreases data.len() - at,
{
    let layout = tree_layout(data, at)->Some_0;
    let entries = entries_of(data, layout);
    if at == data.len() {
        assert(tree_payload(entries) =~= data.skip(at));
    } else {
        let zero = first_at(data, at, 0);
        lemma_tree_roundtrip(data, zero + 21);
        let rest = tree_layout(data, zero + 21)->Some_0;
        let rest_entries = entries_of(data, rest);
        assert(entries.drop_first() =~= rest_entries);
        assert forall|i: int| 0 <= i < layout.len() implies {
            let part = #[trigger] layout[i];
            part.0.inside(data) && part.1.inside(data) && part.1.len == 20 && part.1.at
                == part.0.at + part.0.len + 1
        } by {
            if i > 0 {
                assert(layout[i] == rest[i - 1]);
            }
        }
        assert forall|i: int| 0 <= i < entries.len() implies valid_text(
            (#[trigger] entries[i]).text,
        ) && entries[i].hash.len() == 20 by {
            if i > 0 {
                assert(entries[i] == rest_entries[i - 1]);
            }
        }
        assert(data[zero] == 0) by {
            lemma_first_at(data, at, 0);
        }
        assert(data.skip(at) =~= data.subrange(at, zero) + seq![0u8] + data.subrange(
            zero + 1,
            zero + 21,
        ) + data.skip(zero + 21));
    }
}

/// Reading the payload of valid entries gives the entries back.
pub proof fn lemma_tree_reparse(entries: Seq<EntryView>)
    requires
        valid_entries(entries),
    ensures
        tree_layout(tree_payload(entries), 0) is Some,
        entries_of(tree_payload(entries), tree_layout(tree_payload(entries), 0)->Some_0) == entries,
    decreases entries.len(),
{
    lemma_tree_reparse_at(Seq::empty(), entries);
    assert(Seq::<u8>::empty() + tree_payload(entries) =~= tree_payload(entries));
}

/// Reading the payload of valid entries behind any bytes gives the entries
/// back.
#[verifier::rlimit(30)]
pub proof fn lemma_tree_reparse_at(before: Seq<u8>, entries: Seq<EntryView>)
    requires
        valid_entries(entries),
    ensures
        tree_layout(before + tree_payload(entries), before.len() as int) is Some,
        entries_of(
            before + tree_payload(entries),
            tree_layout(before + tree_payload(entries), before.len() as int)->Some_0,
        ) == entries,
    decreases entries.len(),
{
    let data = before + tree_payload(entries);
    let at = before.len() as int;
    if entries.len() == 0 {
        assert(tree_payload(entries) =~= Seq::<u8>::empty());
        assert(data =~= before);
        assert(entries_of(data, tree_layout(data, at)->Some_0) =~= entries);
    } else {
        let head = entries[0];
        let rest = entries.drop_first();
        let text = head.text;
        assert(valid_text(text));
        assert(head.hash.len() == 20);
        let zero = at + text.len();
        let next = before + text + seq![0u8] + head.hash;
        assert(data =~= next + tree_payload(rest));
        assert forall|i: int| 0 <= i < rest.len() implies valid_text((#[trigger] rest[i]).text)
            && rest[i].hash.len() == 20 by {
            assert(rest[i] == entries[i + 1]);
        }
        lemma_tree_reparse_at(next, rest);
        lemma_first_at(text, 0, 0);
        assert forall|i: int| at <= i < zero implies data[i] != 0 by {
            assert(data[i] == text[i - at]);
        }
        assert(data[zero] == 0);
        lemma_first_at_is(data, at, 0, zero);
        assert(data.subrange(at, zero) =~= text);
        assert(data.subrange(zero + 1, zero + 21) =~= head.hash);
        let rest_layout = tree_layout(data, zero + 21)->Some_0;
        let layout = tree_layout(data, at)->Some_0;
        assert(layout =~= seq![(Span { at, len: zero - at }, Span { at: zero + 1, len: 20 })]
            + rest_layout);
        let found = entries_of(data, layout);
        assert forall|i: int| 0 <= i < entries.len() implies found[i] == entries[i] by {
            if i > 0 {
                assert(layout[i] == rest_layout[i - 1]);
                assert(entries_of(data, rest_layout)[i - 1] == rest[i - 1]);
            }
        }
        assert(found =~= entries);
    }
}

/// One entry of a tree as it lies in the tree's buffer: the identifier of
/// the entry's object and where the entry's text lies.
#[derive(Debug)]
pub struct TreeLineIndex {
    hash: TreeHash,
    text: RefSlice<u8>,
}

/// A tree as it was read: its identifier, its buffer and its entries.
#[derive(Debug)]
pub struct Tree {
    object_hash: TreeHash,
    lines: Vec<TreeLineIndex>,
    bytes: Vec<u8>,
    bytes_start: usize,
}

/// One entry of a tree: the identifier of the entry's object, and the text
/// (the mode, a space and the name).
#[derive(Debug)]
pub struct TreeLine<'a> {
    pub hash: TreeHash,
    pub text: &'a [u8],
}

impl<'a> View for TreeLine<'a> {
    type V = EntryView;

    open spec fn view(&self) -> EntryView {
        EntryView { text: self.text@, hash: self.hash@ }
    }
}

impl<'a> TreeLine<'a> {
    /// Whether the entry is a tree: its mode does not start with `1`.
    pub fn is_tree(&self) -> (tree: bool)
        requires
            self.text@.len() > 0,
        ensures
            tree == (self.text@[0] != 49),
    {
        self.text[0] != 49
    }

    /// The name of the entry: what follows the first space of the text.
    pub fn filename(&self) -> (name: &[u8])
        requires
            first_at(self.text@, 0, 32) < self.text@.len(),
        ensures
            name@ == self.text@.skip(first_at(self.text@, 0, 32) + 1),
    {
        let total = self.text.len();
        let space = find_byte(self.text, 0, 32);
        slice_subrange(self.text, space + 1, total)
    }
}

/// The entries as plain values.
pub open spec fn lines_view(lines: Seq<TreeLine>) -> Seq<EntryView> {
    Seq::new(lines.len(), |i: int| lines[i]@)
}

/// What the text of an entry is a tree by: its mode does not start with `1`.
pub open spec fn entry_is_tree(entry: EntryView) -> bool {
    entry.text[0] != 49
}

/// The name of an entry: what follows the first space of its text.
pub open spec fn entry_name(entry: EntryView) -> Seq<u8> {
    entry.text.skip(first_at(entry.text, 0, 32) + 1)
}

/// Where the entries lie that the lines point at.
pub closed spec fn layout_of(lines: Seq<TreeLineIndex>) -> Seq<(Span, Span)> {
    Seq::new(
        lines.len(),
        |i: int|
            match lines[i].text {
                RefSlice::Referenced(region) => (
                    Span { at: region.position as int, len: region.len as int },
                    Span { at: region.position + region.len + 1, len: 20 },
                ),
                RefSlice::Owned(_) => (Span { at: 0, len: 0 }, Span { at: 0, len: 0 }),
            },
    )
}

impl View for Tree {
    type V = Seq<EntryView>;

    closed spec fn view(&self) -> Seq<EntryView> {
        entries_of(self.bytes@, self.layout())
    }
}

impl Tree {
    /// Where the entries lie.
    closed spec fn layout(&self) -> Seq<(Span, Span)> {
        layout_of(self.lines@)
    }

    #[verifier::type_invariant]
    spec fn well_formed(self) -> bool {
        &&& self.bytes_start <= self.bytes@.len()
        &&& tree_layout(self.bytes@, self.bytes_start as int) == Some(self.layout())
        &&& forall|i: int|
            0 <= i < self.lines@.len() ==> (#[trigger] self.lines@[i]).text is Referenced
                && self.lines@[i].hash@ == self.layout()[i].1.of(self.bytes@)
    }

    /// The identifier that the tree holds.
    pub closed spec fn spec_hash(&self) -> TreeHash {
        self.object_hash
    }

    /// Reads a tree from `bytes`. With `skip_first_null` the payload starts
    /// behind the first zero byte, else at the start. Fails with
    /// `MalformedObject` where the payload is no tree.
    #[verifier::rlimit(30)]
    pub fn create(object_hash: TreeHash, bytes: Vec<u8>, skip_first_null: bool) -> (made: Result<
        Tree,
        GitError,
    >)
        ensures
            match parsed_tree(bytes@, skip_first_null) {
                None => made is Err && made->Err_0 == GitError::MalformedObject,
                Some(entries) => made is Ok && made->Ok_0@ == entries && made->Ok_0.spec_hash()
                    == object_hash,
            },
    {
        let data = bytes.as_slice();
        let total = data.len();
        let mut start: usize = 0;
        if skip_first_null {
            let zero = find_byte(data, 0, 0);
            if zero >= total {
                return Err(GitError::MalformedObject);
            }
            start = zero + 1;
        }
        let mut position = start;
        let mut lines: Vec<TreeLineIndex> = Vec::new();
        let ghost mut done: Seq<(Span, Span)> = Seq::empty();
        proof {
            match tree_layout(data@, position as int) {
                Some(rest) => {
                    assert(done + rest =~= rest);
                },
                None => {},
            }
        }
        while position < total
            invariant
                start <= position <= total,
                total == data@.len(),
                data@ == bytes@,
                payload_start(data@, skip_first_null) == Some(start as int),
                done.len() == lines@.len(),
                forall|i: int|
                    0 <= i < lines@.len() ==> (#[trigger] lines@[i]).text == RefSlice::<
                        u8,
                    >::Referenced(
                        SliceIndexes {
                            position: done[i].0.at as usize,
                            len: done[i].0.len as usize,
                        },
                    ) && 0 <= done[i].0.at && 0 <= done[i].0.len && done[i].0.at + done[i].0.len + 21
                        <= total && done[i].1 == (Span {
                        at: done[i].0.at + done[i].0.len + 1,
                        len: 20,
                    }) && lines@[i].hash@ == done[i].1.of(data@),
                match tree_layout(data@, position as int) {
                    Some(rest) => tree_layout(data@, start as int) == Some(done + rest),
                    None => tree_layout(data@, start as int) is None,
                },
            decreases total - position,
        {
            let zero = find_byte(data, position, 0);
            if zero >= total || total - zero < 21 {
                return Err(GitError::MalformedObject);
            }
            let text = slice_subrange(data, position, zero);
            let space = find_byte(text, 0, 32);
            if space < 1 || space >= text.len() {
                return Err(GitError::MalformedObject);
            }
            proof {
                lemma_first_at(data@, position as int, 0);
                assert forall|i: int| 0 <= i < text@.len() implies text@[i] != 0 by {
                    assert(text@[i] == data@[position + i]);
                }
                lemma_first_at_is(text@, 0, 0, text@.len() as int);
            }
            let hash = match TreeHash::try_from(slice_subrange(data, zero + 1, zero + 21)) {
                Ok(hash) => hash,
                Err(_) => {
                    assert(false);
                    return Err(GitError::MalformedObject);
                },
            };
            let ghost part = (
                Span { at: position as int, len: zero - position },
                Span { at: zero + 1, len: 20 },
            );
            lines.push(TreeLineIndex { hash, text: RefSlice::new(position, zero - position) });
            proof {
                let before = done;
                done = done.push(part);
                match tree_layout(data@, zero + 21) {
                    Some(rest) => {
                        assert(before + (seq![part] + rest) =~= done + rest);
                    },
                    None => {},
                }
            }
            position = zero + 21;
        }
        proof {
            assert(done + Seq::<(Span, Span)>::empty() =~= done);
        }
        proof {
            assert(layout_of(lines@) =~= done);
        }
        let tree = Tree { object_hash, lines, bytes, bytes_start: start };
        Ok(tree)
    }

    /// The identifier that the tree holds.
    pub fn hash(&self) -> (hash: &TreeHash)
        ensures
            *hash == self.spec_hash(),
    {
        &self.object_hash
    }

    /// The entries of the tree, in order. Each has a valid text.
    pub fn lines(&self) -> (lines: Vec<TreeLine<'_>>)
        ensures
            lines_view(lines@) == self@,
            valid_entries(self@),
    {
        proof {
            use_type_invariant(self);
            lemma_tree_roundtrip(self.bytes@, self.bytes_start as int);
        }
        let mut result: Vec<TreeLine<'_>> = Vec::new();
        let mut i: usize = 0;
        while i < self.lines.len()
            invariant
                i <= self.lines@.len(),
                result@.len() == i,
                self.layout().len() == self.lines@.len(),
                forall|j: int|
                    0 <= j < self.lines@.len() ==> (#[trigger] self.lines@[j]).text is Referenced
                        && self.lines@[j].hash@ == self.layout()[j].1.of(self.bytes@),
                forall|j: int|
                    0 <= j < self.layout().len() ==> (#[trigger] self.layout()[j]).0.inside(
                        self.bytes@,
                    ),
                forall|j: int| 0 <= j < i ==> (#[trigger] result@[j])@ == self@[j],
            decreases self.lines@.len() - i,
        {
            let line = &self.lines[i];
            assert(self.layout()[i as int].0.inside(self.bytes@));
            let text = line.text.get(self.bytes.as_slice());
            result.push(TreeLine { hash: line.hash, text });
            i += 1;
        }
        assert(lines_view(result@) =~= self@);
        result
    }

    /// The buffer of the tree with the place where its payload starts.
    pub fn bytes(self) -> (written: WriteBytes)
        ensures
            written@ == tree_payload(self@),
    {
        proof {
            use_type_invariant(&self);
            lemma_tree_roundtrip(self.bytes@, self.bytes_start as int);
        }
        WriteBytes::new(self.bytes, self.bytes_start)
    }

    /// The tree of these entries, under the identifier of its payload.
    /// Fails with `MalformedObject` where the text of an entry is not valid.
    #[verifier::rlimit(30)]
    pub fn from_iter(lines: &Vec<TreeLine<'_>>) -> (made: Result<Tree, GitError>)
        ensures
            valid_entries(lines_view(lines@)) ==> made is Ok && made->Ok_0@ == lines_view(lines@)
                && made->Ok_0.spec_hash()@ == object_id(
                kind_tree(),
                tree_payload(lines_view(lines@)),
            ),
            !valid_entries(lines_view(lines@)) ==> made is Err && made->Err_0
                == GitError::MalformedObject,
    {
        let ghost entries = lines_view(lines@);
        let mut buf: Vec<u8> = Vec::new();
        let mut i: usize = 0;
        proof {
            assert(entries.take(0) =~= Seq::<EntryView>::empty());
        }
        while i < lines.len()
            invariant
                i <= lines@.len(),
                entries == lines_view(lines@),
                buf@ == tree_payload(entries.take(i as int)),
                valid_entries(entries.take(i as int)),
            decreases lines@.len() - i,
        {
            let line = &lines[i];
            let space = find_byte(line.text, 0, 32);
            let zero = find_byte(line.text, 0, 0);
            if space < 1 || space >= line.text.len() || zero < line.text.len() {
                assert(!valid_text(entries[i as int].text));
                return Err(GitError::MalformedObject);
            }
            let ghost before = buf@;
            buf.extend_from_slice(line.text);
            buf.push(0u8);
            buf.extend_from_slice(line.hash.0.bytes.as_slice());
            proof {
                let entry = entries[i as int];
                lemma_tree_payload_single(entry);
                lemma_tree_payload_concat(entries.take(i as int), seq![entry]);
                assert(entries.take(i + 1) =~= entries.take(i as int) + seq![entry]);
                assert(buf@ =~= before + (entry.text + seq![0u8] + entry.hash));
                assert forall|j: int| 0 <= j < i + 1 implies valid_text(
                    (#[trigger] entries.take(i + 1)[j]).text,
                ) && entries.take(i + 1)[j].hash.len() == 20 by {
                    if j < i {
                        assert(entries.take(i + 1)[j] == entries.take(i as int)[j]);
                    }
                }
            }
            i += 1;
        }
        proof {
            assert(entries.take(lines@.len() as int) =~= entries);
            lemma_tree_reparse(entries);
        }
        let word = tree_kind();
        let object_hash = calculate_hash(buf.as_slice(), word.as_slice());
        Tree::create(TreeHash(object_hash), buf, false)
    }
}

} // verus!
