use crate::bytes::{
    find_byte, first_at, has_prefix_at, is_hex_at, last_index, last_index_of, lemma_first_at,
    lemma_first_at_is, lemma_last_index, lemma_last_index_is, starts_with_at,
};
use crate::error::GitError;
use crate::object_hash::{
    hex_decoded, hex_lower, is_hex_oid, lemma_hex_decode_encode, CommitHash, TreeHash,
};
use crate::shared::SliceIndexes;
use vstd::prelude::*;
use vstd::slice::slice_subrange;

verus! {

/// A part of a buffer: where it starts and how long it is.
pub struct Span {
    pub at: int,
    pub len: int,
}

impl Span {
    /// The bytes of `data` that the part covers.
    pub open spec fn of(self, data: Seq<u8>) -> Seq<u8> {
        data.subrange(self.at, self.at + self.len)
    }

    /// The part lies inside `data`.
    pub open spec fn inside(self, data: Seq<u8>) -> bool {
        0 <= self.at && 0 <= self.len && self.at + self.len <= data.len()
    }
}

/// The part that a region covers.
pub open spec fn span_of(region: SliceIndexes) -> Span {
    Span { at: region.position as int, len: region.len as int }
}

/// The parts that the regions cover.
pub open spec fn spans_of(regions: Seq<SliceIndexes>) -> Seq<Span> {
    Seq::new(regions.len(), |i: int| span_of(regions[i]))
}

/// Where the fields of a commit lie in its buffer.
pub struct CommitLayout {
    pub tree: Span,
    pub parents: Seq<Span>,
    pub author: Span,
    pub author_time: Span,
    pub committer: Span,
    pub committer_time: Span,
    pub remainder: Span,
}

/// The fields of a commit: the tree and the parents as the 40 hexadecimal
/// digits that name them, the author and the committer without their time,
/// the two times (timestamp and time zone), and everything behind the
/// committer line.
pub struct CommitView {
    pub tree: Seq<u8>,
    pub parents: Seq<Seq<u8>>,
    pub author: Seq<u8>,
    pub author_time: Seq<u8>,
    pub committer: Seq<u8>,
    pub committer_time: Seq<u8>,
    pub remainder: Seq<u8>,
}

/// `"tree "`
pub open spec fn word_tree() -> Seq<u8> {
    seq![116u8, 114u8, 101u8, 101u8, 32u8]
}

/// `"parent "`
pub open spec fn word_parent() -> Seq<u8> {
    seq![112u8, 97u8, 114u8, 101u8, 110u8, 116u8, 32u8]
}

/// `"author "`
pub open spec fn word_author() -> Seq<u8> {
    seq![97u8, 117u8, 116u8, 104u8, 111u8, 114u8, 32u8]
}

/// `"committer "`
pub open spec fn word_committer() -> Seq<u8> {
    seq![99u8, 111u8, 109u8, 109u8, 105u8, 116u8, 116u8, 101u8, 114u8, 32u8]
}

/// `"tree "`
pub fn tree_word() -> (word: [u8; 5])
    ensures
        word@ == word_tree(),
{
    let word: [u8; 5] = [116, 114, 101, 101, 32];
    assert(word@ =~= word_tree());
    word
}

/// `"parent "`
pub fn parent_word() -> (word: [u8; 7])
    ensures
        word@ == word_parent(),
{
    let word: [u8; 7] = [112, 97, 114, 101, 110, 116, 32];
    assert(word@ =~= word_parent());
    word
}

/// `"author "`
pub fn author_word() -> (word: [u8; 7])
    ensures
        word@ == word_author(),
{
    let word: [u8; 7] = [97, 117, 116, 104, 111, 114, 32];
    assert(word@ =~= word_author());
    word
}

/// `"committer "`
pub fn committer_word() -> (word: [u8; 10])
    ensures
        word@ == word_committer(),
{
    let word: [u8; 10] = [99, 111, 109, 109, 105, 116, 116, 101, 114, 32];
    assert(word@ =~= word_committer());
    word
}

/// At `at`, `data` holds a line made of `word`, the 40 hexadecimal digits of
/// an object identifier and a line feed.
pub open spec fn hash_line_at(data: Seq<u8>, at: int, word: Seq<u8>) -> bool {
    &&& starts_with_at(data, at, word)
    &&& at + word.len() + 41 <= data.len()
    &&& is_hex_oid(data.subrange(at + word.len(), at + word.len() + 40))
    &&& data[at + word.len() + 40] == 10
}

/// The parent lines of a commit from `at` on: the part of each that names
/// the parent, and where the first line starts that names none. Nothing
/// where a line starts as a parent line and is none.
pub open spec fn parent_spans(data: Seq<u8>, at: int) -> Option<(Seq<Span>, int)>
    decreases data.len() - at,
{
    if !starts_with_at(data, at, word_parent()) {
        Some((Seq::empty(), at))
    } else if !hash_line_at(data, at, word_parent()) {
        None
    } else {
        match parent_spans(data, at + 48) {
            Some((rest, end)) => Some((seq![Span { at: at + 7, len: 40 }] + rest, end)),
            None => None,
        }
    }
}

/// Where the time of an author or committer line starts: the place of the
/// last but one space of the line, or the length of the line where it holds
/// fewer than two spaces.
pub open spec fn time_index_of(line: Seq<u8>) -> int {
    let last = last_index(line, 32);
    if last < 0 {
        line.len() as int
    } else {
        let before = last_index(line.take(last), 32);
        if before < 0 {
            line.len() as int
        } else {
            before
        }
    }
}

/// The line of an author or a committer at `at`: `word`, then the name and
/// address, a space, the time (a timestamp, a space and a time zone) and a
/// line feed. Gives the part of the name and address, the part of the time
/// and where the next line starts.
pub open spec fn identity_line(data: Seq<u8>, at: int, word: Seq<u8>) -> Option<(Span, Span, int)> {
    if !starts_with_at(data, at, word) {
        None
    } else {
        let from = at + word.len();
        let end = first_at(data, from, 10);
        if end >= data.len() {
            None
        } else {
            let line = data.subrange(from, end);
            let split = time_index_of(line);
            if split >= line.len() {
                None
            } else {
                Some(
                    (
                        Span { at: from, len: split },
                        Span { at: from + split + 1, len: line.len() - split - 1 },
                        end + 1,
                    ),
                )
            }
        }
    }
}

/// Where the fields of the commit lie whose payload starts at `start` of
/// `data`: the tree line, the parent lines, the author line, the committer
/// line, and the rest. Nothing where the payload does not follow this
/// format.
pub open spec fn commit_layout(data: Seq<u8>, start: int) -> Option<CommitLayout> {
    if !hash_line_at(data, start, word_tree()) {
        None
    } else {
        match parent_spans(data, start + 46) {
            None => None,
            Some((parents, after_parents)) => match identity_line(
                data,
                after_parents,
                word_author(),
            ) {
                None => None,
                Some((author, author_time, after_author)) => match identity_line(
                    data,
                    after_author,
                    word_committer(),
                ) {
                    None => None,
                    Some((committer, committer_time, after)) => Some(
                        CommitLayout {
                            tree: Span { at: start + 5, len: 40 },
                            parents,
                            author,
                            author_time,
                            committer,
                            committer_time,
                            remainder: Span { at: after, len: data.len() - after },
                        },
                    ),
                },
            },
        }
    }
}

/// The fields that lie in `data` as `layout` says.
pub open spec fn view_of(data: Seq<u8>, layout: CommitLayout) -> CommitView {
    CommitView {
        tree: layout.tree.of(data),
        parents: Seq::new(layout.parents.len(), |i: int| layout.parents[i].of(data)),
        author: layout.author.of(data),
        author_time: layout.author_time.of(data),
        committer: layout.committer.of(data),
        committer_time: layout.committer_time.of(data),
        remainder: layout.remainder.of(data),
    }
}

/// Where the payload starts in a buffer: at its start, or behind the first
/// zero byte where a preamble is to be left out. Nothing where a preamble is
/// to be left out and there is no zero byte.
pub open spec fn payload_start(data: Seq<u8>, skip_first_null: bool) -> Option<int> {
    if !skip_first_null {
        Some(0)
    } else if first_at(data, 0, 0) >= data.len() {
        None
    } else {
        Some(first_at(data, 0, 0) + 1)
    }
}

/// The fields of the commit that `data` holds, if it holds one.
pub open spec fn parsed_commit(data: Seq<u8>, skip_first_null: bool) -> Option<CommitView> {
    match payload_start(data, skip_first_null) {
        None => None,
        Some(start) => match commit_layout(data, start) {
            None => None,
            Some(layout) => Some(view_of(data, layout)),
        },
    }
}

/// The parent lines of a commit, one for each parent.
pub open spec fn parent_lines(parents: Seq<Seq<u8>>) -> Seq<u8>
    decreases parents.len(),
{
    if parents.len() == 0 {
        Seq::empty()
    } else {
        word_parent() + parents[0] + seq![10u8] + parent_lines(parents.drop_first())
    }
}

/// The payload of a commit with these fields: the tree line, the parent
/// lines, the author line, the committer line and the rest.
pub open spec fn serialized(commit: CommitView) -> Seq<u8> {
    word_tree() + commit.tree + seq![10u8] + parent_lines(commit.parents) + identity_text(
        word_author(),
        commit.author,
        commit.author_time,
    ) + identity_text(word_committer(), commit.committer, commit.committer_time) + commit.remainder
}

/// The line of an author or committer: the word, the name and address, a
/// space, the time and a line feed.
pub open spec fn identity_text(word: Seq<u8>, name: Seq<u8>, time: Seq<u8>) -> Seq<u8> {
    word + name + seq![32u8] + time + seq![10u8]
}

/// The parent lines of parents put one after the other are their parent
/// lines put one after the other.
pub proof fn lemma_parent_lines_concat(first: Seq<Seq<u8>>, second: Seq<Seq<u8>>)
    ensures
        parent_lines(first + second) == parent_lines(first) + parent_lines(second),
    decreases first.len(),
{
    if first.len() == 0 {
        assert(first + second =~= second);
        assert(parent_lines(first) + parent_lines(second) =~= parent_lines(second));
    } else {
        assert((first + second).drop_first() =~= first.drop_first() + second);
        lemma_parent_lines_concat(first.drop_first(), second);
        assert(parent_lines(first + second) =~= parent_lines(first) + parent_lines(second));
    }
}

/// The parent lines that were read lie inside the buffer one behind the
/// other, each names an object, and together they are the bytes between
/// where the reading started and where it ended.
pub proof fn lemma_parent_spans(data: Seq<u8>, at: int)
    requires
        0 <= at <= data.len(),
        parent_spans(data, at) is Some,
    ensures
        at <= parent_spans(data, at)->Some_0.1 <= data.len(),
        parent_spans(data, at)->Some_0.1 == at + 48 * parent_spans(data, at)->Some_0.0.len(),
        forall|i: int|
            0 <= i < parent_spans(data, at)->Some_0.0.len() ==> {
                let span = #[trigger] parent_spans(data, at)->Some_0.0[i];
                span.inside(data) && span.len == 40 && span.at == at + 48 * i + 7 && is_hex_oid(
                    span.of(data),
                )
            },
        parent_lines(
            Seq::new(
                parent_spans(data, at)->Some_0.0.len(),
                |i: int| parent_spans(data, at)->Some_0.0[i].of(data),
            ),
        ) == data.subrange(at, parent_spans(data, at)->Some_0.1),
        !starts_with_at(data, parent_spans(data, at)->Some_0.1, word_parent()),
    decreases data.len() - at,
{
    let spans = parent_spans(data, at)->Some_0.0;
    let end = parent_spans(data, at)->Some_0.1;
    let texts = Seq::new(spans.len(), |i: int| spans[i].of(data));
    if !starts_with_at(data, at, word_parent()) {
        assert(parent_lines(texts) =~= data.subrange(at, end));
    } else {
        lemma_parent_spans(data, at + 48);
        let rest = parent_spans(data, at + 48)->Some_0.0;
        let rest_texts = Seq::new(rest.len(), |i: int| rest[i].of(data));
        assert forall|i: int| 0 <= i < spans.len() implies {
            let span = #[trigger] spans[i];
            span.inside(data) && span.len == 40 && span.at == at + 48 * i + 7 && is_hex_oid(
                span.of(data),
            )
        } by {
            if i > 0 {
                assert(spans[i] == rest[i - 1]);
            }
        }
        assert(texts.drop_first() =~= rest_texts);
        assert(texts[0] == data.subrange(at + 7, at + 47));
        assert(data.subrange(at, at + 7) == word_parent());
        assert(data.subrange(at, end) =~= word_parent() + texts[0] + seq![10u8] + data.subrange(
            at + 48,
            end,
        ));
    }
}

/// The line of an author or committer that was read lies inside the buffer:
/// the word, the name, a space, the time and a line feed, one behind the
/// other.
pub proof fn lemma_identity_line(data: Seq<u8>, at: int, word: Seq<u8>)
    requires
        identity_line(data, at, word) is Some,
    ensures
        ({
            let (name, time, next) = identity_line(data, at, word)->Some_0;
            &&& 0 <= at
            &&& name.at == at + word.len()
            &&& name.len >= 0
            &&& time.at == name.at + name.len + 1
            &&& time.len >= 0
            &&& next == time.at + time.len + 1
            &&& next <= data.len()
            &&& data.subrange(at, next) == identity_text(word, name.of(data), time.of(data))
        }),
{
    let (name, time, next) = identity_line(data, at, word)->Some_0;
    let from = at + word.len();
    lemma_first_at(data, from, 10);
    let end = first_at(data, from, 10);
    let line = data.subrange(from, end);
    lemma_last_index(line, 32);
    let last = last_index(line, 32);
    lemma_last_index(line.take(last), 32);
    let split = time_index_of(line);
    assert(line[split] == 32);
    assert(data.subrange(at, next) =~= identity_text(word, name.of(data), time.of(data)));
}

/// Writing the fields of a commit back gives the payload that they were read
/// from: where `data` holds a commit from `start` on, the payload of its
/// fields is `data` from `start` on. The fields lie inside `data`, and the
/// tree and each parent are named by 40 hexadecimal digits.
#[verifier::rlimit(30)]
pub proof fn lemma_commit_roundtrip(data: Seq<u8>, start: int)
    requires
        0 <= start <= data.len(),
        commit_layout(data, start) is Some,
    ensures
        serialized(view_of(data, commit_layout(data, start)->Some_0)) == data.skip(start),
        ({
            let layout = commit_layout(data, start)->Some_0;
            &&& layout.tree.inside(data)
            &&& is_hex_oid(layout.tree.of(data))
            &&& layout.author.inside(data)
            &&& layout.author_time.inside(data)
            &&& layout.committer.inside(data)
            &&& layout.committer_time.inside(data)
            &&& layout.remainder.inside(data)
            &&& forall|i: int|
                0 <= i < layout.parents.len() ==> (#[trigger] layout.parents[i]).inside(data)
                    && is_hex_oid(layout.parents[i].of(data))
        }),
{
    let layout = commit_layout(data, start)->Some_0;
    let view = view_of(data, layout);
    lemma_parent_spans(data, start + 46);
    let after_parents = parent_spans(data, start + 46)->Some_0.1;
    lemma_identity_line(data, after_parents, word_author());
    let after_author = identity_line(data, after_parents, word_author())->Some_0.2;
    lemma_identity_line(data, after_author, word_committer());
    let after = identity_line(data, after_author, word_committer())->Some_0.2;
    assert(data.subrange(start, start + 5) == word_tree());
    assert(view.parents =~= Seq::new(
        parent_spans(data, start + 46)->Some_0.0.len(),
        |i: int| parent_spans(data, start + 46)->Some_0.0[i].of(data),
    ));
    assert(data.skip(start) =~= data.subrange(start, start + 5) + data.subrange(
        start + 5,
        start + 45,
    ) + seq![10u8] + data.subrange(start + 46, after_parents) + data.subrange(
        after_parents,
        after_author,
    ) + data.subrange(after_author, after) + data.subrange(after, data.len() as int));
}

/// Reading a commit and writing it back changes nothing, and reading what
/// was written gives the same commit: where `payload` holds a commit, the
/// payload of the commit's fields is `payload`, and reading that gives the
/// fields again.
pub proof fn lemma_commit_parse_serialize(payload: Seq<u8>)
    requires
        parsed_commit(payload, false) is Some,
    ensures
        serialized(parsed_commit(payload, false)->Some_0) == payload,
        parsed_commit(serialized(parsed_commit(payload, false)->Some_0), false) == parsed_commit(
            payload,
            false,
        ),
{
    lemma_commit_roundtrip(payload, 0);
    assert(payload.skip(0) =~= payload);
}

/// `byte` stands nowhere in `data`.
pub open spec fn no_byte(data: Seq<u8>, byte: u8) -> bool {
    forall|i: int| 0 <= i < data.len() ==> data[i] != byte
}

/// The only space of `time` stands at `at`.
pub open spec fn one_space(time: Seq<u8>, at: int) -> bool {
    0 <= at < time.len() && time[at] == 32 && forall|i: int|
        0 <= i < time.len() && i != at ==> time[i] != 32
}

/// A time holds no line feed and exactly one space: between the timestamp
/// and the time zone.
pub open spec fn valid_time(time: Seq<u8>) -> bool {
    no_byte(time, 10) && exists|at: int| one_space(time, at)
}

/// The fields can be the fields of a commit: the tree and the parents are
/// named by 40 hexadecimal digits, the author and the committer hold no
/// line feed, and the two times are valid.
pub open spec fn valid_commit(commit: CommitView) -> bool {
    &&& is_hex_oid(commit.tree)
    &&& forall|i: int| 0 <= i < commit.parents.len() ==> is_hex_oid(#[trigger] commit.parents[i])
    &&& no_byte(commit.author, 10)
    &&& no_byte(commit.committer, 10)
    &&& valid_time(commit.author_time)
    &&& valid_time(commit.committer_time)
}

/// Each parent line is 48 bytes long.
pub proof fn lemma_parent_lines_len(parents: Seq<Seq<u8>>)
    requires
        forall|i: int| 0 <= i < parents.len() ==> (#[trigger] parents[i]).len() == 40,
    ensures
        parent_lines(parents).len() == 48 * parents.len(),
    decreases parents.len(),
{
    if parents.len() > 0 {
        let rest = parents.drop_first();
        assert forall|i: int| 0 <= i < rest.len() implies (#[trigger] rest[i]).len() == 40 by {
            assert(rest[i] == parents[i + 1]);
        }
        lemma_parent_lines_len(rest);
    }
}

/// Among the parent lines, the name of parent `index` stands behind the
/// lines of the parents before it and the word of its own line.
pub proof fn lemma_parent_line_at(parents: Seq<Seq<u8>>, index: int)
    requires
        0 <= index < parents.len(),
        forall|i: int| 0 <= i < parents.len() ==> (#[trigger] parents[i]).len() == 40,
    ensures
        parent_lines(parents).len() == 48 * parents.len(),
        parent_lines(parents).subrange(48 * index + 7, 48 * index + 47) == parents[index],
    decreases parents.len(),
{
    let rest = parents.drop_first();
    assert forall|i: int| 0 <= i < rest.len() implies (#[trigger] rest[i]).len() == 40 by {
        assert(rest[i] == parents[i + 1]);
    }
    lemma_parent_lines_len(rest);
    assert(parents[0].len() == 40);
    if index == 0 {
        assert(parent_lines(parents).subrange(7, 47) =~= parents[0]);
    } else {
        lemma_parent_line_at(rest, index - 1);
        assert(rest[index - 1] == parents[index]);
        assert(parent_lines(parents).subrange(48 * index + 7, 48 * index + 47) =~= parent_lines(
            rest,
        ).subrange(48 * (index - 1) + 7, 48 * (index - 1) + 47));
    }
}

/// Behind `before`, the parent lines of `parents` are read as they were
/// written, where what follows is no parent line.
#[verifier::rlimit(30)]
pub proof fn lemma_parents_reparse(before: Seq<u8>, parents: Seq<Seq<u8>>, after: Seq<u8>)
    requires
        forall|i: int| 0 <= i < parents.len() ==> is_hex_oid(#[trigger] parents[i]),
        !starts_with_at(after, 0, word_parent()),
    ensures
        parent_spans(before + parent_lines(parents) + after, before.len() as int) == Some(
            (
                Seq::new(parents.len(), |i: int| Span { at: before.len() + 48 * i + 7, len: 40 }),
                (before.len() + 48 * parents.len()) as int,
            ),
        ),
    decreases parents.len(),
{
    let data = before + parent_lines(parents) + after;
    let at = before.len() as int;
    let word = word_parent();
    if parents.len() == 0 {
        assert(parent_lines(parents) =~= Seq::<u8>::empty());
        assert(data =~= before + after);
        if starts_with_at(data, at, word) {
            assert(after.subrange(0, 7) =~= data.subrange(at, at + 7));
        }
        assert(parent_spans(data, at)->Some_0.0 =~= Seq::new(
            0,
            |i: int| Span { at: before.len() + 48 * i + 7, len: 40 },
        ));
    } else {
        let first = parents[0];
        let rest = parents.drop_first();
        let line = word + first + seq![10u8];
        let next = before + line;
        assert forall|i: int| 0 <= i < rest.len() implies is_hex_oid(#[trigger] rest[i]) by {
            assert(rest[i] == parents[i + 1]);
        }
        assert(is_hex_oid(parents[0]));
        lemma_parents_reparse(next, rest, after);
        assert(data =~= next + parent_lines(rest) + after);
        assert(data.subrange(at, at + 7) =~= word);
        assert(data.subrange(at + 7, at + 47) =~= first);
        assert(data[at + 47] == 10);
        let found = parent_spans(data, at)->Some_0.0;
        let tail = parent_spans(data, at + 48)->Some_0.0;
        assert(found =~= seq![Span { at: at + 7, len: 40 }] + tail);
        assert(found =~= Seq::new(
            parents.len(),
            |i: int| Span { at: before.len() + 48 * i + 7, len: 40 },
        ));
    }
}

/// Behind `before`, the line of an author or committer is read as it was
/// written.
#[verifier::rlimit(30)]
pub proof fn lemma_identity_reparse(
    before: Seq<u8>,
    word: Seq<u8>,
    name: Seq<u8>,
    time: Seq<u8>,
    after: Seq<u8>,
)
    requires
        no_byte(name, 10),
        valid_time(time),
    ensures
        identity_line(before + identity_text(word, name, time) + after, before.len() as int, word)
            == Some(
            (
                Span { at: (before.len() + word.len()) as int, len: name.len() as int },
                Span {
                    at: (before.len() + word.len() + name.len() + 1) as int,
                    len: time.len() as int,
                },
                (before.len() + word.len() + name.len() + time.len() + 2) as int,
            ),
        ),
{
    let data = before + identity_text(word, name, time) + after;
    let at = before.len() as int;
    let from = at + word.len();
    let end = from + name.len() + 1 + time.len();
    let space = choose|space: int| one_space(time, space);
    assert(data.subrange(at, at + word.len()) =~= word);
    assert forall|i: int| from <= i < end implies data[i] != 10 by {
        if i < from + name.len() {
            assert(data[i] == name[i - from]);
        } else if i > from + name.len() {
            assert(data[i] == time[i - from - name.len() - 1]);
        }
    }
    assert(data[end] == 10);
    lemma_first_at_is(data, from, 10, end);
    let line = data.subrange(from, end);
    assert(line =~= name + seq![32u8] + time);
    let last = name.len() + 1 + space;
    assert(line[last] == time[space]);
    assert forall|i: int| last < i < line.len() implies line[i] != 32 by {
        assert(line[i] == time[i - name.len() - 1]);
    }
    lemma_last_index_is(line, 32, last);
    let head = line.take(last);
    assert(head[name.len() as int] == 32);
    assert forall|i: int| name.len() < i < head.len() implies head[i] != 32 by {
        assert(head[i] == time[i - name.len() - 1]);
    }
    lemma_last_index_is(head, 32, name.len() as int);
    assert(time_index_of(line) == name.len());
}

/// The name and the time of a line of an author or committer that was read
/// hold no line feed, and the time is valid.
pub proof fn lemma_identity_valid(data: Seq<u8>, at: int, word: Seq<u8>)
    requires
        identity_line(data, at, word) is Some,
    ensures
        no_byte(identity_line(data, at, word)->Some_0.0.of(data), 10),
        valid_time(identity_line(data, at, word)->Some_0.1.of(data)),
{
    let (name, time, next) = identity_line(data, at, word)->Some_0;
    let from = at + word.len();
    lemma_first_at(data, from, 10);
    let end = first_at(data, from, 10);
    let line = data.subrange(from, end);
    lemma_last_index(line, 32);
    let last = last_index(line, 32);
    let head = line.take(last);
    lemma_last_index(head, 32);
    let split = time_index_of(line);
    let name_text = name.of(data);
    let time_text = time.of(data);
    assert(name_text =~= line.take(split));
    assert(time_text =~= line.skip(split + 1));
    assert forall|i: int| 0 <= i < name_text.len() implies name_text[i] != 10 by {
        assert(name_text[i] == data[from + i]);
    }
    assert forall|i: int| 0 <= i < time_text.len() implies time_text[i] != 10 by {
        assert(time_text[i] == data[from + split + 1 + i]);
    }
    let space = last - split - 1;
    assert(one_space(time_text, space)) by {
        assert(time_text[space] == line[last]);
        assert forall|i: int| 0 <= i < time_text.len() && i != space implies time_text[i]
            != 32 by {
            assert(time_text[i] == line[split + 1 + i]);
            if i < space {
                assert(head[split + 1 + i] == line[split + 1 + i]);
            }
        }
    }
}

/// The fields of a commit that was read are valid.
pub proof fn lemma_parsed_commit_valid(payload: Seq<u8>)
    requires
        parsed_commit(payload, false) is Some,
    ensures
        valid_commit(parsed_commit(payload, false)->Some_0),
{
    lemma_commit_roundtrip(payload, 0);
    lemma_parent_spans(payload, 46);
    let after_parents = parent_spans(payload, 46)->Some_0.1;
    lemma_identity_valid(payload, after_parents, word_author());
    let after_author = identity_line(payload, after_parents, word_author())->Some_0.2;
    lemma_identity_valid(payload, after_author, word_committer());
}

/// Where the fields of a commit lie in the payload that is written for
/// them.
pub open spec fn written_layout(commit: CommitView) -> CommitLayout {
    let author_at = 46 + 48 * commit.parents.len() + 7;
    let committer_at = author_at + commit.author.len() + commit.author_time.len() + 2 + 10;
    let rest_at = committer_at + commit.committer.len() + commit.committer_time.len() + 2;
    CommitLayout {
        tree: Span { at: 5, len: 40 },
        parents: Seq::new(commit.parents.len(), |i: int| Span { at: 46 + 48 * i + 7, len: 40 }),
        author: Span { at: author_at as int, len: commit.author.len() as int },
        author_time: Span {
            at: (author_at + commit.author.len() + 1) as int,
            len: commit.author_time.len() as int,
        },
        committer: Span { at: committer_at as int, len: commit.committer.len() as int },
        committer_time: Span {
            at: (committer_at + commit.committer.len() + 1) as int,
            len: commit.committer_time.len() as int,
        },
        remainder: Span { at: rest_at as int, len: commit.remainder.len() as int },
    }
}

/// The payload that is written for valid fields is read with the fields
/// where they were written.
#[verifier::rlimit(30)]
pub proof fn lemma_written_layout(commit: CommitView)
    requires
        valid_commit(commit),
    ensures
        commit_layout(serialized(commit), 0) == Some(written_layout(commit)),
        serialized(commit).len() == written_layout(commit).remainder.at + commit.remainder.len(),
{
    let data = serialized(commit);
    let head = word_tree() + commit.tree + seq![10u8];
    let lines = parent_lines(commit.parents);
    let author = identity_text(word_author(), commit.author, commit.author_time);
    let committer = identity_text(word_committer(), commit.committer, commit.committer_time);
    let layout = written_layout(commit);
    assert forall|i: int| 0 <= i < commit.parents.len() implies (#[trigger] commit.parents[i]).len()
        == 40 by {
        assert(is_hex_oid(commit.parents[i]));
    }
    lemma_parent_lines_len(commit.parents);
    assert(head.len() == 46);
    assert(author.len() == 7 + commit.author.len() + commit.author_time.len() + 2);
    assert(committer.len() == 10 + commit.committer.len() + commit.committer_time.len() + 2);
    assert(data == head + lines + author + committer + commit.remainder);
    assert(hash_line_at(data, 0, word_tree())) by {
        assert(data.subrange(0, 5) =~= word_tree());
        assert(data.subrange(5, 45) =~= commit.tree);
        assert(data[45] == 10);
    }
    assert(parent_spans(data, 46) == Some(
        (layout.parents, (46 + 48 * commit.parents.len()) as int),
    )) by {
        let after = author + committer + commit.remainder;
        assert(after[0] == 97);
        if starts_with_at(after, 0, word_parent()) {
            assert(after.subrange(0, 7)[0] == word_parent()[0]);
        }
        lemma_parents_reparse(head, commit.parents, after);
        assert(data =~= head + lines + after);
    }
    assert(identity_line(data, (46 + 48 * commit.parents.len()) as int, word_author()) == Some(
        (layout.author, layout.author_time, layout.committer.at - 10),
    )) by {
        lemma_identity_reparse(
            head + lines,
            word_author(),
            commit.author,
            commit.author_time,
            committer + commit.remainder,
        );
        assert(data =~= (head + lines) + author + (committer + commit.remainder));
    }
    assert(identity_line(data, layout.committer.at - 10, word_committer()) == Some(
        (layout.committer, layout.committer_time, layout.remainder.at),
    )) by {
        lemma_identity_reparse(
            head + lines + author,
            word_committer(),
            commit.committer,
            commit.committer_time,
            commit.remainder,
        );
        assert(data =~= (head + lines + author) + committer + commit.remainder);
    }
}

/// The tree and the parents stand in the written payload where
/// [`written_layout`] says.
pub proof fn lemma_written_head(commit: CommitView)
    requires
        commit.tree.len() == 40,
        forall|i: int| 0 <= i < commit.parents.len() ==> (#[trigger] commit.parents[i]).len() == 40,
    ensures
        written_layout(commit).tree.of(serialized(commit)) == commit.tree,
        forall|i: int|
            0 <= i < commit.parents.len() ==> (#[trigger] written_layout(commit).parents[i]).of(
                serialized(commit),
            ) == commit.parents[i],
{
    let data = serialized(commit);
    let lines = parent_lines(commit.parents);
    lemma_parent_lines_len(commit.parents);
    assert(data.subrange(5, 45) =~= commit.tree);
    assert forall|i: int| 0 <= i < commit.parents.len() implies (#[trigger] written_layout(
        commit,
    ).parents[i]).of(data) == commit.parents[i] by {
        lemma_parent_line_at(commit.parents, i);
        assert(data.subrange(46 + 48 * i + 7, 46 + 48 * i + 47) =~= lines.subrange(
            48 * i + 7,
            48 * i + 47,
        ));
    }
}

/// The name and the time of a written line stand where they were put.
pub proof fn lemma_written_identity(
    before: Seq<u8>,
    word: Seq<u8>,
    name: Seq<u8>,
    time: Seq<u8>,
    after: Seq<u8>,
)
    ensures
        (Span { at: (before.len() + word.len()) as int, len: name.len() as int }).of(
            before + identity_text(word, name, time) + after,
        ) == name,
        (Span {
            at: (before.len() + word.len() + name.len() + 1) as int,
            len: time.len() as int,
        }).of(before + identity_text(word, name, time) + after) == time,
{
    let data = before + identity_text(word, name, time) + after;
    let name_at = (before.len() + word.len()) as int;
    let time_at = name_at + name.len() + 1;
    assert(data.subrange(name_at, name_at + name.len()) =~= name);
    assert(data.subrange(time_at, time_at + time.len()) =~= time);
}

/// The author, the committer, the two times and the rest stand in the
/// written payload where [`written_layout`] says.
pub proof fn lemma_written_tail(commit: CommitView)
    requires
        commit.tree.len() == 40,
        forall|i: int| 0 <= i < commit.parents.len() ==> (#[trigger] commit.parents[i]).len() == 40,
    ensures
        written_layout(commit).author.of(serialized(commit)) == commit.author,
        written_layout(commit).author_time.of(serialized(commit)) == commit.author_time,
        written_layout(commit).committer.of(serialized(commit)) == commit.committer,
        written_layout(commit).committer_time.of(serialized(commit)) == commit.committer_time,
        written_layout(commit).remainder.of(serialized(commit)) == commit.remainder,
{
    let data = serialized(commit);
    let start = word_tree() + commit.tree + seq![10u8] + parent_lines(commit.parents);
    let author = identity_text(word_author(), commit.author, commit.author_time);
    let committer = identity_text(word_committer(), commit.committer, commit.committer_time);
    lemma_parent_lines_len(commit.parents);
    assert(start.len() == 46 + 48 * commit.parents.len());
    assert(author.len() == 7 + commit.author.len() + commit.author_time.len() + 2);
    assert(committer.len() == 10 + commit.committer.len() + commit.committer_time.len() + 2);
    assert(data == start + author + committer + commit.remainder);
    assert(written_layout(commit).author.of(data) == commit.author && written_layout(
        commit,
    ).author_time.of(data) == commit.author_time) by {
        lemma_written_identity(
            start,
            word_author(),
            commit.author,
            commit.author_time,
            committer + commit.remainder,
        );
        assert(data =~= start + author + (committer + commit.remainder));
    }
    assert(written_layout(commit).committer.of(data) == commit.committer && written_layout(
        commit,
    ).committer_time.of(data) == commit.committer_time) by {
        lemma_written_identity(
            start + author,
            word_committer(),
            commit.committer,
            commit.committer_time,
            commit.remainder,
        );
    }
    assert(written_layout(commit).remainder.of(data) =~= commit.remainder);
}

/// What is written can be read: the payload of valid fields holds a commit
/// with these fields.
pub proof fn lemma_commit_reparse(commit: CommitView)
    requires
        valid_commit(commit),
    ensures
        parsed_commit(serialized(commit), false) == Some(commit),
{
    let data = serialized(commit);
    let layout = written_layout(commit);
    lemma_written_layout(commit);
    assert forall|i: int| 0 <= i < commit.parents.len() implies (#[trigger] commit.parents[i]).len()
        == 40 by {
        assert(is_hex_oid(commit.parents[i]));
    }
    lemma_written_head(commit);
    lemma_written_tail(commit);
    let found = view_of(data, layout);
    assert(found.parents =~= commit.parents);
}

/// Bytes to be written: a buffer and where in it the payload starts.
#[derive(Debug)]
pub struct WriteBytes {
    pub(crate) bytes: Vec<u8>,
    pub(crate) start: usize,
}

impl View for WriteBytes {
    type V = Seq<u8>;

    /// The payload.
    closed spec fn view(&self) -> Seq<u8> {
        self.bytes@.skip(self.start as int)
    }
}

impl WriteBytes {
    #[verifier::type_invariant]
    spec fn starts_inside(self) -> bool {
        self.start <= self.bytes@.len()
    }

    /// The payload that starts at `start` of `bytes`.
    pub fn new(bytes: Vec<u8>, start: usize) -> (made: WriteBytes)
        requires
            start <= bytes@.len(),
        ensures
            made@ == bytes@.skip(start as int),
    {
        WriteBytes { bytes, start }
    }

    /// The payload.
    pub fn payload(&self) -> (payload: &[u8])
        ensures
            payload@ == self@,
    {
        proof {
            use_type_invariant(self);
        }
        slice_subrange(self.bytes.as_slice(), self.start, self.bytes.len())
    }
}

/// Where the time of an author or committer line starts: the place of the
/// last but one space of `line`, or the length of `line` where it holds
/// fewer than two spaces.
pub fn time_index(line: &[u8]) -> (index: usize)
    ensures
        index == time_index_of(line@),
        index <= line@.len(),
{
    proof {
        lemma_last_index(line@, 32);
    }
    match last_index_of(line, 32) {
        None => line.len(),
        Some(last) => {
            let head = slice_subrange(line, 0, last);
            assert(head@ == line@.take(last as int));
            proof {
                lemma_last_index(head@, 32);
            }
            match last_index_of(head, 32) {
                None => line.len(),
                Some(before) => before,
            }
        },
    }
}

/// Whether `data` holds at `at` a line made of `word`, 40 hexadecimal digits
/// and a line feed.
fn is_hash_line(data: &[u8], at: usize, word: &[u8]) -> (holds: bool)
    ensures
        holds == hash_line_at(data@, at as int, word@),
{
    if !has_prefix_at(data, at, word) {
        return false;
    }
    let total = data.len();
    let from = at + word.len();
    if total - from < 41 {
        return false;
    }
    if !is_hex_at(data, from, 40) {
        return false;
    }
    data[from + 40] == 10
}

/// Reads the line of an author or committer at `at`.
fn read_identity_line(data: &[u8], at: usize, word: &[u8]) -> (read: Option<
    (SliceIndexes, SliceIndexes, usize),
>)
    ensures
        match identity_line(data@, at as int, word@) {
            None => read is None,
            Some((name, time, next)) => read is Some && span_of(read->Some_0.0) == name && span_of(
                read->Some_0.1,
            ) == time && read->Some_0.2 == next,
        },
{
    if !has_prefix_at(data, at, word) {
        return None;
    }
    let total = data.len();
    let from = at + word.len();
    let end = find_byte(data, from, 10);
    if end >= total {
        return None;
    }
    let line = slice_subrange(data, from, end);
    let split = time_index(line);
    if split >= line.len() {
        return None;
    }
    Some(
        (
            SliceIndexes::new(from, split),
            SliceIndexes::new(from + split + 1, line.len() - split - 1),
            end + 1,
        ),
    )
}

/// A commit as it was read: its identifier, its buffer and where its fields
/// lie in the buffer.
#[derive(Debug)]
pub struct CommitBase {
    hash: CommitHash,
    bytes: WriteBytes,
    tree_line: SliceIndexes,
    parents: Vec<SliceIndexes>,
    author: SliceIndexes,
    author_time: SliceIndexes,
    committer: SliceIndexes,
    committer_time: SliceIndexes,
    remainder: SliceIndexes,
}

impl View for CommitBase {
    type V = CommitView;

    closed spec fn view(&self) -> CommitView {
        view_of(self.bytes.bytes@, self.layout())
    }
}

impl CommitBase {
    /// Where the fields lie.
    pub closed spec fn layout(&self) -> CommitLayout {
        CommitLayout {
            tree: span_of(self.tree_line),
            parents: spans_of(self.parents@),
            author: span_of(self.author),
            author_time: span_of(self.author_time),
            committer: span_of(self.committer),
            committer_time: span_of(self.committer_time),
            remainder: span_of(self.remainder),
        }
    }

    #[verifier::type_invariant]
    spec fn well_formed(self) -> bool {
        &&& self.bytes.start <= self.bytes.bytes@.len()
        &&& commit_layout(self.bytes.bytes@, self.bytes.start as int) == Some(self.layout())
    }

    /// The identifier that the commit was read under.
    pub closed spec fn spec_hash(&self) -> CommitHash {
        self.hash
    }

    /// The payload that the commit was read from.
    pub closed spec fn payload(&self) -> Seq<u8> {
        self.bytes@
    }

    /// The payload that the commit was read from. It is the payload of the
    /// commit's fields, and the tree and the parents are named by 40
    /// hexadecimal digits.
    pub fn payload_bytes(&self) -> (payload: &[u8])
        ensures
            payload@ == self.payload(),
            self.payload() == serialized(self@),
            is_hex_oid(self@.tree),
            forall|i: int| 0 <= i < self@.parents.len() ==> is_hex_oid(#[trigger] self@.parents[i]),
    {
        proof {
            use_type_invariant(self);
            use_type_invariant(&self.bytes);
            lemma_commit_roundtrip(self.bytes.bytes@, self.bytes.start as int);
        }
        self.bytes.payload()
    }

    /// Reads a commit from `bytes`. With `skip_first_null` the payload
    /// starts behind the first zero byte, else at the start. Fails with
    /// `MalformedObject` where the payload is no commit.
    #[verifier::rlimit(30)]
    pub fn create(hash: CommitHash, bytes: Vec<u8>, skip_first_null: bool) -> (made: Result<
        CommitBase,
        GitError,
    >)
        ensures
            match parsed_commit(bytes@, skip_first_null) {
                None => made is Err && made->Err_0 == GitError::MalformedObject,
                Some(commit) => made is Ok && made->Ok_0@ == commit && made->Ok_0.spec_hash()
                    == hash && made->Ok_0.payload() == bytes@.skip(
                    payload_start(bytes@, skip_first_null)->Some_0,
                ),
            },
    {
        let data = bytes.as_slice();
        let total = data.len();
        let mut start: usize = 0;
        if skip_first_null {
            let zero = find_byte(data, 0, 0);
            if zero >= total {
                return Err(GitError::MalformedObject);
            }
            start = zero + 1;
        }
        let tree = tree_word();
        if !is_hash_line(data, start, tree.as_slice()) {
            return Err(GitError::MalformedObject);
        }
        let tree_line = SliceIndexes::new(start + 5, 40);
        let first = start + 46;
        let mut pos = first;
        let mut parents: Vec<SliceIndexes> = Vec::new();
        let parent = parent_word();
        proof {
            assert(spans_of(parents@) =~= Seq::<Span>::empty());
            match parent_spans(data@, pos as int) {
                Some((rest, end)) => {
                    assert(spans_of(parents@) + rest =~= rest);
                },
                None => {},
            }
        }
        while has_prefix_at(data, pos, parent.as_slice())
            invariant
                first <= pos <= total,
                first == start + 46,
                total == data@.len(),
                data@ == bytes@,
                payload_start(data@, skip_first_null) == Some(start as int),
                hash_line_at(data@, start as int, word_tree()),
                parent@ == word_parent(),
                match parent_spans(data@, pos as int) {
                    Some((rest, end)) => parent_spans(data@, first as int) == Some(
                        (spans_of(parents@) + rest, end),
                    ),
                    None => parent_spans(data@, first as int) is None,
                },
            decreases total - pos,
        {
            if !is_hash_line(data, pos, parent.as_slice()) {
                return Err(GitError::MalformedObject);
            }
            let ghost before = spans_of(parents@);
            parents.push(SliceIndexes::new(pos + 7, 40));
            proof {
                let added = Span { at: pos + 7, len: 40 };
                assert(spans_of(parents@) =~= before.push(added));
                match parent_spans(data@, pos + 48) {
                    Some((rest, end)) => {
                        assert(before + (seq![added] + rest) =~= spans_of(parents@) + rest);
                    },
                    None => {},
                }
            }
            pos = pos + 48;
        }
        proof {
            assert(parent_spans(data@, pos as int) == Some((Seq::<Span>::empty(), pos as int)));
            assert(spans_of(parents@) + Seq::<Span>::empty() =~= spans_of(parents@));
        }
        let author_w = author_word();
        let (author, author_time, after_author) = match read_identity_line(
            data,
            pos,
            author_w.as_slice(),
        ) {
            Some(read) => read,
            None => {
                return Err(GitError::MalformedObject);
            },
        };
        let committer_w = committer_word();
        proof {
            lemma_identity_line(data@, pos as int, word_author());
        }
        let (committer, committer_time, after) = match read_identity_line(
            data,
            after_author,
            committer_w.as_slice(),
        ) {
            Some(read) => read,
            None => {
                return Err(GitError::MalformedObject);
            },
        };
        proof {
            lemma_identity_line(data@, after_author as int, word_committer());
        }
        let remainder = SliceIndexes::new(after, total - after);
        Ok(
            CommitBase {
                hash,
                bytes: WriteBytes { bytes, start },
                tree_line,
                parents,
                author,
                author_time,
                committer,
                committer_time,
                remainder,
            },
        )
    }

    /// The identifier that the commit was read under.
    pub fn hash(&self) -> (hash: &CommitHash)
        ensures
            *hash == self.spec_hash(),
    {
        &self.hash
    }

    /// The bytes of the field that `region` covers.
    fn field(&self, region: &SliceIndexes) -> (bytes: &[u8])
        requires
            span_of(*region).inside(self.bytes.bytes@),
        ensures
            bytes@ == span_of(*region).of(self.bytes.bytes@),
    {
        region.get(self.bytes.bytes.as_slice())
    }

    /// The parents of the commit.
    pub fn parents(&self) -> (parents: Vec<CommitHash>)
        ensures
            parents@.len() == self@.parents.len(),
            forall|i: int|
                0 <= i < parents@.len() ==> (#[trigger] parents@[i])@ == hex_decoded(
                    self@.parents[i],
                ),
    {
        proof {
            use_type_invariant(self);
            lemma_commit_roundtrip(self.bytes.bytes@, self.bytes.start as int);
        }
        let mut result: Vec<CommitHash> = Vec::new();
        let mut i: usize = 0;
        while i < self.parents.len()
            invariant
                i <= self.parents@.len(),
                self.parents@.len() == self@.parents.len(),
                result@.len() == i,
                forall|j: int|
                    0 <= j < self.parents@.len() ==> (#[trigger] self.layout().parents[j]).inside(
                        self.bytes.bytes@,
                    ) && is_hex_oid(self.layout().parents[j].of(self.bytes.bytes@)),
                forall|j: int|
                    0 <= j < i ==> (#[trigger] result@[j])@ == hex_decoded(self@.parents[j]),
            decreases self.parents@.len() - i,
        {
            assert(self.layout().parents[i as int] == span_of(self.parents@[i as int]));
            let text = self.field(&self.parents[i]);
            match CommitHash::try_from_bstr(text) {
                Ok(hash) => {
                    result.push(hash);
                },
                Err(_) => {
                    assert(false);
                },
            }
            i += 1;
        }
        result
    }

    /// How many parents the commit has.
    pub fn parent_count(&self) -> (count: usize)
        ensures
            count == self@.parents.len(),
    {
        self.parents.len()
    }

    /// The author without the time.
    pub fn author(&self) -> (author: &[u8])
        ensures
            author@ == self@.author,
    {
        proof {
            use_type_invariant(self);
            lemma_commit_roundtrip(self.bytes.bytes@, self.bytes.start as int);
        }
        self.field(&self.author)
    }

    /// The committer without the time.
    pub fn committer(&self) -> (committer: &[u8])
        ensures
            committer@ == self@.committer,
    {
        proof {
            use_type_invariant(self);
            lemma_commit_roundtrip(self.bytes.bytes@, self.bytes.start as int);
        }
        self.field(&self.committer)
    }

    /// The tree of the commit.
    pub fn tree(&self) -> (tree: TreeHash)
        ensures
            tree@ == hex_decoded(self@.tree),
    {
        proof {
            use_type_invariant(self);
            lemma_commit_roundtrip(self.bytes.bytes@, self.bytes.start as int);
        }
        let text = self.field(&self.tree_line);
        match TreeHash::try_from_bstr(text) {
            Ok(hash) => hash,
            Err(_) => {
                assert(false);
                TreeHash(crate::object_hash::ObjectHash::new([0u8; 20]))
            },
        }
    }
}

/// A single parent has a single parent line.
pub proof fn lemma_parent_lines_single(parent: Seq<u8>)
    ensures
        parent_lines(seq![parent]) == word_parent() + parent + seq![10u8],
{
    let single = seq![parent];
    assert(single.drop_first() =~= Seq::<Seq<u8>>::empty());
    assert(parent_lines(single.drop_first()) =~= Seq::<u8>::empty());
    assert(parent_lines(single) =~= word_parent() + parent + seq![10u8]);
}

/// A length as a number that can be addressed, or nothing where it is
/// beyond that.
pub open spec fn addressable(len: nat) -> Option<usize> {
    if len <= usize::MAX {
        Some(len as usize)
    } else {
        None
    }
}

/// How long the payload of a commit is whose tree and parents are named by
/// 40 bytes each: 46 bytes for the tree line, 48 for each parent line, and
/// for the author and the committer the word, the name, a space, the time
/// and a line feed; then the rest.
pub proof fn lemma_serialized_len(commit: CommitView)
    requires
        commit.tree.len() == 40,
        forall|i: int| 0 <= i < commit.parents.len() ==> (#[trigger] commit.parents[i]).len() == 40,
    ensures
        serialized(commit).len() == 46 + 48 * commit.parents.len() + 9 + commit.author.len()
            + commit.author_time.len() + 12 + commit.committer.len() + commit.committer_time.len()
            + commit.remainder.len(),
{
    lemma_parent_lines_len(commit.parents);
    let author = identity_text(word_author(), commit.author, commit.author_time);
    let committer = identity_text(word_committer(), commit.committer, commit.committer_time);
    assert(author.len() == 9 + commit.author.len() + commit.author_time.len());
    assert(committer.len() == 12 + commit.committer.len() + commit.committer_time.len());
}

/// The sum of a length known so far and one more, where it can be
/// addressed.
fn add_len(so_far: Option<usize>, more: usize) -> (sum: Option<usize>)
    ensures
        sum == (match so_far {
            Some(n) => if n + more <= usize::MAX {
                Some((n + more) as usize)
            } else {
                None
            },
            None => None,
        }),
{
    match so_far {
        Some(n) => n.checked_add(more),
        None => None,
    }
}

/// A commit that can be edited: the commit as it was read and, for the
/// tree, each parent, the author and the committer, what is to stand in its
/// place.
#[derive(Debug)]
pub struct CommitEditable {
    base: CommitBase,
    tree: Option<TreeHash>,
    parents: Vec<Option<CommitHash>>,
    author: Option<Vec<u8>>,
    committer: Option<Vec<u8>>,
}

impl View for CommitEditable {
    type V = CommitView;

    /// The fields of the commit, each as it was set or else as it was read.
    closed spec fn view(&self) -> CommitView {
        let base = self.base@;
        CommitView {
            tree: match self.tree {
                Some(tree) => hex_lower(tree@),
                None => base.tree,
            },
            parents: Seq::new(
                base.parents.len(),
                |i: int|
                    match self.parents@[i] {
                        Some(parent) => hex_lower(parent@),
                        None => base.parents[i],
                    },
            ),
            author: match self.author {
                Some(author) => author@,
                None => base.author,
            },
            author_time: base.author_time,
            committer: match self.committer {
                Some(committer) => committer@,
                None => base.committer,
            },
            committer_time: base.committer_time,
            remainder: base.remainder,
        }
    }
}

impl CommitEditable {
    #[verifier::type_invariant]
    spec fn well_formed(self) -> bool {
        self.parents@.len() == self.base@.parents.len()
    }

    /// The commit as it was read.
    pub closed spec fn base(&self) -> CommitBase {
        self.base
    }

    /// Whether a field was set.
    pub closed spec fn edited(&self) -> bool {
        self.tree is Some || self.author is Some || self.committer is Some || exists|i: int|
            0 <= i < self.parents@.len() && (#[trigger] self.parents@[i]) is Some
    }

    /// The commit with nothing set.
    pub fn create(base: CommitBase) -> (commit: CommitEditable)
        ensures
            commit@ == base@,
            commit.base() == base,
            !commit.edited(),
    {
        let mut parents: Vec<Option<CommitHash>> = Vec::new();
        let count = base.parent_count();
        let mut i: usize = 0;
        while i < count
            invariant
                i <= count,
                parents@.len() == i,
                forall|j: int| 0 <= j < i ==> (#[trigger] parents@[j]) is None,
            decreases count - i,
        {
            parents.push(None);
            i += 1;
        }
        let commit = CommitEditable { base, tree: None, author: None, committer: None, parents };
        assert(commit@.parents =~= base@.parents);
        commit
    }

    /// Whether a field was set. A commit with no field set has the fields
    /// that it was read with.
    pub fn has_changes(&self) -> (changed: bool)
        ensures
            changed == self.edited(),
            !changed ==> self@ == self.base()@,
    {
        proof {
            use_type_invariant(self);
        }
        if self.tree.is_some() || self.author.is_some() || self.committer.is_some() {
            return true;
        }
        let mut i: usize = 0;
        while i < self.parents.len()
            invariant
                i <= self.parents@.len(),
                forall|j: int| 0 <= j < i ==> (#[trigger] self.parents@[j]) is None,
            decreases self.parents@.len() - i,
        {
            if self.parents[i].is_some() {
                return true;
            }
            i += 1;
        }
        assert(self@.parents =~= self.base@.parents);
        false
    }

    /// The parents of the commit. Each is named by 40 hexadecimal digits.
    pub fn parents(&self) -> (parents: Vec<CommitHash>)
        ensures
            parents@.len() == self@.parents.len(),
            forall|i: int|
                0 <= i < parents@.len() ==> (#[trigger] parents@[i])@ == hex_decoded(
                    self@.parents[i],
                ),
            forall|i: int| 0 <= i < self@.parents.len() ==> is_hex_oid(#[trigger] self@.parents[i]),
    {
        proof {
            use_type_invariant(self);
        }
        let _payload = self.base.payload_bytes();
        proof {
            assert forall|i: int| 0 <= i < self@.parents.len() implies is_hex_oid(
                #[trigger] self@.parents[i],
            ) by {
                match self.parents@[i] {
                    Some(parent) => {
                        lemma_hex_decode_encode(parent@);
                    },
                    None => {
                        assert(is_hex_oid(self.base@.parents[i]));
                    },
                }
            }
        }
        let read = self.base.parents();
        let mut result: Vec<CommitHash> = Vec::new();
        let mut i: usize = 0;
        while i < self.parents.len()
            invariant
                i <= self.parents@.len(),
                self.parents@.len() == self.base@.parents.len(),
                read@.len() == self.base@.parents.len(),
                forall|j: int|
                    0 <= j < read@.len() ==> (#[trigger] read@[j])@ == hex_decoded(
                        self.base@.parents[j],
                    ),
                result@.len() == i,
                forall|j: int|
                    0 <= j < i ==> (#[trigger] result@[j])@ == hex_decoded(self@.parents[j]),
            decreases self.parents@.len() - i,
        {
            match &self.parents[i] {
                Some(parent) => {
                    proof {
                        lemma_hex_decode_encode(parent@);
                    }
                    result.push(*parent);
                },
                None => {
                    result.push(read[i]);
                },
            }
            i += 1;
        }
        result
    }

    /// The identifier that the commit was read under.
    pub fn base_hash(&self) -> (hash: &CommitHash)
        ensures
            *hash == self.base().spec_hash(),
    {
        self.base.hash()
    }

    /// The tree of the commit.
    pub fn tree(&self) -> (tree: TreeHash)
        ensures
            tree@ == hex_decoded(self@.tree),
    {
        match &self.tree {
            Some(tree) => {
                proof {
                    lemma_hex_decode_encode(tree@);
                }
                *tree
            },
            None => self.base.tree(),
        }
    }

    /// Sets the tree.
    pub fn set_tree(&mut self, value: TreeHash)
        ensures
            final(self)@ == (CommitView { tree: hex_lower(value@), ..old(self)@ }),
            final(self).base() == old(self).base(),
            final(self).edited(),
    {
        proof {
            use_type_invariant(&*self);
        }
        self.tree = Some(value);
        assert(self@.parents =~= old(self)@.parents);
    }

    /// Sets parent `index`.
    pub fn set_parent(&mut self, index: usize, value: CommitHash)
        requires
            index < old(self)@.parents.len(),
        ensures
            final(self)@ == (CommitView {
                parents: old(self)@.parents.update(index as int, hex_lower(value@)),
                ..old(self)@
            }),
            final(self).base() == old(self).base(),
            final(self).edited(),
    {
        proof {
            use_type_invariant(&*self);
        }
        let mut parents: Vec<Option<CommitHash>> = Vec::new();
        let mut i: usize = 0;
        while i < self.parents.len()
            invariant
                i <= self.parents@.len(),
                index < self.parents@.len(),
                parents@.len() == i,
                forall|j: int|
                    0 <= j < i ==> #[trigger] parents@[j] == (if j == index {
                        Some(value)
                    } else {
                        self.parents@[j]
                    }),
            decreases self.parents@.len() - i,
        {
            if i == index {
                parents.push(Some(value));
            } else {
                parents.push(self.parents[i]);
            }
            i += 1;
        }
        self.parents = parents;
        assert(self.parents@[index as int] is Some);
        assert(self@.parents =~= old(self)@.parents.update(index as int, hex_lower(value@)));
    }

    /// The author without the time.
    pub fn author_bytes(&self) -> (author: &[u8])
        ensures
            author@ == self@.author,
    {
        match &self.author {
            Some(author) => author.as_slice(),
            None => self.base.author(),
        }
    }

    /// Sets the author.
    pub fn set_author(&mut self, author: Vec<u8>)
        ensures
            final(self)@ == (CommitView { author: author@, ..old(self)@ }),
            final(self).base() == old(self).base(),
            final(self).edited(),
    {
        proof {
            use_type_invariant(&*self);
        }
        self.author = Some(author);
        assert(self@.parents =~= old(self)@.parents);
    }

    /// The committer without the time.
    pub fn committer_bytes(&self) -> (committer: &[u8])
        ensures
            committer@ == self@.committer,
    {
        match &self.committer {
            Some(committer) => committer.as_slice(),
            None => self.base.committer(),
        }
    }

    /// Sets the committer.
    pub fn set_committer(&mut self, committer: Vec<u8>)
        ensures
            final(self)@ == (CommitView { committer: committer@, ..old(self)@ }),
            final(self).base() == old(self).base(),
            final(self).edited(),
    {
        proof {
            use_type_invariant(&*self);
        }
        self.committer = Some(committer);
        assert(self@.parents =~= old(self)@.parents);
    }

    /// How long the payload of the fields is: the length of what
    /// [`CommitEditable::to_bytes`] writes for an edited commit, or nothing
    /// where that length is beyond what can be addressed.
    fn planned_len(&self) -> (planned: Option<usize>)
        ensures
            planned == addressable(serialized(self@).len()),
    {
        proof {
            use_type_invariant(self);
            use_type_invariant(&self.base);
            lemma_commit_roundtrip(self.base.bytes.bytes@, self.base.bytes.start as int);
            assert forall|i: int| 0 <= i < self@.parents.len() implies (#[trigger] self@.parents[i]).len()
                == 40 by {
                match self.parents@[i] {
                    Some(parent) => {
                        lemma_hex_decode_encode(parent@);
                    },
                    None => {
                        assert(is_hex_oid(self.base@.parents[i]));
                    },
                }
            }
            match self.tree {
                Some(tree) => {
                    lemma_hex_decode_encode(tree@);
                },
                None => {},
            }
            lemma_serialized_len(self@);
        }
        let data = self.base.bytes.bytes.as_slice();
        let mut capacity: Option<usize> = Some(46);
        let mut k: usize = 0;
        while k < self.parents.len()
            invariant
                k <= self.parents@.len(),
                capacity == addressable((46 + 48 * k) as nat),
            decreases self.parents@.len() - k,
        {
            capacity = add_len(capacity, 48);
            k += 1;
        }
        capacity = add_len(capacity, 9);
        capacity = add_len(capacity, self.author_bytes().len());
        capacity = add_len(capacity, self.base.author_time.get(data).len());
        capacity = add_len(capacity, 12);
        capacity = add_len(capacity, self.committer_bytes().len());
        capacity = add_len(capacity, self.base.committer_time.get(data).len());
        capacity = add_len(capacity, self.base.remainder.get(data).len());
        capacity
    }

    /// Writes the tree line and the parent lines.
    #[verifier::rlimit(30)]
    fn write_head(&self, result: &mut Vec<u8>)
        requires
            old(result)@.len() == 0,
        ensures
            final(result)@ == word_tree() + self@.tree + seq![10u8] + parent_lines(self@.parents),
            final(result)@.len() == 46 + 48 * self@.parents.len(),
    {
        proof {
            use_type_invariant(self);
            use_type_invariant(&self.base);
            lemma_commit_roundtrip(self.base.bytes.bytes@, self.base.bytes.start as int);
        }
        let data = self.base.bytes.bytes.as_slice();
        let ghost view = self@;
        let tree_w = tree_word();
        result.extend_from_slice(tree_w.as_slice());
        match &self.tree {
            Some(tree) => {
                let text = tree.to_hex();
                result.extend_from_slice(text.as_slice());
            },
            None => {
                result.extend_from_slice(self.base.tree_line.get(data));
            },
        }
        result.push(10u8);
        assert(result@ =~= word_tree() + view.tree + seq![10u8]);
        let parent_w = parent_word();
        let mut i: usize = 0;
        proof {
            assert(view.parents.take(0) =~= Seq::<Seq<u8>>::empty());
            assert(result@ =~= word_tree() + view.tree + seq![10u8] + parent_lines(
                view.parents.take(0),
            ));
        }
        while i < self.parents.len()
            invariant
                i <= self.parents@.len(),
                view == self@,
                self.parents@.len() == self.base@.parents.len(),
                view.parents.len() == self.parents@.len(),
                parent_w@ == word_parent(),
                data@ == self.base.bytes.bytes@,
                forall|j: int|
                    0 <= j < self.parents@.len() ==> (#[trigger] self.base.layout().parents[j]).inside(
                        data@,
                    ),
                result@ == word_tree() + view.tree + seq![10u8] + parent_lines(
                    view.parents.take(i as int),
                ),
                result@.len() == 46 + 48 * i,
                forall|j: int|
                    0 <= j < self.parents@.len() ==> (#[trigger] self.base@.parents[j]).len() == 40,
            decreases self.parents@.len() - i,
        {
            let ghost before = result@;
            result.extend_from_slice(parent_w.as_slice());
            match &self.parents[i] {
                Some(parent) => {
                    let text = parent.to_hex();
                    result.extend_from_slice(text.as_slice());
                },
                None => {
                    assert(self.base.layout().parents[i as int] == span_of(
                        self.base.parents@[i as int],
                    ));
                    result.extend_from_slice(self.base.parents[i].get(data));
                },
            }
            result.push(10u8);
            proof {
                let parent = view.parents[i as int];
                lemma_parent_lines_single(parent);
                lemma_parent_lines_concat(view.parents.take(i as int), seq![parent]);
                assert(view.parents.take(i + 1) =~= view.parents.take(i as int) + seq![parent]);
                assert(result@ =~= before + (word_parent() + parent + seq![10u8]));
                assert(parent.len() == 40);
            }
            i += 1;
        }
        proof {
            assert(view.parents.take(self.parents@.len() as int) =~= view.parents);
        }
    }

    /// The payload of the commit: where no field was set, the payload that
    /// it was read from; else the tree line, the parent lines, the author
    /// line, the committer line and the rest, written into a buffer of the
    /// length that they add up to.
    pub fn to_bytes(self) -> (written: WriteBytes)
        ensures
            written@ == serialized(self@),
    {
        proof {
            use_type_invariant(&self);
            use_type_invariant(&self.base);
            lemma_commit_roundtrip(self.base.bytes.bytes@, self.base.bytes.start as int);
        }
        if !self.has_changes() {
            return self.base.bytes;
        }
        let capacity = self.planned_len();
        let mut result: Vec<u8> = match capacity {
            Some(n) => Vec::with_capacity(n),
            None => Vec::new(),
        };
        self.write_head(&mut result);
        let data = self.base.bytes.bytes.as_slice();
        let author_w = author_word();
        write_identity(
            &mut result,
            author_w.as_slice(),
            self.author_bytes(),
            self.base.author_time.get(data),
        );
        let committer_w = committer_word();
        write_identity(
            &mut result,
            committer_w.as_slice(),
            self.committer_bytes(),
            self.base.committer_time.get(data),
        );
        result.extend_from_slice(self.base.remainder.get(data));
        let written_len = result.len();
        assert(result@ =~= serialized(self@));
        assert(capacity == Some(written_len));
        WriteBytes { bytes: result, start: 0 }
    }
}

/// Writes the line of an author or committer.
fn write_identity(result: &mut Vec<u8>, word: &[u8], name: &[u8], time: &[u8])
    ensures
        final(result)@ == old(result)@ + identity_text(word@, name@, time@),
        final(result)@.len() == old(result)@.len() + word@.len() + name@.len() + time@.len() + 2,
{
    result.extend_from_slice(word);
    result.extend_from_slice(name);
    result.push(32u8);
    result.extend_from_slice(time);
    result.push(10u8);
    assert(result@ =~= old(result)@ + identity_text(word@, name@, time@));
}

} // verus!
