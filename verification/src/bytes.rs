use vstd::prelude::*;
use vstd::slice::slice_subrange;

verus! {

/// `data` holds `prefix` from `at` on.
pub open spec fn starts_with_at(data: Seq<u8>, at: int, prefix: Seq<u8>) -> bool {
    0 <= at && at + prefix.len() <= data.len() && data.subrange(at, at + prefix.len()) == prefix
}

/// `data` starts with `prefix`.
pub open spec fn starts_with(data: Seq<u8>, prefix: Seq<u8>) -> bool {
    starts_with_at(data, 0, prefix)
}

/// `data` ends with `suffix`.
pub open spec fn ends_with(data: Seq<u8>, suffix: Seq<u8>) -> bool {
    suffix.len() <= data.len() && data.subrange(data.len() - suffix.len(), data.len() as int)
        == suffix
}

/// Where `needle` first stands in `data` at or behind `from`; the length of
/// `data` where it does not.
pub open spec fn first_at(data: Seq<u8>, from: int, needle: u8) -> int
    decreases data.len() - from,
{
    if from < 0 || from >= data.len() {
        data.len() as int
    } else if data[from] == needle {
        from
    } else {
        first_at(data, from + 1, needle)
    }
}

/// Where `needle` last stands in `data`; -1 where it does not.
pub open spec fn last_index(data: Seq<u8>, needle: u8) -> int
    decreases data.len(),
{
    if data.len() == 0 {
        -1
    } else if data.last() == needle {
        data.len() - 1
    } else {
        last_index(data.drop_last(), needle)
    }
}

/// What [`first_at`] gives lies between `from` and the end, `needle` stands
/// there unless it is the end, and `needle` stands nowhere before.
pub proof fn lemma_first_at(data: Seq<u8>, from: int, needle: u8)
    requires
        0 <= from <= data.len(),
    ensures
        from <= first_at(data, from, needle) <= data.len(),
        first_at(data, from, needle) < data.len() ==> data[first_at(data, from, needle)] == needle,
        forall|i: int| from <= i < first_at(data, from, needle) ==> data[i] != needle,
    decreases data.len() - from,
{
    if from < data.len() && data[from] != needle {
        lemma_first_at(data, from + 1, needle);
    }
}

/// A place that has what [`lemma_first_at`] states is what [`first_at`]
/// gives.
pub proof fn lemma_first_at_is(data: Seq<u8>, from: int, needle: u8, found: int)
    requires
        0 <= from <= found <= data.len(),
        found < data.len() ==> data[found] == needle,
        forall|i: int| from <= i < found ==> data[i] != needle,
    ensures
        first_at(data, from, needle) == found,
    decreases data.len() - from,
{
    if from < found {
        lemma_first_at_is(data, from + 1, needle, found);
    }
}

/// What [`last_index`] gives lies inside `data` or is -1, `needle` stands
/// there unless it is -1, and `needle` stands nowhere behind.
pub proof fn lemma_last_index(data: Seq<u8>, needle: u8)
    ensures
        -1 <= last_index(data, needle) < data.len(),
        last_index(data, needle) >= 0 ==> data[last_index(data, needle)] == needle,
        forall|i: int| last_index(data, needle) < i < data.len() ==> data[i] != needle,
    decreases data.len(),
{
    if data.len() > 0 && data.last() != needle {
        lemma_last_index(data.drop_last(), needle);
        assert forall|i: int| last_index(data, needle) < i < data.len() implies data[i]
            != needle by {
            if i < data.len() - 1 {
                assert(data.drop_last()[i] == data[i]);
            }
        }
    }
}

/// A place that has what [`lemma_last_index`] states is what [`last_index`]
/// gives.
pub proof fn lemma_last_index_is(data: Seq<u8>, needle: u8, found: int)
    requires
        -1 <= found < data.len(),
        found >= 0 ==> data[found] == needle,
        forall|i: int| found < i < data.len() ==> data[i] != needle,
    ensures
        last_index(data, needle) == found,
    decreases data.len(),
{
    if data.len() > 0 && found < data.len() - 1 {
        assert(data.last() == data[data.len() - 1]);
        assert forall|i: int| found < i < data.drop_last().len() implies data.drop_last()[i]
            != needle by {
            assert(data.drop_last()[i] == data[i]);
        }
        if found >= 0 {
            assert(data.drop_last()[found] == data[found]);
        }
        lemma_last_index_is(data.drop_last(), needle, found);
    }
}

/// `memchr::memchr`: where `needle` first stands in `haystack`, if it does.
#[verifier::external_body]
fn memchr(needle: u8, haystack: &[u8]) -> (found: Option<usize>)
    ensures
        found is Some ==> found->Some_0 < haystack@.len() && haystack@[found->Some_0 as int]
            == needle,
        found is Some ==> forall|i: int| 0 <= i < found->Some_0 ==> haystack@[i] != needle,
        found is None ==> forall|i: int| 0 <= i < haystack@.len() ==> haystack@[i] != needle,
{
    memchr::memchr(needle, haystack)
}

/// Where `needle` first stands in `data` at or behind `from`; the length of
/// `data` where it does not.
pub fn find_byte(data: &[u8], from: usize, needle: u8) -> (found: usize)
    requires
        from <= data@.len(),
    ensures
        found == first_at(data@, from as int, needle),
        from <= found <= data@.len(),
{
    let rest = slice_subrange(data, from, data.len());
    match memchr(needle, rest) {
        Some(i) => {
            proof {
                assert forall|j: int| from <= j < from + i implies data@[j] != needle by {
                    assert(rest@[j - from] == data@[j]);
                }
                assert(rest@[i as int] == data@[from + i]);
                lemma_first_at_is(data@, from as int, needle, from + i);
            }
            from + i
        },
        None => {
            proof {
                assert forall|j: int| from <= j < data@.len() implies data@[j] != needle by {
                    assert(rest@[j - from] == data@[j]);
                }
                lemma_first_at_is(data@, from as int, needle, data@.len() as int);
            }
            data.len()
        },
    }
}

/// Where `needle` last stands in `path`, if it does.
pub fn last_index_of(path: &[u8], needle: u8) -> (found: Option<usize>)
    ensures
        found is Some ==> found->Some_0 == last_index(path@, needle),
        found is None ==> last_index(path@, needle) == -1,
{
    let mut i = path.len();
    while i > 0
        invariant
            i <= path@.len(),
            forall|j: int| i <= j < path@.len() ==> path@[j] != needle,
        decreases i,
    {
        i -= 1;
        if path[i] == needle {
            proof {
                lemma_last_index_is(path@, needle, i as int);
            }
            return Some(i);
        }
    }
    proof {
        lemma_last_index_is(path@, needle, -1);
    }
    None
}

/// Whether `data` holds `prefix` from `at` on.
pub fn has_prefix_at(data: &[u8], at: usize, prefix: &[u8]) -> (holds: bool)
    ensures
        holds == starts_with_at(data@, at as int, prefix@),
{
    let n = prefix.len();
    let total = data.len();
    if at > total || n > total - at {
        return false;
    }
    let mut i: usize = 0;
    while i < n
        invariant
            i <= n,
            n == prefix@.len(),
            total == data@.len(),
            at + n <= total,
            forall|j: int| 0 <= j < i ==> data@[at + j] == prefix@[j],
        decreases n - i,
    {
        if data[at + i] != prefix[i] {
            assert(data@.subrange(at as int, at + n)[i as int] != prefix@[i as int]);
            return false;
        }
        i += 1;
    }
    assert(data@.subrange(at as int, at + n) =~= prefix@);
    true
}

/// Whether `data` starts with `prefix`.
pub fn has_prefix(data: &[u8], prefix: &[u8]) -> (holds: bool)
    ensures
        holds == starts_with(data@, prefix@),
{
    has_prefix_at(data, 0, prefix)
}

/// Whether `data` ends with `suffix`.
pub fn has_suffix(data: &[u8], suffix: &[u8]) -> (holds: bool)
    ensures
        holds == ends_with(data@, suffix@),
{
    if suffix.len() > data.len() {
        return false;
    }
    has_prefix_at(data, data.len() - suffix.len(), suffix)
}

/// Whether the two hold the same bytes.
pub fn same_bytes(a: &[u8], b: &[u8]) -> (equal: bool)
    ensures
        equal == (a@ == b@),
{
    if a.len() != b.len() {
        return false;
    }
    let holds = has_prefix_at(a, 0, b);
    proof {
        assert(a@.subrange(0, a@.len() as int) =~= a@);
    }
    holds
}

/// The content of the line that starts at `from`, as where it ends, and
/// where the next line starts. A line ends before a line feed, or before a
/// carriage return that a line feed follows, or at the end of the data.
pub open spec fn line_at(data: Seq<u8>, from: int) -> (int, int) {
    let feed = first_at(data, from, 10);
    if feed >= data.len() {
        (data.len() as int, data.len() as int)
    } else if feed > from && data[feed - 1] == 13 {
        (feed - 1, feed + 1)
    } else {
        (feed, feed + 1)
    }
}

/// Where the line that starts at `from` ends, and where the next line
/// starts.
pub fn next_line(data: &[u8], from: usize) -> (bounds: (usize, usize))
    requires
        from < data@.len(),
    ensures
        (bounds.0 as int, bounds.1 as int) == line_at(data@, from as int),
        from <= bounds.0 <= bounds.1 <= data@.len(),
        from < bounds.1,
{
    let total = data.len();
    let feed = find_byte(data, from, 10);
    if feed >= total {
        (total, total)
    } else if feed > from && data[feed - 1] == 13 {
        (feed - 1, feed + 1)
    } else {
        (feed, feed + 1)
    }
}

/// The lines of `data` from `from` on: the content of each, without the
/// line feed, or the carriage return and line feed, that ends it.
pub open spec fn lines_from(data: Seq<u8>, from: int) -> Seq<Seq<u8>>
    decreases data.len() - from,
{
    if from < 0 || from >= data.len() {
        Seq::empty()
    } else {
        let (end, next) = line_at(data, from);
        if next <= from || end < from {
            Seq::empty()
        } else {
            seq![data.subrange(from, end)] + lines_from(data, next)
        }
    }
}

/// The lines as plain values.
pub open spec fn lines_of(lines: Seq<Vec<u8>>) -> Seq<Seq<u8>> {
    Seq::new(lines.len(), |i: int| lines[i]@)
}

/// The lines of `data`: the content of each, without the line feed, or the
/// carriage return and line feed, that ends it.
pub fn split_lines(data: &[u8]) -> (lines: Vec<Vec<u8>>)
    ensures
        lines_of(lines@) == lines_from(data@, 0),
{
    let mut lines: Vec<Vec<u8>> = Vec::new();
    let total = data.len();
    let mut pos: usize = 0;
    proof {
        assert(lines_of(lines@) + lines_from(data@, 0) =~= lines_from(data@, 0));
    }
    while pos < total
        invariant
            pos <= total,
            total == data@.len(),
            lines_of(lines@) + lines_from(data@, pos as int) == lines_from(data@, 0),
        decreases total - pos,
    {
        let (end, next) = next_line(data, pos);
        let ghost before = lines_of(lines@);
        let line = copy_of(slice_subrange(data, pos, end));
        lines.push(line);
        proof {
            let added = data@.subrange(pos as int, end as int);
            assert(lines_of(lines@) =~= before.push(added));
            assert(before + (seq![added] + lines_from(data@, next as int)) =~= lines_of(lines@)
                + lines_from(data@, next as int));
        }
        pos = next;
    }
    proof {
        assert(lines_of(lines@) + Seq::<Seq<u8>>::empty() =~= lines_of(lines@));
    }
    lines
}

/// A copy of `data`.
pub fn copy_of(data: &[u8]) -> (copy: Vec<u8>)
    ensures
        copy@ == data@,
{
    vstd::slice::slice_to_vec(data)
}

/// Whether the `count` bytes of `data` from `at` on are lowercase
/// hexadecimal digits.
pub fn is_hex_at(data: &[u8], at: usize, count: usize) -> (holds: bool)
    ensures
        holds == (at + count <= data@.len() && crate::object_hash::is_hex_lower(
            data@.subrange(at as int, at + count),
        )),
{
    let total = data.len();
    if at > total || count > total - at {
        return false;
    }
    let ghost text = data@.subrange(at as int, at + count);
    let mut i: usize = 0;
    while i < count
        invariant
            i <= count,
            total == data@.len(),
            at + count <= total,
            text == data@.subrange(at as int, at + count),
            forall|j: int| 0 <= j < i ==> (#[trigger] crate::object_hash::hex_value(text[j])) is Some,
        decreases count - i,
    {
        let c = data[at + i];
        let digit = (48 <= c && c <= 57) || (97 <= c && c <= 102);
        assert(text[i as int] == c);
        if !digit {
            assert(crate::object_hash::hex_value(text[i as int]) is None);
            return false;
        }
        i += 1;
    }
    true
}

} // verus!
