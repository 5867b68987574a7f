use vstd::prelude::*;

verus! {

/// Items that arrive out of order, each stamped with its place, and are
/// handed on in order.
pub struct ReorderBuffer<T> {
    next: usize,
    waiting: Vec<(usize, T)>,
}

/// The state of a buffer as plain values: the place that is handed on next,
/// and the items that wait, by ascending place.
pub struct BufferView<T> {
    pub next: nat,
    pub waiting: Seq<(usize, T)>,
}

/// The places ascend.
pub open spec fn places_ascend<T>(waiting: Seq<(usize, T)>) -> bool {
    forall|i: int, j: int|
        0 <= i < j < waiting.len() ==> (#[trigger] waiting[i]).0 < (#[trigger] waiting[j]).0
}

/// How many of the first items that wait can be handed on: those whose
/// places are `next`, `next + 1` and so on without a gap.
pub open spec fn ready<T>(waiting: Seq<(usize, T)>, next: nat) -> nat
    decreases waiting.len(),
{
    if waiting.len() > 0 && waiting[0].0 == next {
        1 + ready(waiting.drop_first(), next + 1)
    } else {
        0
    }
}

/// Where an item of place `index` goes among the items that wait: before
/// the first of a higher place.
pub open spec fn place_for<T>(waiting: Seq<(usize, T)>, index: usize) -> nat
    decreases waiting.len(),
{
    if waiting.len() > 0 && waiting[0].0 < index {
        1 + place_for(waiting.drop_first(), index)
    } else {
        0
    }
}

/// Whether an item of place `index` waits.
pub open spec fn waits<T>(waiting: Seq<(usize, T)>, index: usize) -> bool {
    exists|i: int| 0 <= i < waiting.len() && (#[trigger] waiting[i]).0 == index
}

/// The items that wait once `item` of place `index` has arrived: it is put
/// at its place, unless its place was handed on before, is the highest
/// number there is, or an item of that place waits already.
pub open spec fn arrived<T>(buffer: BufferView<T>, index: usize, item: T) -> Seq<(usize, T)> {
    if index < buffer.next || index == usize::MAX || waits(buffer.waiting, index) {
        buffer.waiting
    } else {
        buffer.waiting.insert(place_for(buffer.waiting, index) as int, (index, item))
    }
}

/// The items without their places.
pub open spec fn items_of<T>(waiting: Seq<(usize, T)>) -> Seq<T> {
    Seq::new(waiting.len(), |i: int| waiting[i].1)
}

/// As many items are ready as wait, at most.
pub proof fn lemma_ready_bound<T>(waiting: Seq<(usize, T)>, next: nat)
    ensures
        ready(waiting, next) <= waiting.len(),
        forall|k: int| 0 <= k < ready(waiting, next) ==> (#[trigger] waiting[k]).0 == next + k,
        ready(waiting, next) < waiting.len() ==> waiting[ready(waiting, next) as int].0 != next
            + ready(waiting, next),
    decreases waiting.len(),
{
    if waiting.len() > 0 && waiting[0].0 == next {
        lemma_ready_bound(waiting.drop_first(), next + 1);
        let rest = waiting.drop_first();
        assert forall|k: int| 0 <= k < ready(waiting, next) implies (#[trigger] waiting[k]).0 == next
            + k by {
            if k > 0 {
                assert(rest[k - 1] == waiting[k]);
            }
        }
        if ready(waiting, next) < waiting.len() {
            assert(rest[ready(rest, next + 1) as int] == waiting[ready(waiting, next) as int]);
        }
    }
}

impl<T> View for ReorderBuffer<T> {
    type V = BufferView<T>;

    closed spec fn view(&self) -> BufferView<T> {
        BufferView { next: self.next as nat, waiting: self.waiting@ }
    }
}

impl<T> ReorderBuffer<T> {
    /// The places of the items that wait ascend, and none was handed on
    /// before.
    pub closed spec fn wf(&self) -> bool {
        places_ascend(self.waiting@) && forall|i: int|
            0 <= i < self.waiting@.len() ==> self.next <= (#[trigger] self.waiting@[i]).0
                < usize::MAX
    }

    /// A buffer in which nothing waits and place 0 comes next.
    pub fn new() -> (buffer: ReorderBuffer<T>)
        ensures
            buffer.wf(),
            buffer@.next == 0,
            buffer@.waiting.len() == 0,
    {
        ReorderBuffer { next: 0, waiting: Vec::new() }
    }

    /// Puts the item of place `index` at its place among the items that
    /// wait.
    #[verifier::rlimit(30)]
    fn arrive(&mut self, index: usize, item: T)
        requires
            old(self).wf(),
        ensures
            final(self).wf(),
            final(self)@.next == old(self)@.next,
            final(self)@.waiting == arrived(old(self)@, index, item),
    {
        let ghost before = self.waiting@;
        if index < self.next || index == usize::MAX {
            return ;
        }
        let mut at: usize = 0;
        proof {
            assert(before.skip(0) =~= before);
        }
        while at < self.waiting.len() && self.waiting[at].0 < index
            invariant
                at <= self.waiting@.len(),
                self.waiting@ == before,
                forall|j: int| 0 <= j < at ==> (#[trigger] before[j]).0 < index,
                place_for(before, index) == at + place_for(before.skip(at as int), index),
            decreases self.waiting@.len() - at,
        {
            proof {
                assert(before.skip(at as int)[0] == before[at as int]);
                assert(before.skip(at as int).drop_first() =~= before.skip(at + 1));
            }
            at += 1;
        }
        proof {
            if at < before.len() {
                assert(before.skip(at as int)[0] == before[at as int]);
            }
        }
        let taken = at < self.waiting.len() && self.waiting[at].0 == index;
        proof {
            if taken {
                assert(waits(before, index));
            } else {
                assert forall|i: int| 0 <= i < before.len() implies (#[trigger] before[i]).0
                    != index by {
                    if i > at {
                        assert(before[at as int].0 < before[i].0);
                    }
                }
            }
        }
        if !taken {
            self.waiting.insert(at, (index, item));
            proof {
                let after = self.waiting@;
                assert forall|i: int, j: int| 0 <= i < j < after.len() implies (#[trigger] after[i]).0
                    < (#[trigger] after[j]).0 by {
                    if j < at {
                        assert(after[i] == before[i] && after[j] == before[j]);
                    } else if j == at {
                        assert(after[i] == before[i]);
                    } else if i < at {
                        assert(after[i] == before[i] && after[j] == before[j - 1]);
                        if j - 1 > i {
                            assert(before[i].0 < before[j - 1].0);
                        }
                    } else if i == at {
                        assert(after[j] == before[j - 1]);
                        if j - 1 > at {
                            assert(before[at as int].0 < before[j - 1].0);
                        }
                    } else {
                        assert(after[i] == before[i - 1] && after[j] == before[j - 1]);
                    }
                }
                assert forall|i: int| 0 <= i < after.len() implies self.next <= (
                #[trigger] after[i]).0 < usize::MAX by {
                    if i < at {
                        assert(after[i] == before[i]);
                    } else if i > at {
                        assert(after[i] == before[i - 1]);
                    }
                }
            }
        }
    }

    /// Hands on, in order, the items whose turn has come.
    #[verifier::rlimit(30)]
    fn release(&mut self) -> (released: Vec<T>)
        requires
            old(self).wf(),
        ensures
            final(self).wf(),
            released@ == items_of(old(self)@.waiting).take(
                ready(old(self)@.waiting, old(self)@.next) as int,
            ),
            final(self)@.waiting == old(self)@.waiting.skip(
                ready(old(self)@.waiting, old(self)@.next) as int,
            ),
            final(self)@.next == old(self)@.next + released@.len(),
    {
        let mut released: Vec<T> = Vec::new();
        let ghost all = self.waiting@;
        let ghost first = self.next as nat;
        proof {
            assert(all.skip(0) =~= all);
            assert(items_of(all).take(0) =~= Seq::<T>::empty());
        }
        while self.waiting.len() > 0 && self.waiting[0].0 == self.next
            invariant
                self.wf(),
                self.next == first + released@.len(),
                released@.len() <= all.len(),
                self.waiting@ == all.skip(released@.len() as int),
                released@ == items_of(all).take(released@.len() as int),
                ready(all, first) == released@.len() + ready(self.waiting@, self.next as nat),
            decreases self.waiting@.len(),
        {
            let ghost count = released@.len() as int;
            let ghost rest = self.waiting@;
            proof {
                assert(rest[0] == all[count]);
            }
            let (place, item) = self.waiting.remove(0);
            released.push(item);
            proof {
                assert(self.waiting@ =~= rest.drop_first());
                assert(self.waiting@ =~= all.skip(count + 1));
                assert(items_of(all).take(count + 1) =~= items_of(all).take(count).push(all[count].1));
                assert forall|i: int| 0 <= i < self.waiting@.len() implies self.next + 1 <= (
                #[trigger] self.waiting@[i]).0 < usize::MAX by {
                    assert(self.waiting@[i] == rest[i + 1]);
                    assert(rest[0].0 < rest[i + 1].0);
                }
                assert forall|i: int, j: int| 0 <= i < j < self.waiting@.len() implies (
                #[trigger] self.waiting@[i]).0 < (#[trigger] self.waiting@[j]).0 by {
                    assert(self.waiting@[i] == rest[i + 1]);
                    assert(self.waiting@[j] == rest[j + 1]);
                }
            }
            self.next = self.next + 1;
        }
        released
    }

    /// Takes the item of place `index` and hands on, in order, the items
    /// whose turn has come: those of the next place and of the places that
    /// follow it without a gap. An item whose place was handed on before,
    /// is the highest number there is, or is taken by an item that waits,
    /// is dropped.
    pub fn offer(&mut self, index: usize, item: T) -> (released: Vec<T>)
        requires
            old(self).wf(),
        ensures
            final(self).wf(),
            released@ == items_of(arrived(old(self)@, index, item)).take(
                ready(arrived(old(self)@, index, item), old(self)@.next) as int,
            ),
            final(self)@.waiting == arrived(old(self)@, index, item).skip(
                ready(arrived(old(self)@, index, item), old(self)@.next) as int,
            ),
            final(self)@.next == old(self)@.next + released@.len(),
    {
        self.arrive(index, item);
        self.release()
    }
}

/// What a buffer comes to when items arrive one after the other: all the
/// items that it hands on, in the order in which it hands them on, and the
/// buffer as it is left.
pub open spec fn offered<T>(buffer: BufferView<T>, arrivals: Seq<(usize, T)>) -> (Seq<T>, BufferView<T>)
    decreases arrivals.len(),
{
    if arrivals.len() == 0 {
        (Seq::empty(), buffer)
    } else {
        let (released, before) = offered(buffer, arrivals.drop_last());
        let waiting = arrived(before, arrivals.last().0, arrivals.last().1);
        let count = ready(waiting, before.next);
        (
            released + items_of(waiting).take(count as int),
            BufferView { next: before.next + count, waiting: waiting.skip(count as int) },
        )
    }
}

/// The items arrive under the places 0 to `count - 1`, each place once, in
/// whatever order.
pub open spec fn each_place_once<T>(arrivals: Seq<(usize, T)>, count: nat) -> bool {
    &&& forall|j: int| 0 <= j < arrivals.len() ==> (#[trigger] arrivals[j]).0 < count
    &&& forall|i: int, j: int|
        0 <= i < j < arrivals.len() ==> (#[trigger] arrivals[i]).0 != (#[trigger] arrivals[j]).0
    &&& forall|place: nat| place < count ==> #[trigger] came(arrivals, place)
}

/// An item arrived under this place.
pub open spec fn came<T>(arrivals: Seq<(usize, T)>, place: nat) -> bool {
    exists|j: int| 0 <= j < arrivals.len() && (#[trigger] arrivals[j]).0 == place
}

/// The item waits with its place.
pub open spec fn holds<T>(waiting: Seq<(usize, T)>, pair: (usize, T)) -> bool {
    exists|p: int| 0 <= p < waiting.len() && #[trigger] waiting[p] == pair
}

/// What holds of a buffer after some of the items have arrived: as many
/// items were handed on as the next place says; an item whose place is
/// below the next place was handed on at its place, and any other waits;
/// what waits has arrived, by ascending place above the next place; and
/// every place below the next place is the place of an item that arrived.
pub open spec fn in_order<T>(arrivals: Seq<(usize, T)>, released: Seq<T>, buffer: BufferView<T>) -> bool {
    &&& released.len() == buffer.next
    &&& places_ascend(buffer.waiting)
    &&& forall|p: int| 0 <= p < buffer.waiting.len() ==> (#[trigger] buffer.waiting[p]).0 > buffer.next
    &&& forall|p: int|
        0 <= p < buffer.waiting.len() ==> holds(arrivals, #[trigger] buffer.waiting[p])
    &&& forall|j: int|
        0 <= j < arrivals.len() ==> if (#[trigger] arrivals[j]).0 < buffer.next {
            released[arrivals[j].0 as int] == arrivals[j].1
        } else {
            holds(buffer.waiting, arrivals[j])
        }
    &&& forall|place: nat| place < buffer.next ==> #[trigger] came(arrivals, place)
}

/// Where an item goes among items that wait by ascending place: behind the
/// items of a lower place and before the others.
pub proof fn lemma_place_for<T>(waiting: Seq<(usize, T)>, index: usize)
    requires
        places_ascend(waiting),
    ensures
        place_for(waiting, index) <= waiting.len(),
        forall|p: int| 0 <= p < place_for(waiting, index) ==> (#[trigger] waiting[p]).0 < index,
        forall|p: int|
            place_for(waiting, index) <= p < waiting.len() ==> (#[trigger] waiting[p]).0 >= index,
    decreases waiting.len(),
{
    if waiting.len() > 0 && waiting[0].0 < index {
        let rest = waiting.drop_first();
        assert forall|i: int, j: int| 0 <= i < j < rest.len() implies (#[trigger] rest[i]).0 < (
        #[trigger] rest[j]).0 by {
            assert(rest[i] == waiting[i + 1]);
            assert(rest[j] == waiting[j + 1]);
        }
        lemma_place_for(rest, index);
        assert forall|p: int| 0 <= p < place_for(waiting, index) implies (#[trigger] waiting[p]).0
            < index by {
            if p > 0 {
                assert(rest[p - 1] == waiting[p]);
            }
        }
        assert forall|p: int| place_for(waiting, index) <= p < waiting.len() implies (
        #[trigger] waiting[p]).0 >= index by {
            assert(rest[p - 1] == waiting[p]);
        }
    } else {
        assert forall|p: int| 0 <= p < waiting.len() implies (#[trigger] waiting[p]).0 >= index by {
            if p > 0 {
                assert(waiting[0].0 < waiting[p].0);
            }
        }
    }
}

/// An item that is taken waits at its place among the others, which wait
/// as before.
pub proof fn lemma_arrived<T>(buffer: BufferView<T>, index: usize, item: T)
    requires
        places_ascend(buffer.waiting),
        index >= buffer.next,
        index != usize::MAX,
        !waits(buffer.waiting, index),
    ensures
        places_ascend(arrived(buffer, index, item)),
        holds(arrived(buffer, index, item), (index, item)),
        forall|pair: (usize, T)|
            holds(buffer.waiting, pair) ==> #[trigger] holds(arrived(buffer, index, item), pair),
        forall|p: int|
            0 <= p < arrived(buffer, index, item).len() ==> (#[trigger] arrived(
                buffer,
                index,
                item,
            )[p]) == (index, item) || holds(buffer.waiting, arrived(buffer, index, item)[p]),
{
    let before = buffer.waiting;
    let at = place_for(before, index) as int;
    let after = arrived(buffer, index, item);
    lemma_place_for(before, index);
    assert forall|p: int| at <= p < before.len() implies (#[trigger] before[p]).0 > index by {
        if before[p].0 == index {
            assert(waits(before, index));
        }
    }
    assert forall|i: int, j: int| 0 <= i < j < after.len() implies (#[trigger] after[i]).0 < (
    #[trigger] after[j]).0 by {
        if j < at {
            assert(after[i] == before[i] && after[j] == before[j]);
        } else if j == at {
            assert(after[i] == before[i]);
        } else if i < at {
            assert(after[i] == before[i] && after[j] == before[j - 1]);
            if j - 1 > i {
                assert(before[i].0 < before[j - 1].0);
            }
        } else if i == at {
            assert(after[j] == before[j - 1]);
        } else {
            assert(after[i] == before[i - 1] && after[j] == before[j - 1]);
        }
    }
    assert(after[at] == (index, item));
    assert forall|pair: (usize, T)| holds(before, pair) implies #[trigger] holds(after, pair) by {
        let p = choose|p: int| 0 <= p < before.len() && #[trigger] before[p] == pair;
        if p < at {
            assert(after[p] == pair);
        } else {
            assert(after[p + 1] == pair);
        }
    }
    assert forall|p: int| 0 <= p < after.len() implies (#[trigger] after[p]) == (index, item)
        || holds(before, after[p]) by {
        if p < at {
            assert(before[p] == after[p]);
        } else if p > at {
            assert(before[p - 1] == after[p]);
        }
    }
}

/// One more arrival keeps a buffer in order, where its place is a new one.
#[verifier::rlimit(50)]
pub proof fn lemma_offer_in_order<T>(
    arrivals: Seq<(usize, T)>,
    released: Seq<T>,
    buffer: BufferView<T>,
    index: usize,
    item: T,
)
    requires
        in_order(arrivals, released, buffer),
        index != usize::MAX,
        !came(arrivals, index as nat),
    ensures
        in_order(
            arrivals.push((index, item)),
            released + items_of(arrived(buffer, index, item)).take(
                ready(arrived(buffer, index, item), buffer.next) as int,
            ),
            BufferView {
                next: buffer.next + ready(arrived(buffer, index, item), buffer.next),
                waiting: arrived(buffer, index, item).skip(
                    ready(arrived(buffer, index, item), buffer.next) as int,
                ),
            },
        ),
{
    let more = arrivals.push((index, item));
    let waiting = arrived(buffer, index, item);
    let count = ready(waiting, buffer.next) as int;
    let handed = released + items_of(waiting).take(count);
    let next = buffer.next + count;
    let left = waiting.skip(count);
    assert(index >= buffer.next) by {
        if index < buffer.next {
            assert(came(arrivals, index as nat));
        }
    }
    assert(!waits(buffer.waiting, index)) by {
        if waits(buffer.waiting, index) {
            let p = choose|p: int| 0 <= p < buffer.waiting.len() && (#[trigger] buffer.waiting[p]).0 == index;
            assert(holds(arrivals, buffer.waiting[p]));
            let j = choose|j: int| 0 <= j < arrivals.len() && #[trigger] arrivals[j] == buffer.waiting[p];
            assert(arrivals[j].0 == index);
        }
    }
    lemma_arrived(buffer, index, item);
    lemma_ready_bound(waiting, buffer.next);
    assert forall|p: int| 0 <= p < waiting.len() implies (#[trigger] waiting[p]).0 >= buffer.next by {
        if waiting[p] != (index, item) {
            let q = choose|q: int| 0 <= q < buffer.waiting.len() && #[trigger] buffer.waiting[q] == waiting[p];
        }
    }
    assert forall|i: int, j: int| 0 <= i < j < left.len() implies (#[trigger] left[i]).0 < (
    #[trigger] left[j]).0 by {
        assert(left[i] == waiting[i + count]);
        assert(left[j] == waiting[j + count]);
    }
    assert forall|p: int| 0 <= p < left.len() implies (#[trigger] left[p]).0 > next by {
        assert(left[p] == waiting[p + count]);
        assert(left[0] == waiting[count]);
        if p > 0 {
            assert(left[0].0 < left[p].0);
        }
        if count > 0 {
            assert(waiting[count - 1].0 == buffer.next + count - 1);
            assert(waiting[count - 1].0 < waiting[count].0);
        }
    }
    assert forall|p: int| 0 <= p < left.len() implies holds(more, #[trigger] left[p]) by {
        let pair = waiting[p + count];
        assert(left[p] == pair);
        if pair == (index, item) {
            assert(more[arrivals.len() as int] == pair);
        } else {
            assert(holds(buffer.waiting, pair));
            let q = choose|q: int| 0 <= q < buffer.waiting.len() && #[trigger] buffer.waiting[q] == pair;
            assert(holds(arrivals, buffer.waiting[q]));
            let j = choose|j: int| 0 <= j < arrivals.len() && #[trigger] arrivals[j] == pair;
            assert(more[j] == pair);
        }
    }
    assert forall|j: int| 0 <= j < more.len() implies if (#[trigger] more[j]).0 < next {
        handed[more[j].0 as int] == more[j].1
    } else {
        holds(left, more[j])
    } by {
        let pair = more[j];
        if j < arrivals.len() && arrivals[j].0 < buffer.next {
            assert(pair == arrivals[j]);
            assert(handed[pair.0 as int] == released[pair.0 as int]);
        } else {
            if j < arrivals.len() {
                assert(pair == arrivals[j]);
                assert(holds(buffer.waiting, pair));
            }
            assert(holds(waiting, pair));
            let q = choose|q: int| 0 <= q < waiting.len() && #[trigger] waiting[q] == pair;
            if q < count {
                assert(waiting[q].0 == buffer.next + q);
                assert(handed[buffer.next + q] == items_of(waiting).take(count)[q]);
            } else {
                assert(left[q - count] == pair);
                if count > 0 {
                    assert(waiting[count - 1].0 == buffer.next + count - 1);
                    if q > count - 1 {
                        assert(waiting[count - 1].0 < waiting[q].0);
                    }
                }
            }
        }
    }
    assert forall|place: nat| place < next implies #[trigger] came(more, place) by {
        if place < buffer.next {
            assert(came(arrivals, place));
            let j = choose|j: int| 0 <= j < arrivals.len() && (#[trigger] arrivals[j]).0 == place;
            assert(more[j].0 == place);
        } else {
            let q = place - buffer.next;
            let pair = waiting[q];
            assert(pair.0 == place);
            if pair == (index, item) {
                assert(more[arrivals.len() as int].0 == place);
            } else {
                assert(holds(buffer.waiting, pair));
                let p = choose|p: int| 0 <= p < buffer.waiting.len() && #[trigger] buffer.waiting[p] == pair;
                assert(holds(arrivals, buffer.waiting[p]));
                let j = choose|j: int| 0 <= j < arrivals.len() && #[trigger] arrivals[j] == pair;
                assert(more[j].0 == place);
            }
        }
    }
}

/// Whatever the order of arrival: where the items arrive under the places 0
/// to `count - 1`, each place once, a buffer in which nothing waits and
/// place 0 comes next hands on every item, each at its place, and nothing
/// is left waiting.
pub proof fn lemma_offered_in_order<T>(arrivals: Seq<(usize, T)>, count: nat)
    requires
        each_place_once(arrivals, count),
        count <= usize::MAX,
    ensures
        offered(BufferView { next: 0, waiting: Seq::empty() }, arrivals).0.len() == count,
        offered(BufferView { next: 0, waiting: Seq::empty() }, arrivals).1.next == count,
        offered(BufferView { next: 0, waiting: Seq::empty() }, arrivals).1.waiting.len() == 0,
        forall|j: int|
            0 <= j < arrivals.len() ==> offered(
                BufferView { next: 0, waiting: Seq::empty() },
                arrivals,
            ).0[(#[trigger] arrivals[j]).0 as int] == arrivals[j].1,
{
    let fresh = BufferView::<T> { next: 0, waiting: Seq::empty() };
    lemma_offered_prefix(arrivals, arrivals.len());
    assert(arrivals.take(arrivals.len() as int) =~= arrivals);
    let (released, buffer) = offered(fresh, arrivals);
    if buffer.next < count {
        assert(came(arrivals, buffer.next));
        let j = choose|j: int| 0 <= j < arrivals.len() && (#[trigger] arrivals[j]).0 == buffer.next;
        assert(holds(buffer.waiting, arrivals[j]));
        let p = choose|p: int| 0 <= p < buffer.waiting.len() && #[trigger] buffer.waiting[p] == arrivals[j];
        assert(buffer.waiting[p].0 > buffer.next);
    }
    if buffer.next > count {
        assert(came(arrivals, count));
        let j = choose|j: int| 0 <= j < arrivals.len() && (#[trigger] arrivals[j]).0 == count;
    }
    if buffer.waiting.len() > 0 {
        assert(holds(arrivals, buffer.waiting[0]));
        let j = choose|j: int| 0 <= j < arrivals.len() && #[trigger] arrivals[j] == buffer.waiting[0];
        assert(arrivals[j].0 < count);
    }
}

/// After the first `taken` of the items have arrived, each under a place
/// of its own, the buffer is in order.
pub proof fn lemma_offered_prefix<T>(arrivals: Seq<(usize, T)>, taken: nat)
    requires
        taken <= arrivals.len(),
        forall|j: int| 0 <= j < arrivals.len() ==> (#[trigger] arrivals[j]).0 != usize::MAX,
        forall|i: int, j: int|
            0 <= i < j < arrivals.len() ==> (#[trigger] arrivals[i]).0 != (#[trigger] arrivals[j]).0,
    ensures
        in_order(
            arrivals.take(taken as int),
            offered(BufferView { next: 0, waiting: Seq::empty() }, arrivals.take(taken as int)).0,
            offered(BufferView { next: 0, waiting: Seq::empty() }, arrivals.take(taken as int)).1,
        ),
    decreases taken,
{
    let fresh = BufferView::<T> { next: 0, waiting: Seq::empty() };
    if taken > 0 {
        let so_far = arrivals.take(taken - 1);
        let now = arrivals.take(taken as int);
        lemma_offered_prefix(arrivals, (taken - 1) as nat);
        let (released, buffer) = offered(fresh, so_far);
        let (index, item) = arrivals[taken - 1];
        assert(now.drop_last() =~= so_far);
        assert(now.last() == (index, item));
        assert(now =~= so_far.push((index, item)));
        assert(!came(so_far, index as nat)) by {
            if came(so_far, index as nat) {
                let j = choose|j: int| 0 <= j < so_far.len() && (#[trigger] so_far[j]).0 == index;
                assert(arrivals[j].0 == so_far[j].0);
                assert(arrivals[j].0 != arrivals[taken - 1].0);
            }
        }
        lemma_offer_in_order(so_far, released, buffer, index, item);
    }
}

} // verus!
