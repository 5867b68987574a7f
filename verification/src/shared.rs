use vstd::prelude::*;
use vstd::slice::slice_subrange;
use vstd::std_specs::convert::FromSpecImpl;

verus! {

/// A region of a buffer: where it starts and how long it is.
#[derive(Clone, Copy, Debug)]
pub struct SliceIndexes {
    pub position: usize,
    pub len: usize,
}

impl SliceIndexes {
    /// The region of `len` items that starts at `position`.
    pub fn new(position: usize, len: usize) -> (region: SliceIndexes)
        ensures
            region.position == position,
            region.len == len,
    {
        SliceIndexes { position, len }
    }

    /// The region lies inside a buffer of `data_len` items.
    pub open spec fn within(&self, data_len: nat) -> bool {
        self.position + self.len <= data_len
    }

    /// The items of `data` that the region covers.
    pub open spec fn of<T>(&self, data: Seq<T>) -> Seq<T> {
        data.subrange(self.position as int, self.position + self.len)
    }

    /// The region of `data` that the slice `data[slice_start..slice_start +
    /// slice_len]` covers once its first `slice_pos` items are left out.
    pub fn from_slice(slice_start: usize, slice_len: usize, slice_pos: usize) -> (region:
        SliceIndexes)
        requires
            slice_pos <= slice_len,
            slice_start + slice_pos <= usize::MAX,
        ensures
            region.position == slice_start + slice_pos,
            region.len == slice_len - slice_pos,
    {
        SliceIndexes { position: slice_start + slice_pos, len: slice_len - slice_pos }
    }

    /// The items of `data` that the region covers.
    pub fn get<'a, T>(&self, data: &'a [T]) -> (items: &'a [T])
        requires
            self.within(data@.len()),
        ensures
            items@ == self.of(data@),
    {
        let total = data.len();
        assert(self.position + self.len <= total);
        slice_subrange(data, self.position, self.position + self.len)
    }
}

/// A run of items that either lies in a shared buffer or is held on its own.
#[derive(Debug)]
pub enum RefSlice<T> {
    Referenced(SliceIndexes),
    Owned(Vec<T>),
}

impl<T> RefSlice<T> {
    /// A run of `len` items that starts at `position` of the shared buffer.
    pub fn new(position: usize, len: usize) -> (run: RefSlice<T>)
        ensures
            run == RefSlice::<T>::Referenced(SliceIndexes { position, len }),
    {
        RefSlice::Referenced(SliceIndexes::new(position, len))
    }

    /// The run that the slice `data[slice_start..slice_start + slice_len]`
    /// covers once its first `slice_pos` items are left out.
    pub fn from_slice(slice_start: usize, slice_len: usize, slice_pos: usize) -> (run: RefSlice<T>)
        requires
            slice_pos <= slice_len,
            slice_start + slice_pos <= usize::MAX,
        ensures
            run == RefSlice::<T>::Referenced(
                SliceIndexes {
                    position: (slice_start + slice_pos) as usize,
                    len: (slice_len - slice_pos) as usize,
                },
            ),
    {
        RefSlice::Referenced(SliceIndexes::from_slice(slice_start, slice_len, slice_pos))
    }

    /// A run that lies in the shared buffer stays inside `data_len` items.
    pub open spec fn within(&self, data_len: nat) -> bool {
        match self {
            RefSlice::Referenced(region) => region.within(data_len),
            RefSlice::Owned(_) => true,
        }
    }

    /// The items of the run, given the shared buffer.
    pub open spec fn of(&self, data: Seq<T>) -> Seq<T> {
        match self {
            RefSlice::Referenced(region) => region.of(data),
            RefSlice::Owned(bytes) => bytes@,
        }
    }

    /// The items of the run, given the shared buffer.
    pub fn get<'a>(&'a self, data: &'a [T]) -> (items: &'a [T])
        requires
            self.within(data@.len()),
        ensures
            items@ == self.of(data@),
    {
        match self {
            RefSlice::Owned(bytes) => bytes.as_slice(),
            RefSlice::Referenced(region) => region.get(data),
        }
    }
}

impl<T> From<Vec<T>> for RefSlice<T> {
    fn from(value: Vec<T>) -> (run: RefSlice<T>) {
        RefSlice::Owned(value)
    }
}

impl<T> FromSpecImpl<Vec<T>> for RefSlice<T> {
    open spec fn obeys_from_spec() -> bool {
        true
    }

    open spec fn from_spec(value: Vec<T>) -> RefSlice<T> {
        RefSlice::Owned(value)
    }
}

} // verus!
