use vstd::prelude::*;

verus! {

/// Capacity of a bucket (the Kademlia replication parameter k).
pub const BUCKET_SIZE: usize = 8;

/// A sequence of at most `BUCKET_SIZE` items, in insertion order.
pub struct FixedVec<T> {
    data: Vec<T>,
}

impl<T> View for FixedVec<T> {
    type V = Seq<T>;

    closed spec fn view(&self) -> Seq<T> {
        self.data@
    }
}

impl<T> FixedVec<T> {
    /// Holds no more than `BUCKET_SIZE` items.
    pub open spec fn wf(&self) -> bool {
        self@.len() <= BUCKET_SIZE
    }

    pub fn new() -> (r: FixedVec<T>)
        ensures
            r@ == Seq::<T>::empty(),
            r.wf(),
    {
        FixedVec { data: Vec::new() }
    }

    /// Number of items that can still be pushed.
    pub fn empty_slots(&self) -> (r: usize)
        requires
            self.wf(),
        ensures
            r == BUCKET_SIZE - self@.len(),
    {
        BUCKET_SIZE - self.data.len()
    }

    pub fn is_full(&self) -> (r: bool)
        ensures
            r == (self@.len() == BUCKET_SIZE),
    {
        self.data.len() == BUCKET_SIZE
    }

    pub fn is_not_full(&self) -> (r: bool)
        ensures
            r == (self@.len() < BUCKET_SIZE),
    {
        self.data.len() < BUCKET_SIZE
    }

    pub fn push(&mut self, item: T)
        requires
            old(self)@.len() < BUCKET_SIZE,
        ensures
            final(self)@ == old(self)@.push(item),
    {
        self.data.push(item);
    }

    pub fn len(&self) -> (r: usize)
        ensures
            r == self@.len(),
    {
        self.data.len()
    }

    /// The item at `index`.
    pub fn get(&self, index: usize) -> (r: &T)
        requires
            index < self@.len(),
        ensures
            *r == self@[index as int],
    {
        &self.data[index]
    }

    /// Replaces the item at `index`.
    pub fn set(&mut self, index: usize, item: T)
        requires
            index < old(self)@.len(),
        ensures
            final(self)@ == old(self)@.update(index as int, item),
    {
        self.data.set(index, item);
    }

    pub fn as_slice(&self) -> (r: &[T])
        ensures
            r@ == self@,
    {
        self.data.as_slice()
    }

    /// Iterates over the items in order.
    pub fn iter(&self) -> (r: std::slice::Iter<'_, T>)
        ensures
            vstd::std_specs::iter::IteratorSpec::remaining(&r) == self@.as_ref(),
    {
        let items = self.data.as_slice();
        let r = items.iter();
        proof {
            vstd::std_specs::slice::axiom_spec_slice_iter(items);
        }
        r
    }

    /// Removes the item at `index`, moving the last item into its place.
    pub fn swap_remove(&mut self, index: usize) -> (r: T)
        requires
            index < old(self)@.len(),
        ensures
            r == old(self)@[index as int],
            final(self)@ == old(self)@.update(index as int, old(self)@.last()).drop_last(),
    {
        self.data.swap_remove(index)
    }

    /// Moves all items of `other` to the end of `self`.
    pub fn append(&mut self, other: FixedVec<T>)
        requires
            old(self)@.len() + other@.len() <= BUCKET_SIZE,
        ensures
            final(self)@ == old(self)@ + other@,
    {
        let mut items = other.data;
        self.data.append(&mut items);
    }

    /// Moves all items of `new_items` to the end of `self`.
    pub fn append_vec(&mut self, new_items: Vec<T>)
        requires
            old(self)@.len() + new_items@.len() <= BUCKET_SIZE,
        ensures
            final(self)@ == old(self)@ + new_items@,
    {
        let mut items = new_items;
        self.data.append(&mut items);
    }
}

} // verus!
