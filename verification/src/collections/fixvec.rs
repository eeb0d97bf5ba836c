//! A vector of fixed size, for indexing only.

use vstd::prelude::*;

verus! {

/// A vector that is made with all its places and never grows or shrinks.
pub struct FixedVec<T> {
    items: Vec<T>,
    capacity: usize,
}

impl<T: Copy> FixedVec<T> {
    /// The vector has the places that it was made with.
    pub closed spec fn wf(&self) -> bool {
        self.capacity == self.items@.len()
    }

    /// The items.
    pub closed spec fn view(&self) -> Seq<T> {
        self.items@
    }

    /// A vector of `cap` places, each holding `fill`.
    pub fn new(cap: usize, fill: T) -> (r: Self)
        ensures
            r.wf(),
            r@.len() == cap,
            forall|i: int| 0 <= i < cap ==> r@[i] == fill,
    {
        let mut items: Vec<T> = Vec::with_capacity(cap);
        let mut i: usize = 0;
        while i < cap
            invariant
                0 <= i <= cap,
                items@.len() == i,
                forall|j: int| 0 <= j < i ==> items@[j] == fill,
            decreases cap - i,
        {
            items.push(fill);
            i = i + 1;
        }
        Self { items, capacity: cap }
    }

    /// The number of places.
    pub fn capacity(&self) -> (r: usize)
        requires
            self.wf(),
        ensures
            r == self@.len(),
    {
        self.capacity
    }

    /// The item at `index`.
    pub fn get(&self, index: usize) -> (r: T)
        requires
            self.wf(),
            index < self@.len(),
        ensures
            r == self@[index as int],
    {
        self.items[index]
    }

    /// Puts `value` at `index`.
    pub fn set(&mut self, index: usize, value: T)
        requires
            old(self).wf(),
            index < old(self)@.len(),
        ensures
            final(self).wf(),
            final(self)@ == old(self)@.update(index as int, value),
    {
        self.items.set(index, value);
    }
}

/// The number of bytes that `cap` objects of `object_size` bytes take.
pub fn total_size(object_size: usize, cap: usize) -> (r: usize)
    requires
        object_size * cap <= usize::MAX,
    ensures
        r == object_size * cap,
{
    object_size * cap
}

} // verus!
