//! What every end of a ring buffer can tell about it.
use crate::raw::{count_occupied, count_vacant, distance, lemma_index_mod, valid_indices};
use vstd::prelude::*;

verus! {

/// Read access to the state of a ring buffer: its capacity, its two end
/// positions and the items between them.
pub trait Observer: Sized {
    type Item;

    /// Capacity of the ring buffer: the number of slots of its storage.
    spec fn capacity_view(&self) -> nat;

    /// The **read** position, where the oldest item lies.
    spec fn read_view(&self) -> int;

    /// The **write** position, where the next item goes.
    spec fn write_view(&self) -> int;

    /// The items, oldest first.
    spec fn items(&self) -> Seq<Self::Item>;

    /// Well-formedness.
    spec fn inv(&self) -> bool;

    /// A well-formed ring buffer holds valid positions and as many items as
    /// lie between them.
    proof fn lemma_inv(&self)
        requires
            self.inv(),
        ensures
            valid_indices(self.capacity_view() as int, self.read_view(), self.write_view()),
            self.items().len() == distance(
                self.capacity_view() as int,
                self.read_view(),
                self.write_view(),
            ),
    ;

    /// Capacity of the ring buffer.
    ///
    /// It is constant during the whole ring buffer lifetime.
    fn capacity(&self) -> (c: usize)
        requires
            self.inv(),
        ensures
            c == self.capacity_view(),
    ;

    /// The read position.
    fn read_index(&self) -> (r: usize)
        requires
            self.inv(),
        ensures
            r == self.read_view(),
    ;

    /// The write position.
    fn write_index(&self) -> (w: usize)
        requires
            self.inv(),
        ensures
            w == self.write_view(),
    ;

    /// The number of items stored in the buffer.
    fn occupied_len(&self) -> (n: usize)
        requires
            self.inv(),
        ensures
            n == self.items().len(),
    {
        proof {
            self.lemma_inv();
        }
        count_occupied(self.capacity(), self.read_index(), self.write_index())
    }

    /// The number of remaining free places in the buffer.
    fn vacant_len(&self) -> (n: usize)
        requires
            self.inv(),
        ensures
            n == self.capacity_view() - self.items().len(),
    {
        proof {
            self.lemma_inv();
        }
        count_vacant(self.capacity(), self.read_index(), self.write_index())
    }

    /// Checks if the ring buffer is empty.
    fn is_empty(&self) -> (b: bool)
        requires
            self.inv(),
        ensures
            b == (self.items().len() == 0),
    {
        proof {
            self.lemma_inv();
        }
        self.read_index() == self.write_index()
    }

    /// Checks if the ring buffer is full.
    fn is_full(&self) -> (b: bool)
        requires
            self.inv(),
        ensures
            b == (self.items().len() == self.capacity_view()),
    {
        self.vacant_len() == 0
    }
}

/// A ring buffer holds `(write - read) % (2 * capacity)` items, never more
/// than its capacity, and is empty exactly when its two positions are equal.
pub proof fn lemma_occupied<O: Observer>(o: &O)
    requires
        o.inv(),
    ensures
        0 < o.capacity_view(),
        o.items().len() <= o.capacity_view(),
        o.items().len() == (o.write_view() - o.read_view()) % (2 * o.capacity_view() as int),
        (o.items().len() == 0) == (o.read_view() == o.write_view()),
{
    o.lemma_inv();
    lemma_index_mod(o.capacity_view() as int, o.read_view(), o.write_view());
}

} // verus!
