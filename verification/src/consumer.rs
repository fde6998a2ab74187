//! The read end of a ring buffer.
use crate::observer::Observer;
use vstd::math::min;
use vstd::prelude::*;

verus! {

/// Consumer part of a ring buffer: removes items from its read end.
pub trait Consumer: Observer {
    /// Removes the oldest item from the ring buffer and returns it.
    ///
    /// Returns `None` if the ring buffer is empty.
    fn try_pop(&mut self) -> (r: Option<Self::Item>)
        requires
            old(self).inv(),
        ensures
            final(self).inv(),
            final(self).capacity_view() == old(self).capacity_view(),
            old(self).items().len() == 0 ==> r is None && final(self).items() == old(self).items(),
            old(self).items().len() > 0 ==> r == Some(old(self).items()[0]) && final(self).items()
                == old(self).items().drop_first(),
    ;

    /// Removes items from the ring buffer and writes them into a slice, oldest
    /// first.
    ///
    /// Returns the count of items removed: as many as the slice or the buffer
    /// holds, whichever is less.
    fn pop_slice(&mut self, elems: &mut [Self::Item]) -> (n: usize) where Self::Item: Copy
        requires
            old(self).inv(),
        ensures
            final(self).inv(),
            final(self).capacity_view() == old(self).capacity_view(),
            n == min(old(elems)@.len() as int, old(self).items().len() as int),
            final(elems)@ == old(self).items().take(n as int) + old(elems)@.skip(n as int),
            final(self).items() == old(self).items().skip(n as int),
    ;

    /// Removes `min(count, occupied_len)` of the oldest items from the buffer
    /// and drops them.
    ///
    /// Returns the number of items removed.
    fn skip(&mut self, count: usize) -> (n: usize)
        requires
            old(self).inv(),
        ensures
            final(self).inv(),
            final(self).capacity_view() == old(self).capacity_view(),
            n == min(count as int, old(self).items().len() as int),
            final(self).items() == old(self).items().skip(n as int),
    ;

    /// Removes all items from the buffer and drops them.
    ///
    /// Returns the number of items removed.
    fn clear(&mut self) -> (n: usize)
        requires
            old(self).inv(),
        ensures
            final(self).inv(),
            final(self).capacity_view() == old(self).capacity_view(),
            n == old(self).items().len(),
            final(self).items() == Seq::<Self::Item>::empty(),
    ;
}

} // verus!
