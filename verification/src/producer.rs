//! The write end of a ring buffer.
use crate::observer::Observer;
use vstd::math::min;
use vstd::prelude::*;
use vstd::std_specs::iter::IteratorSpec;

verus! {

/// Producer part of a ring buffer: inserts items at its write end.
pub trait Producer: Observer {
    /// Appends an item to the ring buffer.
    ///
    /// On failure (the buffer is full) returns an `Err` containing the item
    /// that hasn't been appended.
    fn try_push(&mut self, elem: Self::Item) -> (r: Result<(), Self::Item>)
        requires
            old(self).inv(),
        ensures
            final(self).inv(),
            final(self).capacity_view() == old(self).capacity_view(),
            old(self).items().len() < old(self).capacity_view() ==> r is Ok && final(self).items()
                == old(self).items().push(elem),
            old(self).items().len() >= old(self).capacity_view() ==> r == Err::<(), Self::Item>(elem)
                && final(self).items() == old(self).items(),
    ;

    /// Appends items from a slice to the ring buffer.
    ///
    /// Returns the count of items appended: as many as fit, taken from the
    /// start of the slice.
    fn push_slice(&mut self, elems: &[Self::Item]) -> (n: usize) where Self::Item: Copy
        requires
            old(self).inv(),
        ensures
            final(self).inv(),
            final(self).capacity_view() == old(self).capacity_view(),
            n == min(elems@.len() as int, old(self).capacity_view() - old(self).items().len()),
            final(self).items() == old(self).items() + elems@.take(n as int),
    ;

    /// Appends items taken one by one from `iter` until the ring buffer is
    /// full or `iter` is exhausted.
    ///
    /// `iter.next()` is called once for every item appended, and once more
    /// only where the ring buffer still has room, so items that haven't been
    /// appended remain in `iter`. Returns the count of items appended.
    fn push_iter<I: Iterator<Item = Self::Item>>(&mut self, iter: &mut I) -> (n: usize)
        requires
            old(self).inv(),
        ensures
            final(self).inv(),
            final(self).capacity_view() == old(self).capacity_view(),
            n <= old(self).capacity_view() - old(self).items().len(),
            final(self).items().len() == old(self).items().len() + n,
            final(self).items().take(old(self).items().len() as int) == old(self).items(),
            (*old(iter)).obeys_prophetic_iter_laws() ==> {
                &&& n == min(
                    (*old(iter)).remaining().len() as int,
                    old(self).capacity_view() - old(self).items().len(),
                )
                &&& final(self).items() == old(self).items() + (*old(iter)).remaining().take(n as int)
                &&& (*final(iter)).remaining() == (*old(iter)).remaining().skip(n as int)
            },
    {
        let ghost old_self = *self;
        let ghost len0 = self.items().len();
        proof {
            self.lemma_inv();
        }
        let vacant = self.vacant_len();
        let mut n: usize = 0;
        proof {
            assert(old_self.items().take(len0 as int) =~= old_self.items());
            assert((*old(iter)).remaining().take(0) =~= Seq::<Self::Item>::empty());
            assert((*old(iter)).remaining().skip(0) =~= (*old(iter)).remaining());
        }
        loop
            invariant
                self.inv(),
                self.capacity_view() == old_self.capacity_view(),
                len0 == old_self.items().len(),
                vacant == old_self.capacity_view() - len0,
                n <= vacant,
                self.items().len() == len0 + n,
                self.items().take(len0 as int) == old_self.items(),
                (*iter).obeys_prophetic_iter_laws() == (*old(iter)).obeys_prophetic_iter_laws(),
                (*old(iter)).obeys_prophetic_iter_laws() ==> {
                    &&& n <= (*old(iter)).remaining().len()
                    &&& self.items() == old_self.items() + (*old(iter)).remaining().take(n as int)
                    &&& (*iter).remaining() == (*old(iter)).remaining().skip(n as int)
                },
            ensures
                self.inv(),
                self.capacity_view() == old_self.capacity_view(),
                n <= vacant,
                self.items().len() == len0 + n,
                self.items().take(len0 as int) == old_self.items(),
                (*old(iter)).obeys_prophetic_iter_laws() ==> {
                    &&& n == min((*old(iter)).remaining().len() as int, vacant as int)
                    &&& self.items() == old_self.items() + (*old(iter)).remaining().take(n as int)
                    &&& (*iter).remaining() == (*old(iter)).remaining().skip(n as int)
                },
            decreases vacant - n,
        {
            if n >= vacant {
                break;
            }
            let ghost before = self.items();
            match iter.next() {
                Some(elem) => {
                    proof {
                        self.lemma_inv();
                    }
                    let _ = self.try_push(elem);
                    n = n + 1;
                    proof {
                        assert(self.items().take(len0 as int) =~= before.take(len0 as int));
                        if (*old(iter)).obeys_prophetic_iter_laws() {
                            assert((*old(iter)).remaining().take(n as int) =~= (*old(iter)).remaining().take(
                                n - 1,
                            ).push(elem));
                            assert((*iter).remaining() =~= (*old(iter)).remaining().skip(n as int));
                        }
                    }
                },
                None => {
                    break;
                },
            }
        }
        n
    }
}

} // verus!
