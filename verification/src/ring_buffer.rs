//! A ring buffer used through both of its ends at once.
use crate::consumer::Consumer;
use crate::producer::Producer;
use std::collections::VecDeque;
use vstd::prelude::*;

verus! {

/// The last `n` items of `s`, or all of them if there are fewer.
pub open spec fn keep_last<T>(s: Seq<T>, n: nat) -> Seq<T> {
    if s.len() <= n {
        s
    } else {
        s.skip(s.len() - n)
    }
}

/// After appending `it` with overwriting, the buffer holds
/// `min(items + it, capacity)` items and ends with the last
/// `min(it, capacity)` items of `it`.
pub proof fn lemma_keep_last_tail<T>(s: Seq<T>, it: Seq<T>, capacity: nat)
    ensures
        keep_last(s + it, capacity).len() == if s.len() + it.len() <= capacity {
            (s.len() + it.len()) as int
        } else {
            capacity as int
        },
        ({
            let k = if it.len() <= capacity {
                it.len() as int
            } else {
                capacity as int
            };
            let kept = keep_last(s + it, capacity);
            kept.skip(kept.len() - k) == it.skip(it.len() - k)
        }),
{
    let k = if it.len() <= capacity {
        it.len() as int
    } else {
        capacity as int
    };
    let kept = keep_last(s + it, capacity);
    assert(kept.skip(kept.len() - k) =~= it.skip(it.len() - k));
}

proof fn lemma_keep_last_push<T>(s: Seq<T>, n: nat, x: T)
    requires
        n > 0,
    ensures
        keep_last(s, n).len() < n ==> keep_last(s.push(x), n) == keep_last(s, n).push(x),
        keep_last(s, n).len() == n ==> keep_last(s.push(x), n) == keep_last(s, n).drop_first().push(
            x,
        ),
{
    if s.len() < n {
        assert(keep_last(s.push(x), n) =~= s.push(x));
    } else {
        assert(keep_last(s.push(x), n) =~= keep_last(s, n).drop_first().push(x));
    }
}

/// An abstract ring buffer that exposes both of its ends.
///
/// There are `push*_overwrite` methods that cannot be used from a producer
/// alone: they remove the oldest items to make room.
pub trait RingBuffer: Consumer + Producer {
    /// Pushes an item to the ring buffer, removing the oldest item if the
    /// buffer is full.
    ///
    /// Returns the removed item if removal took place.
    fn push_overwrite(&mut self, elem: Self::Item) -> (r: Option<Self::Item>)
        requires
            old(self).inv(),
        ensures
            final(self).inv(),
            final(self).capacity_view() == old(self).capacity_view(),
            final(self).items() == keep_last(old(self).items().push(elem), old(self).capacity_view()),
            old(self).items().len() < old(self).capacity_view() ==> r is None,
            old(self).items().len() >= old(self).capacity_view() ==> r == Some(old(self).items()[0]),
    {
        proof {
            self.lemma_inv();
            lemma_keep_last_push(self.items(), self.capacity_view(), elem);
            assert(keep_last(self.items(), self.capacity_view()) == self.items());
        }
        let ret = if self.is_full() {
            self.try_pop()
        } else {
            None
        };
        let _ = self.try_push(elem);
        ret
    }

    /// Appends the items of `iter`, front first, removing the oldest items of
    /// the ring buffer to make room.
    ///
    /// The whole of `iter` is consumed. The last `min(items + iter, capacity)`
    /// items stay in the buffer.
    fn push_iter_overwrite(&mut self, iter: VecDeque<Self::Item>)
        requires
            old(self).inv(),
        ensures
            final(self).inv(),
            final(self).capacity_view() == old(self).capacity_view(),
            final(self).items() == keep_last(old(self).items() + iter@, old(self).capacity_view()),
    {
        let ghost s0 = self.items();
        let ghost it0 = iter@;
        let ghost cap = self.capacity_view();
        let mut iter = iter;
        let total: usize = iter.len();
        let mut k: usize = 0;
        proof {
            self.lemma_inv();
            assert(s0 + it0.take(0) =~= s0);
        }
        while iter.len() > 0
            invariant
                self.inv(),
                self.capacity_view() == cap,
                cap > 0,
                k <= it0.len(),
                it0.len() == total,
                iter@ == it0.skip(k as int),
                self.items() == keep_last(s0 + it0.take(k as int), cap),
            decreases iter@.len(),
        {
            let elem = iter.pop_front().unwrap();
            proof {
                assert(elem == it0[k as int]);
                assert(s0 + it0.take(k + 1) =~= (s0 + it0.take(k as int)).push(elem));
            }
            self.push_overwrite(elem);
            k = k + 1;
            proof {
                assert(iter@ =~= it0.skip(k as int));
            }
        }
        proof {
            assert(it0.take(k as int) =~= it0);
        }
    }

    /// Appends the items of a slice, removing the oldest items of the ring
    /// buffer to make room.
    ///
    /// If the slice is longer than the capacity, only its last `capacity`
    /// items are stored.
    fn push_slice_overwrite(&mut self, elems: &[Self::Item]) where Self::Item: Copy
        requires
            old(self).inv(),
        ensures
            final(self).inv(),
            final(self).capacity_view() == old(self).capacity_view(),
            final(self).items() == keep_last(old(self).items() + elems@, old(self).capacity_view()),
    {
        let ghost s0 = self.items();
        let ghost cap = self.capacity_view();
        proof {
            self.lemma_inv();
        }
        if elems.len() > self.vacant_len() {
            let over = elems.len() - self.vacant_len();
            let occupied = self.occupied_len();
            self.skip(if over < occupied {
                over
            } else {
                occupied
            });
        }
        let vacant = self.vacant_len();
        if elems.len() > vacant {
            let tail = &elems[(elems.len() - vacant)..elems.len()];
            self.push_slice(tail);
            proof {
                assert(self.items() =~= keep_last(s0 + elems@, cap));
            }
        } else {
            self.push_slice(elems);
            proof {
                assert(self.items() =~= keep_last(s0 + elems@, cap));
            }
        }
    }
}

} // verus!
