//! A producer and a consumer working on one ring buffer at the same time.
//!
//! Each of them keeps a local copy of the ring buffer's counter: the producer
//! owns the **tail** (write) side and caches the head, the consumer owns the
//! **head** (read) side and caches the tail. Both are handed the shared ring
//! buffer on every call. What one of them does is invisible to the other until
//! it commits its position into the ring buffer and the other one fetches it.
//!
//! [`producer_step`] and [`consumer_step`] describe what a call of either side
//! may do to the shared ring buffer; [`lemma_producer_step_keeps_consumer`] and
//! [`lemma_consumer_step_keeps_producer`] show that no such call disturbs the
//! other side, [`lemma_commit_reaches_consumer`] that what the producer
//! commits is what the consumer fetches next, in order, and
//! [`lemma_both_commit`] what the ring buffer holds once both have committed.
//!
//! Neither side commits by itself when it goes out of scope: progress that is
//! not committed with `commit` stays out of the ring buffer.
use crate::counter::{Counter, LocalCounter};
use crate::raw::{
    distance, is_index, lemma_distance_add, lemma_distance_wrap, lemma_nth_slot, lemma_nth_slot_shift,
    lemma_slot_offset, lemma_wrap_distance, nth_slot, slot, slot_offset, wrap, Raw, RawCons,
    RawProd,
};
use crate::observer::Observer;
use crate::rb::LocalRb;
use crate::transfer::transfer_count;
use crate::storage::{
    all_some, lemma_ring_frame, lemma_ring_split, ring_slots, same_outside, unwrap_all,
};
use vstd::math::min;
use vstd::prelude::*;
use vstd::std_specs::iter::IteratorSpec;

verus! {

/// What a call on the producer side may do to the shared ring buffer `rb`,
/// turning it into `rb2`: the read position stays, the write position only
/// moves forward, the committed items are left alone and every newly committed
/// slot holds an item.
pub open spec fn producer_step<T>(rb: LocalRb<T>, rb2: LocalRb<T>) -> bool {
    let c = rb.capacity_view() as int;
    let n = distance(c, rb.read_view(), rb.write_view());
    &&& rb2.structural()
    &&& rb2.capacity_view() == c
    &&& rb2.read_view() == rb.read_view()
    &&& n + distance(c, rb.write_view(), rb2.write_view()) == distance(
        c,
        rb.read_view(),
        rb2.write_view(),
    )
    &&& ring_slots(rb2.slots(), c, rb.read_view(), n) == ring_slots(rb.slots(), c, rb.read_view(), n)
    &&& all_some(
        ring_slots(
            rb2.slots(),
            c,
            rb.write_view(),
            distance(c, rb.write_view(), rb2.write_view()),
        ),
    )
}

/// What a call on the consumer side may do to the shared ring buffer `rb`,
/// turning it into `rb2`: the write position stays, the read position only
/// moves forward over committed items, and no slot outside the committed
/// items is touched.
pub open spec fn consumer_step<T>(rb: LocalRb<T>, rb2: LocalRb<T>) -> bool {
    let c = rb.capacity_view() as int;
    let n = distance(c, rb.read_view(), rb.write_view());
    &&& rb2.structural()
    &&& rb2.capacity_view() == c
    &&& rb2.write_view() == rb.write_view()
    &&& distance(c, rb.read_view(), rb2.read_view()) + distance(
        c,
        rb2.read_view(),
        rb.write_view(),
    ) == n
    &&& same_outside(rb2.slots(), rb.slots(), c, rb.read_view(), n)
}

/// Producer end working on a ring buffer shared with a consumer.
pub struct LocalProducer {
    counter: LocalCounter,
}

/// Consumer end working on a ring buffer shared with a producer.
pub struct LocalConsumer {
    counter: LocalCounter,
}

impl LocalProducer {
    /// The local copy of the counter.
    pub closed spec fn counter_view(&self) -> LocalCounter {
        self.counter
    }

    /// Capacity of the ring buffer.
    pub open spec fn capacity_view(&self) -> nat {
        self.counter_view().len_view()
    }

    /// The read position as last fetched.
    pub open spec fn head_view(&self) -> int {
        self.counter_view().head_view()
    }

    /// The producer's own write position.
    pub open spec fn tail_view(&self) -> int {
        self.counter_view().tail_view()
    }

    /// Number of items inserted but not committed.
    pub open spec fn pending_count<T>(&self, rb: LocalRb<T>) -> int {
        distance(self.capacity_view() as int, rb.write_view(), self.tail_view())
    }

    /// Slots of the items inserted but not committed.
    pub open spec fn pending_slots<T>(&self, rb: LocalRb<T>) -> Seq<Option<T>> {
        ring_slots(
            rb.slots(),
            self.capacity_view() as int,
            rb.write_view(),
            self.pending_count(rb),
        )
    }

    /// Items inserted but not committed, oldest first.
    pub open spec fn pending<T>(&self, rb: LocalRb<T>) -> Seq<T> {
        unwrap_all(self.pending_slots(rb))
    }

    /// `self` is a producer of `rb`: its cached read position is not ahead of
    /// the ring buffer's, its write position is not behind it, and every item
    /// it inserted but did not commit is in the storage.
    pub open spec fn attached<T>(&self, rb: LocalRb<T>) -> bool {
        let c = self.capacity_view() as int;
        &&& self.counter_view().inv()
        &&& rb.structural()
        &&& rb.capacity_view() == c
        &&& distance(c, self.head_view(), rb.read_view()) + distance(
            c,
            rb.read_view(),
            rb.write_view(),
        ) + self.pending_count(rb) == distance(c, self.head_view(), self.tail_view())
        &&& all_some(self.pending_slots(rb))
    }

    /// Number of items as seen by the producer.
    pub open spec fn seen_len(&self) -> int {
        distance(self.capacity_view() as int, self.head_view(), self.tail_view())
    }

    /// Takes the producer side of `rb`, with nothing pending.
    pub fn acquire<T>(rb: &LocalRb<T>) -> (r: Self)
        requires
            rb.structural(),
        ensures
            r.attached(*rb),
            r.capacity_view() == rb.capacity_view(),
            r.head_view() == rb.read_view(),
            r.tail_view() == rb.write_view(),
            r.pending(*rb) == Seq::<T>::empty(),
    {
        proof {
            rb.lemma_raw_inv();
        }
        let r = LocalProducer { counter: LocalCounter::new(rb.slot_count(), rb.read_end(), rb.write_end()) };
        proof {
            assert(r.pending(*rb) =~= Seq::<T>::empty());
        }
        r
    }

    /// Capacity of the ring buffer.
    pub fn capacity(&self) -> (c: usize)
        requires
            self.counter_view().inv(),
        ensures
            c == self.capacity_view(),
    {
        self.counter.len()
    }

    /// The number of items in the ring buffer as seen by the producer: it may
    /// be more than the actual number while the consumer's progress is not
    /// fetched.
    pub fn len(&self) -> (n: usize)
        requires
            self.counter_view().inv(),
        ensures
            n == self.seen_len(),
    {
        self.counter.occupied_len()
    }

    /// The number of free places as seen by the producer.
    pub fn remaining(&self) -> (n: usize)
        requires
            self.counter_view().inv(),
        ensures
            n == self.capacity_view() - self.seen_len(),
    {
        self.counter.vacant_len()
    }

    /// Checks if the ring buffer is empty as seen by the producer.
    pub fn is_empty(&self) -> (b: bool)
        requires
            self.counter_view().inv(),
        ensures
            b == (self.seen_len() == 0),
    {
        self.counter.is_empty()
    }

    /// Checks if the ring buffer is full as seen by the producer.
    pub fn is_full(&self) -> (b: bool)
        requires
            self.counter_view().inv(),
        ensures
            b == (self.seen_len() == self.capacity_view()),
    {
        self.counter.is_full()
    }

    /// Commits the inserted items into the ring buffer.
    pub fn commit<T>(&self, rb: &mut LocalRb<T>)
        requires
            self.attached(*old(rb)),
        ensures
            self.attached(*final(rb)),
            producer_step(*old(rb), *final(rb)),
            final(rb).slots() == old(rb).slots(),
            final(rb).read_view() == old(rb).read_view(),
            final(rb).write_view() == self.tail_view(),
            self.pending(*final(rb)) == Seq::<T>::empty(),
    {
        let ghost c = self.capacity_view() as int;
        let ghost rb0 = *rb;
        proof {
            self.counter.lemma_inv();
            rb.lemma_raw_inv();
        }
        let tail = self.counter.tail();
        rb.set_write_end(tail);
        proof {
            assert(self.pending(*rb) =~= Seq::<T>::empty());
            lemma_wrap_distance(c, rb0.read_view(), rb0.write_view());
            lemma_ring_split(
                rb.slots(),
                c,
                rb0.read_view(),
                distance(c, rb0.read_view(), rb0.write_view()),
                distance(c, rb0.write_view(), tail as int),
            );
        }
    }

    /// Fetches the consumer's progress: the read position of the ring buffer.
    pub fn fetch<T>(&mut self, rb: &LocalRb<T>)
        requires
            old(self).attached(*rb),
        ensures
            final(self).attached(*rb),
            final(self).capacity_view() == old(self).capacity_view(),
            final(self).head_view() == rb.read_view(),
            final(self).tail_view() == old(self).tail_view(),
            final(self).pending(*rb) == old(self).pending(*rb),
    {
        proof {
            self.counter.lemma_inv();
            rb.lemma_raw_inv();
        }
        self.counter.set_head(rb.read_end());
    }

    /// Appends an item to the ring buffer, without committing it.
    ///
    /// On failure (the buffer is full as seen by the producer) returns an
    /// `Err` containing the item.
    pub fn push<T>(&mut self, rb: &mut LocalRb<T>, elem: T) -> (r: Result<(), T>)
        requires
            old(self).attached(*old(rb)),
        ensures
            final(self).attached(*final(rb)),
            producer_step(*old(rb), *final(rb)),
            final(rb).read_view() == old(rb).read_view(),
            final(rb).write_view() == old(rb).write_view(),
            final(self).capacity_view() == old(self).capacity_view(),
            final(self).head_view() == old(self).head_view(),
            old(self).seen_len() < old(self).capacity_view() ==> r is Ok && final(self).pending(
                *final(rb),
            ) == old(self).pending(*old(rb)).push(elem) && final(self).tail_view() == wrap(
                old(self).capacity_view() as int,
                old(self).tail_view() + 1,
            ),
            old(self).seen_len() >= old(self).capacity_view() ==> r == Err::<(), T>(elem)
                && *final(self) == *old(self) && *final(rb) == *old(rb),
    {
        proof {
            self.counter.lemma_inv();
        }
        if self.counter.is_full() {
            Err(elem)
        } else {
            let ghost c = self.capacity_view() as int;
            let ghost rb0 = *rb;
            let ghost old_self = *self;
            let ghost r0 = rb0.read_view();
            let ghost w0 = rb0.write_view();
            let ghost n = distance(c, r0, w0);
            let ghost p = self.pending_count(rb0);
            let tail = self.counter.tail();
            proof {
                lemma_wrap_distance(c, r0, w0);
                lemma_wrap_distance(c, w0, tail as int);
                lemma_nth_slot(c, r0, n + p);
                lemma_nth_slot(c, w0, p);
                lemma_nth_slot_shift(c, r0, n, p);
            }
            rb.put_item(tail, elem);
            self.counter.advance_tail(1);
            proof {
                lemma_distance_wrap(c, w0, p + 1);
                lemma_ring_frame(rb.slots(), rb0.slots(), c, r0, n, tail as int, 1);
                lemma_ring_frame(rb.slots(), rb0.slots(), c, w0, p, tail as int, 1);
                lemma_ring_split(rb.slots(), c, w0, p, 1);
                assert(self.pending_slots(*rb) =~= old_self.pending_slots(rb0).push(Some(elem)));
                assert(self.pending(*rb) =~= old_self.pending(rb0).push(elem));
            }
            Ok(())
        }
    }

    /// Appends items from a slice, without committing them.
    ///
    /// Returns the count of items appended: as many as fit as seen by the
    /// producer, taken from the start of the slice.
    pub fn push_slice<T: Copy>(&mut self, rb: &mut LocalRb<T>, elems: &[T]) -> (n: usize)
        requires
            old(self).attached(*old(rb)),
        ensures
            final(self).attached(*final(rb)),
            producer_step(*old(rb), *final(rb)),
            final(rb).read_view() == old(rb).read_view(),
            final(rb).write_view() == old(rb).write_view(),
            final(self).capacity_view() == old(self).capacity_view(),
            final(self).head_view() == old(self).head_view(),
            n == min(elems@.len() as int, old(self).capacity_view() - old(self).seen_len()),
            final(self).pending(*final(rb)) == old(self).pending(*old(rb)) + elems@.take(n as int),
            final(self).tail_view() == wrap(old(self).capacity_view() as int, old(self).tail_view() + n),
    {
        proof {
            self.counter.lemma_inv();
        }
        let vacant = self.counter.vacant_len();
        let n: usize = if elems.len() < vacant {
            elems.len()
        } else {
            vacant
        };
        let ghost c = self.capacity_view() as int;
        let ghost rb0 = *rb;
        let ghost old_self = *self;
        let ghost r0 = rb0.read_view();
        let ghost w0 = rb0.write_view();
        let ghost m = distance(c, r0, w0);
        let ghost p = self.pending_count(rb0);
        let tail = self.counter.tail();
        proof {
            lemma_wrap_distance(c, r0, w0);
            lemma_wrap_distance(c, w0, tail as int);
            if m + p < c {
                lemma_nth_slot(c, r0, m + p);
                lemma_nth_slot(c, w0, p);
                lemma_nth_slot_shift(c, r0, m, p);
            }
        }
        rb.put_items(tail, elems, n);
        self.counter.advance_tail(n);
        proof {
            lemma_distance_wrap(c, w0, p + n);
            if m + p < c {
                lemma_ring_frame(rb.slots(), rb0.slots(), c, r0, m, tail as int, n as int);
                lemma_ring_frame(rb.slots(), rb0.slots(), c, w0, p, tail as int, n as int);
            } else {
                assert(rb.slots() =~= rb0.slots());
            }
            lemma_ring_split(rb.slots(), c, w0, p, n as int);
            assert(self.pending_slots(*rb) =~= old_self.pending_slots(rb0) + Seq::new(
                n as nat,
                |i: int| Some(elems@[i]),
            ));
            assert(self.pending(*rb) =~= old_self.pending(rb0) + elems@.take(n as int));
        }
        n
    }

    /// Appends items taken one by one from `iter`, without committing them,
    /// until the buffer is full as seen by the producer or `iter` is
    /// exhausted.
    ///
    /// `iter.next()` is called once for every item appended, and once more
    /// only where there is still room, so items that haven't been appended
    /// remain in `iter`. Returns the count of items appended.
    pub fn push_iter<T, I: Iterator<Item = T>>(&mut self, rb: &mut LocalRb<T>, iter: &mut I) -> (n: usize)
        requires
            old(self).attached(*old(rb)),
        ensures
            final(self).attached(*final(rb)),
            producer_step(*old(rb), *final(rb)),
            final(rb).read_view() == old(rb).read_view(),
            final(rb).write_view() == old(rb).write_view(),
            final(self).capacity_view() == old(self).capacity_view(),
            final(self).head_view() == old(self).head_view(),
            n <= old(self).capacity_view() - old(self).seen_len(),
            final(self).seen_len() == old(self).seen_len() + n,
            final(self).pending(*final(rb)).len() == old(self).pending(*old(rb)).len() + n,
            final(self).pending(*final(rb)).take(old(self).pending(*old(rb)).len() as int) == old(
                self,
            ).pending(*old(rb)),
            (*old(iter)).obeys_prophetic_iter_laws() ==> {
                &&& n == min(
                    (*old(iter)).remaining().len() as int,
                    old(self).capacity_view() - old(self).seen_len(),
                )
                &&& final(self).pending(*final(rb)) == old(self).pending(*old(rb)) + (*old(
                    iter,
                )).remaining().take(n as int)
                &&& (*final(iter)).remaining() == (*old(iter)).remaining().skip(n as int)
            },
    {
        let ghost rb0 = *rb;
        let ghost old_self = *self;
        let ghost p0 = old_self.pending(rb0);
        let mut n: usize = 0;
        proof {
            self.counter.lemma_inv();
            assert((*old(iter)).remaining().take(0) =~= Seq::<T>::empty());
            assert((*old(iter)).remaining().skip(0) =~= (*old(iter)).remaining());
            assert(p0.take(p0.len() as int) =~= p0);
            assert(ring_slots(rb0.slots(), rb0.capacity_view() as int, rb0.write_view(), 0)
                =~= Seq::<Option<T>>::empty());
        }
        loop
            invariant
                rb0.structural(),
                self.attached(*rb),
                producer_step(rb0, *rb),
                rb.read_view() == rb0.read_view(),
                rb.write_view() == rb0.write_view(),
                self.capacity_view() == old_self.capacity_view(),
                self.head_view() == old_self.head_view(),
                p0 == old_self.pending(rb0),
                n <= old_self.capacity_view() - old_self.seen_len(),
                self.seen_len() == old_self.seen_len() + n,
                self.pending(*rb).len() == p0.len() + n,
                self.pending(*rb).take(p0.len() as int) == p0,
                (*iter).obeys_prophetic_iter_laws() == (*old(iter)).obeys_prophetic_iter_laws(),
                (*old(iter)).obeys_prophetic_iter_laws() ==> {
                    &&& n <= (*old(iter)).remaining().len()
                    &&& self.pending(*rb) == p0 + (*old(iter)).remaining().take(n as int)
                    &&& (*iter).remaining() == (*old(iter)).remaining().skip(n as int)
                },
            ensures
                self.attached(*rb),
                producer_step(rb0, *rb),
                rb.read_view() == rb0.read_view(),
                rb.write_view() == rb0.write_view(),
                self.capacity_view() == old_self.capacity_view(),
                self.head_view() == old_self.head_view(),
                n <= old_self.capacity_view() - old_self.seen_len(),
                self.seen_len() == old_self.seen_len() + n,
                self.pending(*rb).len() == p0.len() + n,
                self.pending(*rb).take(p0.len() as int) == p0,
                (*old(iter)).obeys_prophetic_iter_laws() ==> {
                    &&& n == min(
                        (*old(iter)).remaining().len() as int,
                        old_self.capacity_view() - old_self.seen_len(),
                    )
                    &&& self.pending(*rb) == p0 + (*old(iter)).remaining().take(n as int)
                    &&& (*iter).remaining() == (*old(iter)).remaining().skip(n as int)
                },
            decreases old_self.capacity_view() - old_self.seen_len() - n,
        {
            proof {
                self.counter.lemma_inv();
            }
            if self.counter.is_full() {
                break;
            }
            let ghost rb1 = *rb;
            let ghost before = self.pending(*rb);
            match iter.next() {
                Some(elem) => {
                    let _ = self.push(rb, elem);
                    n = n + 1;
                    proof {
                        lemma_producer_steps_compose(rb0, rb1, *rb);
                        assert(self.pending(*rb).take(p0.len() as int) =~= before.take(
                            p0.len() as int,
                        ));
                        if (*old(iter)).obeys_prophetic_iter_laws() {
                            assert((*old(iter)).remaining().take(n as int) =~= (*old(
                                iter,
                            )).remaining().take(n - 1).push(elem));
                            assert((*iter).remaining() =~= (*old(iter)).remaining().skip(
                                n as int,
                            ));
                        }
                    }
                },
                None => {
                    break;
                },
            }
        }
        n
    }
}

impl LocalProducer {
    /// Removes at most `count` of the items that `cons`, a consumer of another
    /// ring buffer `src`, sees and appends them to `self`, oldest first,
    /// without committing at either end. If `count` is `None` then as many
    /// items as possible are moved.
    ///
    /// Returns the number of items moved.
    pub fn transfer_from<T>(
        &mut self,
        rb: &mut LocalRb<T>,
        cons: &mut LocalConsumer,
        src: &mut LocalRb<T>,
        count: Option<usize>,
    ) -> (n: usize)
        requires
            old(self).attached(*old(rb)),
            old(cons).attached(*old(src)),
        ensures
            final(self).attached(*final(rb)),
            final(cons).attached(*final(src)),
            producer_step(*old(rb), *final(rb)),
            consumer_step(*old(src), *final(src)),
            final(rb).read_view() == old(rb).read_view(),
            final(rb).write_view() == old(rb).write_view(),
            final(src).read_view() == old(src).read_view(),
            final(src).write_view() == old(src).write_view(),
            final(self).capacity_view() == old(self).capacity_view(),
            final(self).head_view() == old(self).head_view(),
            final(cons).capacity_view() == old(cons).capacity_view(),
            final(cons).tail_view() == old(cons).tail_view(),
            final(cons).unfetched(*final(src)) == old(cons).unfetched(*old(src)),
            n == transfer_count(
                count,
                old(cons).items(*old(src)).len() as int,
                old(self).capacity_view() - old(self).seen_len(),
            ),
            final(cons).items(*final(src)) == old(cons).items(*old(src)).skip(n as int),
            final(self).pending(*final(rb)) == old(self).pending(*old(rb)) + old(cons).items(
                *old(src),
            ).take(n as int),
    {
        cons.transfer_to(src, self, rb, count)
    }
}

impl LocalConsumer {
    /// The local copy of the counter.
    pub closed spec fn counter_view(&self) -> LocalCounter {
        self.counter
    }

    /// Capacity of the ring buffer.
    pub open spec fn capacity_view(&self) -> nat {
        self.counter_view().len_view()
    }

    /// The consumer's own read position.
    pub open spec fn head_view(&self) -> int {
        self.counter_view().head_view()
    }

    /// The write position as last fetched.
    pub open spec fn tail_view(&self) -> int {
        self.counter_view().tail_view()
    }

    /// Slots of the items the consumer sees, oldest first.
    pub open spec fn item_slots<T>(&self, rb: LocalRb<T>) -> Seq<Option<T>> {
        ring_slots(
            rb.slots(),
            self.capacity_view() as int,
            self.head_view(),
            distance(self.capacity_view() as int, self.head_view(), self.tail_view()),
        )
    }

    /// Items the consumer sees, oldest first.
    pub open spec fn items<T>(&self, rb: LocalRb<T>) -> Seq<T> {
        unwrap_all(self.item_slots(rb))
    }

    /// Items committed by the producer but not fetched yet, oldest first.
    pub open spec fn unfetched<T>(&self, rb: LocalRb<T>) -> Seq<T> {
        unwrap_all(
            ring_slots(
                rb.slots(),
                self.capacity_view() as int,
                self.tail_view(),
                distance(self.capacity_view() as int, self.tail_view(), rb.write_view()),
            ),
        )
    }

    /// `self` is a consumer of `rb`: its read position is not behind the ring
    /// buffer's, its cached write position is not ahead of it, and every
    /// committed item from its read position on is in the storage.
    pub open spec fn attached<T>(&self, rb: LocalRb<T>) -> bool {
        let c = self.capacity_view() as int;
        &&& self.counter_view().inv()
        &&& rb.structural()
        &&& rb.capacity_view() == c
        &&& distance(c, rb.read_view(), self.head_view()) + distance(
            c,
            self.head_view(),
            self.tail_view(),
        ) + distance(c, self.tail_view(), rb.write_view()) == distance(
            c,
            rb.read_view(),
            rb.write_view(),
        )
        &&& all_some(ring_slots(rb.slots(), c, self.head_view(), distance(c, self.head_view(), rb.write_view())))
    }

    /// Takes the consumer side of `rb`, with nothing removed.
    pub fn acquire<T>(rb: &LocalRb<T>) -> (r: Self)
        requires
            rb.wf(),
        ensures
            r.attached(*rb),
            r.capacity_view() == rb.capacity_view(),
            r.head_view() == rb.read_view(),
            r.tail_view() == rb.write_view(),
            r.items(*rb) == rb.items(),
    {
        proof {
            rb.lemma_raw_inv();
        }
        LocalConsumer { counter: LocalCounter::new(rb.slot_count(), rb.read_end(), rb.write_end()) }
    }

    /// Capacity of the ring buffer.
    pub fn capacity(&self) -> (c: usize)
        requires
            self.counter_view().inv(),
        ensures
            c == self.capacity_view(),
    {
        self.counter.len()
    }

    /// The number of items the consumer sees.
    pub fn len(&self) -> (n: usize)
        requires
            self.counter_view().inv(),
        ensures
            n == distance(self.capacity_view() as int, self.head_view(), self.tail_view()),
    {
        self.counter.occupied_len()
    }

    /// The number of free places as seen by the consumer.
    pub fn remaining(&self) -> (n: usize)
        requires
            self.counter_view().inv(),
        ensures
            n == self.capacity_view() - distance(
                self.capacity_view() as int,
                self.head_view(),
                self.tail_view(),
            ),
    {
        self.counter.vacant_len()
    }

    /// Checks if the consumer sees no item.
    pub fn is_empty(&self) -> (b: bool)
        requires
            self.counter_view().inv(),
        ensures
            b == (distance(self.capacity_view() as int, self.head_view(), self.tail_view()) == 0),
    {
        self.counter.is_empty()
    }

    /// Checks if the ring buffer is full as seen by the consumer.
    pub fn is_full(&self) -> (b: bool)
        requires
            self.counter_view().inv(),
        ensures
            b == (distance(self.capacity_view() as int, self.head_view(), self.tail_view())
                == self.capacity_view()),
    {
        self.counter.is_full()
    }

    /// Returns the places of the removed items to the ring buffer.
    pub fn commit<T>(&self, rb: &mut LocalRb<T>)
        requires
            self.attached(*old(rb)),
        ensures
            self.attached(*final(rb)),
            consumer_step(*old(rb), *final(rb)),
            final(rb).slots() == old(rb).slots(),
            final(rb).write_view() == old(rb).write_view(),
            final(rb).read_view() == self.head_view(),
            self.items(*final(rb)) == self.items(*old(rb)),
    {
        proof {
            self.counter.lemma_inv();
            rb.lemma_raw_inv();
        }
        let head = self.counter.head();
        rb.set_read_end(head);
    }

    /// Fetches the producer's progress: the write position of the ring buffer.
    pub fn fetch<T>(&mut self, rb: &LocalRb<T>)
        requires
            old(self).attached(*rb),
        ensures
            final(self).attached(*rb),
            final(self).capacity_view() == old(self).capacity_view(),
            final(self).head_view() == old(self).head_view(),
            final(self).tail_view() == rb.write_view(),
            final(self).items(*rb) == old(self).items(*rb) + old(self).unfetched(*rb),
            final(self).unfetched(*rb) == Seq::<T>::empty(),
    {
        let ghost c = self.capacity_view() as int;
        let ghost old_self = *self;
        proof {
            self.counter.lemma_inv();
            rb.lemma_raw_inv();
            lemma_wrap_distance(c, self.head_view(), self.tail_view());
            lemma_ring_split(
                rb.slots(),
                c,
                self.head_view(),
                distance(c, self.head_view(), self.tail_view()),
                distance(c, self.tail_view(), rb.write_view()),
            );
        }
        self.counter.set_tail(rb.write_end());
        proof {
            assert(self.items(*rb) =~= old_self.items(*rb) + old_self.unfetched(*rb));
            assert(self.unfetched(*rb) =~= Seq::<T>::empty());
        }
    }

    /// Removes the oldest item the consumer sees and returns it, without
    /// returning its place to the ring buffer.
    ///
    /// Returns `None` if the consumer sees no item.
    pub fn pop<T>(&mut self, rb: &mut LocalRb<T>) -> (r: Option<T>)
        requires
            old(self).attached(*old(rb)),
        ensures
            final(self).attached(*final(rb)),
            consumer_step(*old(rb), *final(rb)),
            final(rb).read_view() == old(rb).read_view(),
            final(rb).write_view() == old(rb).write_view(),
            final(self).capacity_view() == old(self).capacity_view(),
            final(self).tail_view() == old(self).tail_view(),
            final(self).unfetched(*final(rb)) == old(self).unfetched(*old(rb)),
            old(self).items(*old(rb)).len() == 0 ==> r is None && *final(self) == *old(self)
                && *final(rb) == *old(rb),
            old(self).items(*old(rb)).len() > 0 ==> r == Some(old(self).items(*old(rb))[0])
                && final(self).items(*final(rb)) == old(self).items(*old(rb)).drop_first()
                && final(self).head_view() == wrap(
                old(self).capacity_view() as int,
                old(self).head_view() + 1,
            ),
    {
        proof {
            self.counter.lemma_inv();
        }
        if self.counter.is_empty() {
            None
        } else {
            let ghost c = self.capacity_view() as int;
            let ghost rb0 = *rb;
            let ghost old_self = *self;
            let ghost h = self.head_view();
            let ghost len = distance(c, h, self.tail_view());
            let head = self.counter.head();
            proof {
                lemma_wrap_distance(c, rb0.read_view(), h);
                lemma_ring_split(rb0.slots(), c, h, 1, len - 1);
                assert(ring_slots(rb0.slots(), c, h, distance(c, h, rb0.write_view()))[0] is Some);
                assert(old_self.item_slots(rb0)[0] is Some);
            }
            let item = rb.take_item(head);
            self.counter.advance_head(1);
            proof {
                lemma_consumer_removed(old_self, *self, rb0, *rb, 1);
            }
            item
        }
    }

    /// Removes at most `count` of the items the consumer sees, oldest first,
    /// and drops them, without returning their places to the ring buffer.
    ///
    /// Returns the number of removed items.
    pub fn skip<T>(&mut self, rb: &mut LocalRb<T>, count: usize) -> (n: usize)
        requires
            old(self).attached(*old(rb)),
        ensures
            final(self).attached(*final(rb)),
            consumer_step(*old(rb), *final(rb)),
            final(rb).read_view() == old(rb).read_view(),
            final(rb).write_view() == old(rb).write_view(),
            final(self).capacity_view() == old(self).capacity_view(),
            final(self).tail_view() == old(self).tail_view(),
            final(self).unfetched(*final(rb)) == old(self).unfetched(*old(rb)),
            n == min(count as int, old(self).items(*old(rb)).len() as int),
            final(self).items(*final(rb)) == old(self).items(*old(rb)).skip(n as int),
            final(self).head_view() == wrap(old(self).capacity_view() as int, old(self).head_view() + n),
    {
        proof {
            self.counter.lemma_inv();
        }
        let len = self.counter.occupied_len();
        let n: usize = if count < len {
            count
        } else {
            len
        };
        let ghost c = self.capacity_view() as int;
        let ghost rb0 = *rb;
        let ghost old_self = *self;
        let ghost h = self.head_view();
        let ghost l = len as int;
        let ghost rest = distance(c, h, rb0.write_view());
        let head = self.counter.head();
        proof {
            lemma_wrap_distance(c, rb0.read_view(), h);
        }
        rb.drop_items(head, n);
        self.counter.advance_head(n);
        proof {
            lemma_consumer_removed(old_self, *self, rb0, *rb, n as int);
        }
        n
    }

    /// Removes all the items the consumer sees and drops them, without
    /// returning their places to the ring buffer.
    ///
    /// Returns the number of removed items.
    pub fn clear<T>(&mut self, rb: &mut LocalRb<T>) -> (n: usize)
        requires
            old(self).attached(*old(rb)),
        ensures
            final(self).attached(*final(rb)),
            consumer_step(*old(rb), *final(rb)),
            final(rb).read_view() == old(rb).read_view(),
            final(rb).write_view() == old(rb).write_view(),
            final(self).capacity_view() == old(self).capacity_view(),
            final(self).tail_view() == old(self).tail_view(),
            final(self).head_view() == old(self).tail_view(),
            final(self).unfetched(*final(rb)) == old(self).unfetched(*old(rb)),
            n == old(self).items(*old(rb)).len(),
            final(self).items(*final(rb)) == Seq::<T>::empty(),
    {
        proof {
            self.counter.lemma_inv();
            lemma_wrap_distance(self.capacity_view() as int, self.head_view(), self.tail_view());
        }
        let len = self.counter.occupied_len();
        let n = self.skip(rb, len);
        proof {
            assert(self.items(*rb) =~= Seq::<T>::empty());
        }
        n
    }
}

impl LocalConsumer {
    /// Returns a pair of vectors which hold, in order, the items the consumer
    /// sees: the first one those up to the end of the storage, the second one
    /// those that wrap around to its start.
    pub fn as_slices<T: Copy>(&self, rb: &LocalRb<T>) -> (r: (Vec<T>, Vec<T>))
        requires
            self.attached(*rb),
        ensures
            r.0@ + r.1@ == self.items(*rb),
            r.0@.len() == if slot(self.capacity_view() as int, self.head_view())
                + self.items(*rb).len() <= self.capacity_view() {
                self.items(*rb).len() as int
            } else {
                self.capacity_view() - slot(self.capacity_view() as int, self.head_view())
            },
    {
        let ghost c = self.capacity_view() as int;
        let ghost h = self.head_view();
        proof {
            self.counter.lemma_inv();
            lemma_wrap_distance(c, rb.read_view(), h);
            lemma_ring_split(
                rb.slots(),
                c,
                h,
                distance(c, h, self.tail_view()),
                distance(c, self.tail_view(), rb.write_view()),
            );
            let run = ring_slots(rb.slots(), c, h, distance(c, h, self.tail_view()));
            assert forall|i: int| 0 <= i < run.len() implies (#[trigger] run[i]) is Some by {
                assert(run[i] == ring_slots(rb.slots(), c, h, distance(c, h, rb.write_view()))[i]);
            }
        }
        rb.copy_runs(self.counter.head(), self.counter.tail())
    }
}

impl LocalConsumer {
    /// Copies the oldest items the consumer sees into `elems`, as many as fit,
    /// and removes them, without returning their places to the ring buffer.
    ///
    /// Returns the number of items copied.
    pub fn pop_slice<T: Copy>(&mut self, rb: &LocalRb<T>, elems: &mut [T]) -> (n: usize)
        requires
            old(self).attached(*rb),
        ensures
            final(self).attached(*rb),
            final(self).capacity_view() == old(self).capacity_view(),
            final(self).tail_view() == old(self).tail_view(),
            final(self).unfetched(*rb) == old(self).unfetched(*rb),
            n == min(old(elems)@.len() as int, old(self).items(*rb).len() as int),
            final(elems)@ == old(self).items(*rb).take(n as int) + old(elems)@.skip(n as int),
            final(self).items(*rb) == old(self).items(*rb).skip(n as int),
            final(self).head_view() == wrap(old(self).capacity_view() as int, old(self).head_view() + n),
    {
        proof {
            self.counter.lemma_inv();
        }
        let len = self.counter.occupied_len();
        let n: usize = if elems.len() < len {
            elems.len()
        } else {
            len
        };
        let ghost c = self.capacity_view() as int;
        let ghost old_self = *self;
        let ghost h = self.head_view();
        let ghost l = len as int;
        let ghost rest = distance(c, h, rb.write_view());
        let head = self.counter.head();
        proof {
            lemma_wrap_distance(c, rb.read_view(), h);
            lemma_ring_split(rb.slots(), c, h, n as int, rest - n);
            lemma_ring_split(rb.slots(), c, h, l, rest - l);
            lemma_ring_split(rb.slots(), c, h, n as int, l - n);
            lemma_distance_wrap(c, h, n as int);
            let front = ring_slots(rb.slots(), c, h, n as int);
            assert forall|i: int| 0 <= i < front.len() implies (#[trigger] front[i]) is Some by {
                assert(front[i] == ring_slots(rb.slots(), c, h, rest)[i]);
            }
        }
        rb.copy_items(head, elems, n);
        self.counter.advance_head(n);
        proof {
            let h1 = wrap(c, h + n);
            lemma_ring_split(rb.slots(), c, h1, l - n, rest - l);
            assert forall|i: int| 0 <= i < rest - n implies (#[trigger] ring_slots(
                rb.slots(),
                c,
                h1,
                rest - n,
            )[i]) is Some by {
                assert(ring_slots(rb.slots(), c, h, rest)[n + i] is Some);
            }
            assert(self.item_slots(*rb) =~= old_self.item_slots(*rb).skip(n as int));
            assert(self.items(*rb) =~= old_self.items(*rb).skip(n as int));
            assert(unwrap_all(ring_slots(rb.slots(), c, h, n as int)) =~= old_self.items(*rb).take(
                n as int,
            ));
        }
        n
    }
}

impl LocalConsumer {
    /// Removes at most `count` of the items the consumer sees and appends them
    /// to `prod`, the producer of the same ring buffer `rb`, oldest first,
    /// without committing at either end. If `count` is `None` then as many
    /// items as possible are moved.
    ///
    /// The places freed by the removed items are not the producer's to fill
    /// until the consumer commits and the producer fetches, so the producer's
    /// room as it sees it bounds the count. Returns the number of items moved.
    pub fn transfer_within<T>(
        &mut self,
        prod: &mut LocalProducer,
        rb: &mut LocalRb<T>,
        count: Option<usize>,
    ) -> (n: usize)
        requires
            old(self).attached(*old(rb)),
            old(prod).attached(*old(rb)),
        ensures
            final(self).attached(*final(rb)),
            final(prod).attached(*final(rb)),
            final(rb).read_view() == old(rb).read_view(),
            final(rb).write_view() == old(rb).write_view(),
            final(self).capacity_view() == old(self).capacity_view(),
            final(self).tail_view() == old(self).tail_view(),
            final(prod).capacity_view() == old(prod).capacity_view(),
            final(prod).head_view() == old(prod).head_view(),
            final(self).unfetched(*final(rb)) == old(self).unfetched(*old(rb)),
            n == transfer_count(
                count,
                old(self).items(*old(rb)).len() as int,
                old(prod).capacity_view() - old(prod).seen_len(),
            ),
            final(self).items(*final(rb)) == old(self).items(*old(rb)).skip(n as int),
            final(prod).pending(*final(rb)) == old(prod).pending(*old(rb)) + old(self).items(
                *old(rb),
            ).take(n as int),
    {
        let ghost rb0 = *rb;
        let ghost cons0 = *self;
        let ghost prod0 = *prod;
        let ghost s0 = self.items(*rb);
        let ghost p0 = prod.pending(*rb);
        let ghost u0 = self.unfetched(*rb);
        let ghost room = prod.capacity_view() - prod.seen_len();
        let mut n: usize = 0;
        proof {
            self.counter.lemma_inv();
            prod.counter.lemma_inv();
            assert(s0.skip(0) =~= s0);
            assert(p0 + s0.take(0) =~= p0);
        }
        loop
            invariant
                self.attached(*rb),
                prod.attached(*rb),
                rb.read_view() == rb0.read_view(),
                rb.write_view() == rb0.write_view(),
                self.capacity_view() == cons0.capacity_view(),
                self.tail_view() == cons0.tail_view(),
                prod.capacity_view() == prod0.capacity_view(),
                prod.head_view() == prod0.head_view(),
                self.unfetched(*rb) == u0,
                room == prod0.capacity_view() - prod0.seen_len(),
                s0.len() < usize::MAX,
                n <= s0.len(),
                n <= room,
                prod.capacity_view() - prod.seen_len() == room - n,
                self.items(*rb) == s0.skip(n as int),
                prod.pending(*rb) == p0 + s0.take(n as int),
                match count {
                    Some(c) => n <= c,
                    None => true,
                },
            ensures
                self.attached(*rb),
                prod.attached(*rb),
                rb.read_view() == rb0.read_view(),
                rb.write_view() == rb0.write_view(),
                self.capacity_view() == cons0.capacity_view(),
                self.tail_view() == cons0.tail_view(),
                prod.capacity_view() == prod0.capacity_view(),
                prod.head_view() == prod0.head_view(),
                self.unfetched(*rb) == u0,
                n == transfer_count(count, s0.len() as int, room),
                self.items(*rb) == s0.skip(n as int),
                prod.pending(*rb) == p0 + s0.take(n as int),
            decreases s0.len() - n,
        {
            proof {
                self.counter.lemma_inv();
                prod.counter.lemma_inv();
            }
            let limit_reached = match count {
                Some(c) => n >= c,
                None => false,
            };
            if limit_reached || self.counter.is_empty() || prod.counter.is_full() {
                proof {
                    assert(self.items(*rb).len() == s0.len() - n);
                }
                break;
            }
            let ghost rb1 = *rb;
            let item = self.pop(rb);
            proof {
                lemma_consumer_step_keeps_producer(*prod, rb1, *rb);
            }
            match item {
                Some(x) => {
                    let ghost rb2 = *rb;
                    let _ = prod.push(rb, x);
                    proof {
                        lemma_producer_step_keeps_consumer(*self, rb2, *rb);
                        assert(ring_slots(
                            rb.slots(),
                            rb2.capacity_view() as int,
                            rb2.write_view(),
                            distance(rb2.capacity_view() as int, rb2.write_view(), rb.write_view()),
                        ) =~= Seq::<Option<T>>::empty());
                        assert(self.unfetched(*rb) =~= self.unfetched(rb2));
                        assert(s0.take(n + 1) =~= s0.take(n as int).push(x)) by {
                            assert(x == s0.skip(n as int)[0]);
                        }
                        assert(s0.skip(n + 1) =~= s0.skip(n as int).drop_first());
                    }
                    n = n + 1;
                },
                None => {
                    break;
                },
            }
        }
        n
    }
}

impl LocalConsumer {
    /// Removes at most `count` of the items the consumer sees and appends them
    /// to `prod`, a producer of another ring buffer `dst`, oldest first,
    /// without committing at either end. If `count` is `None` then as many
    /// items as possible are moved.
    ///
    /// Returns the number of items moved.
    pub fn transfer_to<T>(
        &mut self,
        rb: &mut LocalRb<T>,
        prod: &mut LocalProducer,
        dst: &mut LocalRb<T>,
        count: Option<usize>,
    ) -> (n: usize)
        requires
            old(self).attached(*old(rb)),
            old(prod).attached(*old(dst)),
        ensures
            final(self).attached(*final(rb)),
            final(prod).attached(*final(dst)),
            consumer_step(*old(rb), *final(rb)),
            producer_step(*old(dst), *final(dst)),
            final(rb).read_view() == old(rb).read_view(),
            final(rb).write_view() == old(rb).write_view(),
            final(dst).read_view() == old(dst).read_view(),
            final(dst).write_view() == old(dst).write_view(),
            final(self).capacity_view() == old(self).capacity_view(),
            final(self).tail_view() == old(self).tail_view(),
            final(prod).capacity_view() == old(prod).capacity_view(),
            final(prod).head_view() == old(prod).head_view(),
            final(self).unfetched(*final(rb)) == old(self).unfetched(*old(rb)),
            n == transfer_count(
                count,
                old(self).items(*old(rb)).len() as int,
                old(prod).capacity_view() - old(prod).seen_len(),
            ),
            final(self).items(*final(rb)) == old(self).items(*old(rb)).skip(n as int),
            final(prod).pending(*final(dst)) == old(prod).pending(*old(dst)) + old(self).items(
                *old(rb),
            ).take(n as int),
    {
        let ghost rb0 = *rb;
        let ghost dst0 = *dst;
        let ghost cons0 = *self;
        let ghost prod0 = *prod;
        let ghost s0 = self.items(*rb);
        let ghost p0 = prod.pending(*dst);
        let ghost room = prod.capacity_view() - prod.seen_len();
        let mut n: usize = 0;
        proof {
            self.counter.lemma_inv();
            prod.counter.lemma_inv();
            assert(s0.skip(0) =~= s0);
            assert(p0 + s0.take(0) =~= p0);
            assert(same_outside(rb0.slots(), rb0.slots(), rb0.capacity_view() as int, rb0.read_view(), 0));
            assert(ring_slots(dst0.slots(), dst0.capacity_view() as int, dst0.write_view(), 0)
                =~= Seq::<Option<T>>::empty());
        }
        loop
            invariant
                rb0.structural(),
                dst0.structural(),
                self.attached(*rb),
                prod.attached(*dst),
                consumer_step(rb0, *rb),
                producer_step(dst0, *dst),
                rb.read_view() == rb0.read_view(),
                rb.write_view() == rb0.write_view(),
                dst.read_view() == dst0.read_view(),
                dst.write_view() == dst0.write_view(),
                self.capacity_view() == cons0.capacity_view(),
                self.tail_view() == cons0.tail_view(),
                prod.capacity_view() == prod0.capacity_view(),
                prod.head_view() == prod0.head_view(),
                self.unfetched(*rb) == cons0.unfetched(rb0),
                room == prod0.capacity_view() - prod0.seen_len(),
                s0.len() < usize::MAX,
                n <= s0.len(),
                n <= room,
                prod.capacity_view() - prod.seen_len() == room - n,
                self.items(*rb) == s0.skip(n as int),
                prod.pending(*dst) == p0 + s0.take(n as int),
                match count {
                    Some(c) => n <= c,
                    None => true,
                },
            ensures
                self.attached(*rb),
                prod.attached(*dst),
                consumer_step(rb0, *rb),
                producer_step(dst0, *dst),
                rb.read_view() == rb0.read_view(),
                rb.write_view() == rb0.write_view(),
                dst.read_view() == dst0.read_view(),
                dst.write_view() == dst0.write_view(),
                self.capacity_view() == cons0.capacity_view(),
                self.tail_view() == cons0.tail_view(),
                prod.capacity_view() == prod0.capacity_view(),
                prod.head_view() == prod0.head_view(),
                self.unfetched(*rb) == cons0.unfetched(rb0),
                n == transfer_count(count, s0.len() as int, room),
                self.items(*rb) == s0.skip(n as int),
                prod.pending(*dst) == p0 + s0.take(n as int),
            decreases s0.len() - n,
        {
            proof {
                self.counter.lemma_inv();
                prod.counter.lemma_inv();
            }
            let limit_reached = match count {
                Some(c) => n >= c,
                None => false,
            };
            if limit_reached || self.counter.is_empty() || prod.counter.is_full() {
                proof {
                    assert(self.items(*rb).len() == s0.len() - n);
                }
                break;
            }
            let ghost rb1 = *rb;
            let ghost dst1 = *dst;
            let item = self.pop(rb);
            match item {
                Some(x) => {
                    let _ = prod.push(dst, x);
                    proof {
                        lemma_consumer_steps_compose(rb0, rb1, *rb);
                        lemma_producer_steps_compose(dst0, dst1, *dst);
                        assert(s0.take(n + 1) =~= s0.take(n as int).push(x)) by {
                            assert(x == s0.skip(n as int)[0]);
                        }
                        assert(s0.skip(n + 1) =~= s0.skip(n as int).drop_first());
                    }
                    n = n + 1;
                },
                None => {
                    break;
                },
            }
        }
        n
    }
}

impl<T> LocalRb<T> {
    /// Splits the ring buffer into a producer and a consumer that work on it
    /// side by side, each of them handed the ring buffer on every call.
    pub fn split_ref(&self) -> (r: (LocalProducer, LocalConsumer))
        requires
            self.wf(),
        ensures
            r.0.attached(*self),
            r.1.attached(*self),
            r.0.pending(*self) == Seq::<T>::empty(),
            r.1.items(*self) == self.items(),
            r.1.unfetched(*self) == Seq::<T>::empty(),
            r.0.capacity_view() == self.capacity_view(),
            r.1.capacity_view() == self.capacity_view(),
            r.0.head_view() == self.read_view(),
            r.0.tail_view() == self.write_view(),
            r.1.head_view() == self.read_view(),
            r.1.tail_view() == self.write_view(),
            r.0.seen_len() == self.items().len(),
            r.0.capacity_view() - r.0.seen_len() == self.capacity_view() - self.items().len(),
    {
        let prod = LocalProducer::acquire(self);
        let cons = LocalConsumer::acquire(self);
        proof {
            assert(cons.unfetched(*self) =~= Seq::<T>::empty());
            lemma_synced_producer_sees_buffer(prod, *self);
        }
        (prod, cons)
    }
}

/// A producer whose positions are those of its ring buffer (as after
/// [`LocalRb::split_ref`], [`LocalProducer::acquire`], or a commit followed by
/// a fetch) sees the ring buffer as it is: as many items as it holds and as
/// much room as it has left, with nothing pending.
pub proof fn lemma_synced_producer_sees_buffer<T>(prod: LocalProducer, rb: LocalRb<T>)
    requires
        rb.wf(),
        prod.attached(rb),
        prod.head_view() == rb.read_view(),
        prod.tail_view() == rb.write_view(),
    ensures
        prod.seen_len() == rb.items().len(),
        prod.capacity_view() - prod.seen_len() == rb.capacity_view() - rb.items().len(),
        prod.pending(rb) == Seq::<T>::empty(),
{
    rb.lemma_inv();
    assert(prod.pending(rb) =~= Seq::<T>::empty());
}

/// What a producer commits reaches the consumer of the same ring buffer:
/// after the commit, the items the consumer has yet to fetch are those it had
/// yet to fetch followed by the producer's pending items, in order.
pub proof fn lemma_commit_reaches_consumer<T>(
    prod: LocalProducer,
    cons: LocalConsumer,
    rb: LocalRb<T>,
    rb2: LocalRb<T>,
)
    requires
        prod.attached(rb),
        cons.attached(rb),
        producer_step(rb, rb2),
        rb2.slots() == rb.slots(),
        rb2.write_view() == prod.tail_view(),
    ensures
        cons.attached(rb2),
        cons.items(rb2) == cons.items(rb),
        cons.unfetched(rb2) == cons.unfetched(rb) + prod.pending(rb),
{
    lemma_producer_step_keeps_consumer(cons, rb, rb2);
}

/// What both ends leave in the ring buffer: once the consumer and the
/// producer of `rb` have both committed (in either order, which gives `rb2`),
/// the ring buffer holds the items the consumer still sees, then those it has
/// yet to fetch, then the producer's pending items. Right after
/// [`LocalRb::split_ref`] these are the ring buffer's items and nothing, and
/// each call on either side changes them as its contract says, so the ring
/// buffer ends with its items minus those popped, followed by those pushed.
pub proof fn lemma_both_commit<T>(
    prod: LocalProducer,
    cons: LocalConsumer,
    rb: LocalRb<T>,
    rb2: LocalRb<T>,
)
    requires
        prod.attached(rb),
        cons.attached(rb),
        rb2.slots() == rb.slots(),
        rb2.capacity_view() == rb.capacity_view(),
        rb2.read_view() == cons.head_view(),
        rb2.write_view() == prod.tail_view(),
    ensures
        rb2.wf(),
        rb2.items() == cons.items(rb) + cons.unfetched(rb) + prod.pending(rb),
{
    let c = rb.capacity_view() as int;
    let r = rb.read_view();
    let w = rb.write_view();
    let h = cons.head_view();
    let t = cons.tail_view();
    let tail = prod.tail_view();
    let b = distance(c, h, t);
    let e = distance(c, t, w);
    let p = prod.pending_count(rb);
    cons.counter_view().lemma_inv();
    prod.counter_view().lemma_inv();
    lemma_wrap_distance(c, r, h);
    lemma_wrap_distance(c, h, t);
    lemma_wrap_distance(c, t, w);
    lemma_wrap_distance(c, r, w);
    lemma_wrap_distance(c, w, tail);
    lemma_distance_add(c, h, t, w);
    lemma_distance_add(c, h, w, tail);
    assert(distance(c, h, tail) == b + e + p);
    lemma_ring_split(rb.slots(), c, h, b + e, p);
    lemma_ring_split(rb.slots(), c, h, b, e);
    let all = ring_slots(rb.slots(), c, h, b + e + p);
    assert forall|i: int| 0 <= i < all.len() implies (#[trigger] all[i]) is Some by {
        if i < b + e {
            assert(all[i] == ring_slots(rb.slots(), c, h, distance(c, h, w))[i]);
        } else {
            assert(all[i] == prod.pending_slots(rb)[i - b - e]);
        }
    }
    assert(rb2.occupied_slots() == all);
    assert(rb2.items() =~= cons.items(rb) + cons.unfetched(rb) + prod.pending(rb));
}

/// The counts each side sees are on the safe side: the producer counts at
/// least the committed items and its own pending ones (so it never sees more
/// room than there is), the consumer counts no more than the committed items
/// from its read position on (so it never sees an item that is not there).
pub proof fn lemma_seen_counts_are_safe<T>(prod: LocalProducer, cons: LocalConsumer, rb: LocalRb<T>)
    requires
        prod.attached(rb),
        cons.attached(rb),
    ensures
        distance(rb.capacity_view() as int, rb.read_view(), rb.write_view()) + prod.pending_count(rb)
            <= prod.seen_len(),
        cons.items(rb).len() + cons.unfetched(rb).len() <= distance(
            rb.capacity_view() as int,
            rb.read_view(),
            rb.write_view(),
        ),
{
    cons.counter_view().lemma_inv();
    prod.counter_view().lemma_inv();
}

/// Two producer steps in a row are a producer step.
pub proof fn lemma_producer_steps_compose<T>(rb: LocalRb<T>, rb1: LocalRb<T>, rb2: LocalRb<T>)
    requires
        rb.structural(),
        producer_step(rb, rb1),
        producer_step(rb1, rb2),
        rb1.write_view() == rb.write_view(),
    ensures
        producer_step(rb, rb2),
{
    let c = rb.capacity_view() as int;
    let n = distance(c, rb.read_view(), rb.write_view());
    assert(ring_slots(rb2.slots(), c, rb.read_view(), n) == ring_slots(rb.slots(), c, rb.read_view(), n));
    assert(ring_slots(rb1.slots(), c, rb.write_view(), 0) =~= ring_slots(rb2.slots(), c, rb.write_view(), 0));
}

/// Two consumer steps in a row, the first of which keeps the read position,
/// are a consumer step.
proof fn lemma_consumer_steps_compose<T>(rb: LocalRb<T>, rb1: LocalRb<T>, rb2: LocalRb<T>)
    requires
        rb.structural(),
        consumer_step(rb, rb1),
        consumer_step(rb1, rb2),
        rb1.read_view() == rb.read_view(),
    ensures
        consumer_step(rb, rb2),
{
}

/// Taking the `n` oldest items a consumer sees out of `rb` (which gives `rb2`)
/// and moving its read position past them (which gives `cons2`) keeps it
/// attached, leaves it the rest of its items and is a consumer step.
proof fn lemma_consumer_removed<T>(
    cons: LocalConsumer,
    cons2: LocalConsumer,
    rb: LocalRb<T>,
    rb2: LocalRb<T>,
    n: int,
)
    requires
        cons.attached(rb),
        rb2.structural(),
        rb2.capacity_view() == rb.capacity_view(),
        rb2.read_view() == rb.read_view(),
        rb2.write_view() == rb.write_view(),
        0 <= n <= distance(cons.capacity_view() as int, cons.head_view(), cons.tail_view()),
        cons2.counter_view().inv(),
        cons2.capacity_view() == cons.capacity_view(),
        cons2.tail_view() == cons.tail_view(),
        cons2.head_view() == wrap(cons.capacity_view() as int, cons.head_view() + n),
        same_outside(rb2.slots(), rb.slots(), rb.capacity_view() as int, cons.head_view(), n),
    ensures
        cons2.attached(rb2),
        consumer_step(rb, rb2),
        cons2.items(rb2) == cons.items(rb).skip(n),
        cons2.unfetched(rb2) == cons.unfetched(rb),
{
    let c = cons.capacity_view() as int;
    let h = cons.head_view();
    let t = cons.tail_view();
    let l = distance(c, h, t);
    let rest = distance(c, h, rb.write_view());
    let h1 = wrap(c, h + n);
    cons.counter_view().lemma_inv();
    lemma_wrap_distance(c, rb.read_view(), h);
    lemma_wrap_distance(c, h, t);
    lemma_ring_split(rb.slots(), c, h, n, rest - n);
    lemma_distance_wrap(c, h, n);
    if n > 0 {
        lemma_nth_slot(c, h1, 0);
        lemma_ring_frame(rb2.slots(), rb.slots(), c, h1, rest - n, h, n);
    } else {
        assert(rb2.slots() =~= rb.slots());
    }
    assert forall|i: int| 0 <= i < rest - n implies (#[trigger] ring_slots(
        rb2.slots(),
        c,
        h1,
        rest - n,
    )[i]) is Some by {
        assert(ring_slots(rb.slots(), c, h, rest)[n + i] is Some);
    }
    lemma_ring_split(rb2.slots(), c, h1, l - n, rest - l);
    lemma_ring_split(rb.slots(), c, h1, l - n, rest - l);
    lemma_ring_split(rb.slots(), c, h, n, l - n);
    assert(cons2.item_slots(rb2) =~= cons.item_slots(rb).skip(n));
    assert(cons2.items(rb2) =~= cons.items(rb).skip(n));
    lemma_consumer_frame(rb, rb2, h, n);
}

/// Taking items out of the `count` positions after `at`, inside the committed
/// items, is a consumer step.
proof fn lemma_consumer_frame<T>(rb: LocalRb<T>, rb2: LocalRb<T>, at: int, count: int)
    requires
        rb.structural(),
        rb2.structural(),
        rb2.capacity_view() == rb.capacity_view(),
        rb2.read_view() == rb.read_view(),
        rb2.write_view() == rb.write_view(),
        is_index(rb.capacity_view() as int, at),
        0 <= count,
        distance(rb.capacity_view() as int, rb.read_view(), at) + count <= distance(
            rb.capacity_view() as int,
            rb.read_view(),
            rb.write_view(),
        ),
        same_outside(rb2.slots(), rb.slots(), rb.capacity_view() as int, at, count),
    ensures
        consumer_step(rb, rb2),
{
    let c = rb.capacity_view() as int;
    let r = rb.read_view();
    let n = distance(c, r, rb.write_view());
    let d = distance(c, r, at);
    lemma_wrap_distance(c, r, at);
    assert forall|k: int|
        0 <= k < c && slot_offset(c, r, k) >= n implies #[trigger] rb2.slots()[k]
        == rb.slots()[k] by {
        lemma_slot_offset(c, r, k);
        if d < c {
            lemma_nth_slot(c, r, d);
        }
        assert(slot_offset(c, at, k) >= count);
    }
}

/// A call on the producer side leaves a consumer of the same ring buffer as it
/// was: still attached, seeing the same items, and with the newly committed
/// items added to those it has yet to fetch.
pub proof fn lemma_producer_step_keeps_consumer<T>(
    cons: LocalConsumer,
    rb: LocalRb<T>,
    rb2: LocalRb<T>,
)
    requires
        cons.attached(rb),
        producer_step(rb, rb2),
    ensures
        cons.attached(rb2),
        cons.items(rb2) == cons.items(rb),
        cons.unfetched(rb2) == cons.unfetched(rb) + unwrap_all(
            ring_slots(
                rb2.slots(),
                rb.capacity_view() as int,
                rb.write_view(),
                distance(rb.capacity_view() as int, rb.write_view(), rb2.write_view()),
            ),
        ),
{
    let c = rb.capacity_view() as int;
    let r = rb.read_view();
    let w = rb.write_view();
    let w2 = rb2.write_view();
    let h = cons.head_view();
    let t = cons.tail_view();
    let n = distance(c, r, w);
    let a = distance(c, r, h);
    let b = distance(c, h, t);
    let e = distance(c, t, w);
    let g = distance(c, w, w2);
    cons.counter_view().lemma_inv();
    lemma_wrap_distance(c, r, h);
    lemma_wrap_distance(c, h, t);
    lemma_wrap_distance(c, t, w);
    lemma_wrap_distance(c, r, w);
    lemma_wrap_distance(c, w, w2);
    // the committed run splits at the consumer's positions
    lemma_ring_split(rb.slots(), c, r, a, n - a);
    lemma_ring_split(rb2.slots(), c, r, a, n - a);
    lemma_ring_split(rb.slots(), c, h, b, e);
    lemma_ring_split(rb2.slots(), c, h, b, e);
    lemma_ring_split(rb2.slots(), c, h, b + e, g);
    lemma_ring_split(rb2.slots(), c, t, e, g);
    assert(ring_slots(rb2.slots(), c, h, b + e) == ring_slots(rb.slots(), c, h, b + e)) by {
        assert(ring_slots(rb2.slots(), c, h, b + e) =~= ring_slots(rb2.slots(), c, r, n).skip(a));
        assert(ring_slots(rb.slots(), c, h, b + e) =~= ring_slots(rb.slots(), c, r, n).skip(a));
    }
    assert(ring_slots(rb2.slots(), c, h, b) == ring_slots(rb.slots(), c, h, b)) by {
        assert(ring_slots(rb2.slots(), c, h, b) =~= ring_slots(rb2.slots(), c, h, b + e).take(b));
        assert(ring_slots(rb.slots(), c, h, b) =~= ring_slots(rb.slots(), c, h, b + e).take(b));
    }
    assert(ring_slots(rb2.slots(), c, t, e) == ring_slots(rb.slots(), c, t, e)) by {
        assert(ring_slots(rb2.slots(), c, t, e) =~= ring_slots(rb2.slots(), c, h, b + e).skip(b));
        assert(ring_slots(rb.slots(), c, t, e) =~= ring_slots(rb.slots(), c, h, b + e).skip(b));
    }
    let all2 = ring_slots(rb2.slots(), c, h, b + e + g);
    assert forall|i: int| 0 <= i < all2.len() implies (#[trigger] all2[i]) is Some by {
        if i < b + e {
            assert(all2[i] == ring_slots(rb.slots(), c, h, b + e)[i]);
        } else {
            assert(all2[i] == ring_slots(rb2.slots(), c, w, g)[i - b - e]);
        }
    }
    assert(cons.unfetched(rb2) =~= cons.unfetched(rb) + unwrap_all(ring_slots(rb2.slots(), c, w, g)));
}

/// A call on the consumer side leaves a producer of the same ring buffer as it
/// was: still attached, with the same pending items.
pub proof fn lemma_consumer_step_keeps_producer<T>(
    prod: LocalProducer,
    rb: LocalRb<T>,
    rb2: LocalRb<T>,
)
    requires
        prod.attached(rb),
        consumer_step(rb, rb2),
    ensures
        prod.attached(rb2),
        prod.pending(rb2) == prod.pending(rb),
{
    let c = rb.capacity_view() as int;
    let r = rb.read_view();
    let w = rb.write_view();
    let n = distance(c, r, w);
    let p = prod.pending_count(rb);
    prod.counter_view().lemma_inv();
    lemma_wrap_distance(c, r, w);
    assert forall|i: int| 0 <= i < p implies rb2.slots()[nth_slot(c, w, i)] == rb.slots()[nth_slot(c, w, i)] by {
        lemma_nth_slot_shift(c, r, n, i);
        lemma_nth_slot(c, r, n + i);
        lemma_slot_offset(c, r, nth_slot(c, w, i));
    }
    assert(prod.pending_slots(rb2) =~= prod.pending_slots(rb));
}

} // verus!
