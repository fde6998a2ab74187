//! Frozen ends of a ring buffer.
//!
//! A frozen end keeps its own copy of the `read` and `write` positions and
//! works on it. Items inserted by a frozen producer are not part of the
//! underlying ring buffer until they are committed; places freed by a frozen
//! consumer are not returned to it until they are committed.
use crate::cache::Cache;
use crate::consumer::Consumer;
use crate::direct::{Cons, Prod};
use crate::observer::Observer;
use crate::producer::Producer;
use crate::raw::{
    Raw, RawCons, RawProd,
    advance, distance, is_index, lemma_distance_add, lemma_distance_wrap, lemma_nth_slot,
    lemma_wrap_distance, valid_indices, wrap,
};
use crate::rb::LocalRb;
use crate::storage::{all_some, lemma_ring_frame, lemma_ring_split, ring_slots, unwrap_all};
use vstd::math::min;
use vstd::prelude::*;
use vstd::std_specs::iter::IteratorSpec;

verus! {

/// Frozen write end of a ring buffer.
///
/// Inserted items are not visible in the ring buffer until [`Cache::commit`] or
/// [`Cache::sync`] is called.
pub struct FrozenProd<T> {
    rb: LocalRb<T>,
    read: usize,
    write: usize,
}

impl<T> FrozenProd<T> {
    /// The ring buffer behind this end.
    pub closed spec fn base(&self) -> LocalRb<T> {
        self.rb
    }

    /// Number of items inserted but not committed.
    pub open spec fn pending_count(&self) -> int {
        distance(self.capacity_view() as int, self.base().write_view(), self.write_view())
    }

    /// Slots of the items inserted but not committed.
    pub open spec fn pending_slots(&self) -> Seq<Option<T>> {
        ring_slots(
            self.base().slots(),
            self.capacity_view() as int,
            self.base().write_view(),
            self.pending_count(),
        )
    }

    /// Items inserted but not committed, oldest first.
    pub open spec fn pending(&self) -> Seq<T> {
        unwrap_all(self.pending_slots())
    }

    /// Creates a frozen producer of `rb` with nothing pending.
    pub fn new(rb: LocalRb<T>) -> (r: Self)
        requires
            rb.wf(),
        ensures
            r.inv(),
            r.base() == rb,
            r.pending() == Seq::<T>::empty(),
            r.items() == rb.items(),
    {
        let read = rb.read_index();
        let write = rb.write_index();
        let r = FrozenProd { rb, read, write };
        proof {
            assert(r.pending() =~= Seq::<T>::empty());
            assert(r.items() =~= rb.items());
        }
        r
    }

    /// The underlying ring buffer.
    pub fn rb(&self) -> (r: &LocalRb<T>)
        ensures
            *r == self.base(),
    {
        &self.rb
    }

    /// Commits and gives back the underlying ring buffer.
    pub fn into_rb_ref(self) -> (r: LocalRb<T>)
        requires
            self.inv(),
        ensures
            r.wf(),
            r.items() == self.items(),
            r.capacity_view() == self.capacity_view(),
            r.read_view() == self.read_view(),
            r.write_view() == self.write_view(),
            r.slots() == self.base().slots(),
    {
        let mut this = self;
        Self::commit(&mut this);
        this.rb
    }

    /// Commits and turns `self` into a plain producer.
    pub fn release(self) -> (r: Prod<T>)
        requires
            self.inv(),
        ensures
            r.inv(),
            r.items() == self.items(),
            r.capacity_view() == self.capacity_view(),
            r.read_view() == self.read_view(),
            r.write_view() == self.write_view(),
            r.base_view().slots() == self.base().slots(),
    {
        Prod::new(self.into_rb_ref())
    }

    /// Commits the inserted items into the ring buffer.
    pub fn commit(&mut self)
        requires
            old(self).inv(),
        ensures
            final(self).inv(),
            final(self).capacity_view() == old(self).capacity_view(),
            final(self).items() == old(self).items(),
            final(self).committed(),
            final(self).base().items() == old(self).items(),
            final(self).read_view() == old(self).read_view(),
            final(self).write_view() == old(self).write_view(),
            final(self).base().slots() == old(self).base().slots(),
            final(self).base().read_view() == old(self).read_view(),
            final(self).base().write_view() == old(self).write_view(),
    {
        let ghost c = self.capacity_view() as int;
        let ghost old_rb = self.rb;
        let ghost len = self.rb.items().len() as int;
        let ghost p = self.pending_count();
        let ghost old_pending = self.pending_slots();
        proof {
            self.lemma_inv();
            lemma_wrap_distance(c, old_rb.read_view(), old_rb.write_view());
            lemma_wrap_distance(c, old_rb.write_view(), self.write_view());
            lemma_ring_split(old_rb.slots(), c, old_rb.read_view(), len, p);
        }
        self.rb.set_write_end(self.write);
        proof {
            assert(self.rb.occupied_slots() =~= old_rb.occupied_slots() + ring_slots(
                old_rb.slots(),
                c,
                old_rb.write_view(),
                p,
            ));
            assert(self.pending() =~= Seq::<T>::empty());
            assert forall|i: int| 0 <= i < self.rb.occupied_slots().len() implies (
            #[trigger] self.rb.occupied_slots()[i]) is Some by {
                if i >= len {
                    assert(self.rb.occupied_slots()[i] == ring_slots(
                        old_rb.slots(),
                        c,
                        old_rb.write_view(),
                        p,
                    )[i - len]);
                }
            }
            assert(self.rb.items() =~= old_rb.items() + unwrap_all(
                ring_slots(old_rb.slots(), c, old_rb.write_view(), p),
            ));
        }
    }

    /// Fetches the read position from the ring buffer. The ring buffer is
    /// owned by `self`, so the position fetched is the one `self` holds.
    pub fn fetch(&mut self)
        requires
            old(self).inv(),
        ensures
            *final(self) == *old(self),
    {
        self.read = self.rb.read_end();
    }

    /// Commits the inserted items and fetches the read position.
    pub fn sync(&mut self)
        requires
            old(self).inv(),
        ensures
            final(self).inv(),
            final(self).capacity_view() == old(self).capacity_view(),
            final(self).items() == old(self).items(),
            final(self).committed(),
            final(self).base().items() == old(self).items(),
            final(self).read_view() == old(self).read_view(),
            final(self).write_view() == old(self).write_view(),
            final(self).base().slots() == old(self).base().slots(),
            final(self).base().read_view() == old(self).read_view(),
            final(self).base().write_view() == old(self).write_view(),
    {
        FrozenProd::commit(self);
        FrozenProd::fetch(self);
    }

    /// Discards the items inserted since the last commit, dropping them.
    pub fn discard(&mut self)
        requires
            old(self).inv(),
        ensures
            final(self).inv(),
            final(self).capacity_view() == old(self).capacity_view(),
            final(self).items() == old(self).base().items(),
            final(self).base().items() == old(self).base().items(),
            final(self).committed(),
            final(self).base().read_view() == old(self).base().read_view(),
            final(self).base().write_view() == old(self).base().write_view(),
            final(self).read_view() == old(self).read_view(),
            final(self).write_view() == old(self).base().write_view(),
    {
        let ghost c = self.capacity_view() as int;
        let ghost old_rb = self.rb;
        let ghost len = self.rb.items().len() as int;
        let last_tail = self.rb.write_index();
        let count = count_between(self.rb.slot_count(), last_tail, self.write);
        proof {
            lemma_wrap_distance(c, old_rb.read_view(), old_rb.write_view());
            if len < c {
                lemma_nth_slot(c, old_rb.read_view(), len);
            }
        }
        self.rb.drop_items(last_tail, count);
        self.write = last_tail;
        proof {
            if len < c {
                lemma_ring_frame(
                    self.rb.slots(),
                    old_rb.slots(),
                    c,
                    old_rb.read_view(),
                    len,
                    last_tail as int,
                    count as int,
                );
            } else {
                assert(count == 0);
                assert(self.rb.slots() =~= old_rb.slots());
            }
            assert(self.rb.occupied_slots() =~= old_rb.occupied_slots());
            assert(self.pending() =~= Seq::<T>::empty());
            assert(self.items() =~= old_rb.items());
        }
    }
}

/// `(end - begin) % (2 * capacity)` for positions of a ring buffer.
fn count_between(capacity: usize, begin: usize, end: usize) -> (n: usize)
    requires
        0 < capacity,
        2 * capacity <= usize::MAX,
        is_index(capacity as int, begin as int),
        is_index(capacity as int, end as int),
    ensures
        n == distance(capacity as int, begin as int, end as int),
{
    if end >= begin {
        end - begin
    } else {
        2 * capacity - begin + end
    }
}

impl<T> Observer for FrozenProd<T> {
    type Item = T;

    closed spec fn capacity_view(&self) -> nat {
        self.rb.capacity_view()
    }

    closed spec fn read_view(&self) -> int {
        self.read as int
    }

    closed spec fn write_view(&self) -> int {
        self.write as int
    }

    open spec fn items(&self) -> Seq<T> {
        self.base().items() + self.pending()
    }

    open spec fn inv(&self) -> bool {
        &&& self.base().wf()
        &&& self.capacity_view() == self.base().capacity_view()
        &&& self.read_view() == self.base().read_view()
        &&& is_index(self.capacity_view() as int, self.write_view())
        &&& self.base().items().len() + self.pending_count() <= self.capacity_view()
        &&& all_some(self.pending_slots())
    }

    proof fn lemma_inv(&self) {
        let c = self.capacity_view() as int;
        lemma_distance_add(c, self.read_view(), self.base().write_view(), self.write_view());
    }

    fn capacity(&self) -> (c: usize) {
        self.rb.slot_count()
    }

    fn read_index(&self) -> (r: usize) {
        self.read
    }

    fn write_index(&self) -> (w: usize) {
        self.write
    }
}

impl<T> Cache for FrozenProd<T> {
    open spec fn committed(&self) -> bool {
        self.pending_count() == 0
    }

    fn commit(&mut self) {
        FrozenProd::commit(self);
    }

    fn fetch(&mut self)
        ensures
            *final(self) == *old(self),
    {
        FrozenProd::fetch(self);
    }
}

impl<T> Producer for FrozenProd<T> {
    fn try_push(&mut self, elem: T) -> (r: Result<(), T>)
        ensures
            r is Err ==> *final(self) == *old(self),
            final(self).read_view() == old(self).read_view(),
            r is Ok ==> final(self).write_view() == wrap(
                old(self).capacity_view() as int,
                old(self).write_view() + 1,
            ),
            final(self).base().items() == old(self).base().items(),
            final(self).base().write_view() == old(self).base().write_view(),
            r is Ok ==> final(self).pending() == old(self).pending().push(elem),
    {
        if self.is_full() {
            Err(elem)
        } else {
            let ghost c = self.capacity_view() as int;
            let ghost old_rb = self.rb;
            let ghost old_self = *self;
            let ghost len = self.rb.items().len() as int;
            let ghost p = self.pending_count();
            let ghost r0 = old_rb.read_view();
            let ghost w0 = old_rb.write_view();
            let write = self.write;
            proof {
                self.lemma_inv();
                lemma_wrap_distance(c, r0, w0);
                lemma_wrap_distance(c, w0, write as int);
                lemma_nth_slot(c, r0, len + p);
                lemma_nth_slot(c, w0, p);
            }
            self.rb.put_item(write, elem);
            self.write = advance(self.rb.slot_count(), write, 1);
            proof {
                lemma_distance_wrap(c, w0, p + 1);
                lemma_ring_frame(self.rb.slots(), old_rb.slots(), c, r0, len, write as int, 1);
                lemma_ring_frame(self.rb.slots(), old_rb.slots(), c, w0, p, write as int, 1);
                lemma_ring_split(self.rb.slots(), c, w0, p, 1);
                assert(self.rb.occupied_slots() =~= old_rb.occupied_slots());
                assert(self.pending_slots() =~= old_self.pending_slots().push(Some(elem)));
                assert(self.items() =~= old_self.items().push(elem));
            }
            Ok(())
        }
    }

    fn push_slice(&mut self, elems: &[T]) -> (n: usize) where T: Copy
        ensures
            final(self).read_view() == old(self).read_view(),
            final(self).write_view() == wrap(old(self).capacity_view() as int, old(self).write_view() + n),
            final(self).base().items() == old(self).base().items(),
            final(self).base().write_view() == old(self).base().write_view(),
    {
        let vacant = self.vacant_len();
        let n: usize = if elems.len() < vacant {
            elems.len()
        } else {
            vacant
        };
        let ghost c = self.capacity_view() as int;
        let ghost old_rb = self.rb;
        let ghost old_self = *self;
        let ghost len = self.rb.items().len() as int;
        let ghost p = self.pending_count();
        let ghost r0 = old_rb.read_view();
        let ghost w0 = old_rb.write_view();
        let write = self.write;
        proof {
            self.lemma_inv();
            lemma_wrap_distance(c, r0, w0);
            lemma_wrap_distance(c, w0, write as int);
            if len + p < c {
                lemma_nth_slot(c, r0, len + p);
                lemma_nth_slot(c, w0, p);
            }
        }
        self.rb.put_items(write, elems, n);
        self.write = advance(self.rb.slot_count(), write, n);
        proof {
            lemma_distance_wrap(c, w0, p + n);
            if len + p < c {
                lemma_ring_frame(self.rb.slots(), old_rb.slots(), c, r0, len, write as int, n as int);
                lemma_ring_frame(self.rb.slots(), old_rb.slots(), c, w0, p, write as int, n as int);
            } else {
                assert(self.rb.slots() =~= old_rb.slots());
            }
            lemma_ring_split(self.rb.slots(), c, w0, p, n as int);
            assert(self.rb.occupied_slots() =~= old_rb.occupied_slots());
            assert(self.pending_slots() =~= old_self.pending_slots() + Seq::new(
                n as nat,
                |i: int| Some(elems@[i]),
            ));
            assert(self.items() =~= old_self.items() + elems@.take(n as int));
        }
        n
    }

    fn push_iter<I: Iterator<Item = T>>(&mut self, iter: &mut I) -> (n: usize)
        ensures
            final(self).read_view() == old(self).read_view(),
            final(self).base().items() == old(self).base().items(),
            final(self).base().write_view() == old(self).base().write_view(),
    {
        let ghost old_self = *self;
        let ghost len0 = self.items().len();
        proof {
            self.lemma_inv();
        }
        let vacant = self.vacant_len();
        let mut n: usize = 0;
        proof {
            assert(old_self.items().take(len0 as int) =~= old_self.items());
            assert((*old(iter)).remaining().take(0) =~= Seq::<T>::empty());
            assert((*old(iter)).remaining().skip(0) =~= (*old(iter)).remaining());
        }
        loop
            invariant
                self.inv(),
                self.capacity_view() == old_self.capacity_view(),
                self.read_view() == old_self.read_view(),
                self.base().items() == old_self.base().items(),
                self.base().write_view() == old_self.base().write_view(),
                len0 == old_self.items().len(),
                vacant == old_self.capacity_view() - len0,
                n <= vacant,
                self.items().len() == len0 + n,
                self.items().take(len0 as int) == old_self.items(),
                (*iter).obeys_prophetic_iter_laws() == (*old(iter)).obeys_prophetic_iter_laws(),
                (*old(iter)).obeys_prophetic_iter_laws() ==> {
                    &&& n <= (*old(iter)).remaining().len()
                    &&& self.items() == old_self.items() + (*old(iter)).remaining().take(n as int)
                    &&& (*iter).remaining() == (*old(iter)).remaining().skip(n as int)
                },
            ensures
                self.inv(),
                self.capacity_view() == old_self.capacity_view(),
                self.read_view() == old_self.read_view(),
                self.base().items() == old_self.base().items(),
                self.base().write_view() == old_self.base().write_view(),
                n <= vacant,
                self.items().len() == len0 + n,
                self.items().take(len0 as int) == old_self.items(),
                (*old(iter)).obeys_prophetic_iter_laws() ==> {
                    &&& n == min((*old(iter)).remaining().len() as int, vacant as int)
                    &&& self.items() == old_self.items() + (*old(iter)).remaining().take(n as int)
                    &&& (*iter).remaining() == (*old(iter)).remaining().skip(n as int)
                },
            decreases vacant - n,
        {
            if n >= vacant {
                break;
            }
            let ghost before = self.items();
            match iter.next() {
                Some(elem) => {
                    proof {
                        self.lemma_inv();
                    }
                    let _ = self.try_push(elem);
                    n = n + 1;
                    proof {
                        assert(self.items().take(len0 as int) =~= before.take(len0 as int));
                        if (*old(iter)).obeys_prophetic_iter_laws() {
                            assert((*old(iter)).remaining().take(n as int) =~= (*old(iter)).remaining().take(
                                n - 1,
                            ).push(elem));
                            assert((*iter).remaining() =~= (*old(iter)).remaining().skip(n as int));
                        }
                    }
                },
                None => {
                    break;
                },
            }
        }
        n
    }
}

/// Frozen read end of a ring buffer.
///
/// Places freed by removed items are not returned to the ring buffer until
/// [`Cache::commit`] or [`Cache::sync`] is called.
pub struct FrozenCons<T> {
    rb: LocalRb<T>,
    read: usize,
    write: usize,
}

impl<T> FrozenCons<T> {
    /// The ring buffer behind this end.
    pub closed spec fn base(&self) -> LocalRb<T> {
        self.rb
    }

    /// Number of items removed but not committed.
    pub open spec fn popped_count(&self) -> int {
        distance(self.capacity_view() as int, self.base().read_view(), self.read_view())
    }

    /// Slots of the items still held.
    pub open spec fn remaining_slots(&self) -> Seq<Option<T>> {
        ring_slots(
            self.base().slots(),
            self.capacity_view() as int,
            self.read_view(),
            distance(self.capacity_view() as int, self.read_view(), self.write_view()),
        )
    }

    /// Creates a frozen consumer of `rb` with nothing removed yet.
    pub fn new(rb: LocalRb<T>) -> (r: Self)
        requires
            rb.wf(),
        ensures
            r.inv(),
            r.base() == rb,
            r.items() == rb.items(),
            r.committed(),
            r.capacity_view() == rb.capacity_view(),
            r.read_view() == rb.read_view(),
            r.write_view() == rb.write_view(),
    {
        let read = rb.read_index();
        let write = rb.write_index();
        FrozenCons { rb, read, write }
    }

    /// The underlying ring buffer.
    pub fn rb(&self) -> (r: &LocalRb<T>)
        ensures
            *r == self.base(),
    {
        &self.rb
    }

    /// Commits and gives back the underlying ring buffer.
    pub fn into_rb_ref(self) -> (r: LocalRb<T>)
        requires
            self.inv(),
        ensures
            r.wf(),
            r.items() == self.items(),
            r.capacity_view() == self.capacity_view(),
            r.read_view() == self.read_view(),
            r.write_view() == self.write_view(),
            r.slots() == self.base().slots(),
    {
        let mut this = self;
        Self::commit(&mut this);
        this.rb
    }

    /// Commits and turns `self` into a plain consumer.
    pub fn release(self) -> (r: Cons<T>)
        requires
            self.inv(),
        ensures
            r.inv(),
            r.items() == self.items(),
            r.capacity_view() == self.capacity_view(),
            r.read_view() == self.read_view(),
            r.write_view() == self.write_view(),
            r.base_view().slots() == self.base().slots(),
    {
        Cons::new(self.into_rb_ref())
    }

    /// Returns the places of the removed items to the ring buffer.
    pub fn commit(&mut self)
        requires
            old(self).inv(),
        ensures
            final(self).inv(),
            final(self).capacity_view() == old(self).capacity_view(),
            final(self).items() == old(self).items(),
            final(self).committed(),
            final(self).base().wf(),
            final(self).base().items() == old(self).items(),
            final(self).read_view() == old(self).read_view(),
            final(self).write_view() == old(self).write_view(),
            final(self).base().slots() == old(self).base().slots(),
            final(self).base().read_view() == old(self).read_view(),
            final(self).base().write_view() == old(self).write_view(),
    {
        self.rb.set_read_end(self.read);
    }

    /// Fetches the write position from the ring buffer. The ring buffer is
    /// owned by `self`, so the position fetched is the one `self` holds.
    pub fn fetch(&mut self)
        requires
            old(self).inv(),
        ensures
            *final(self) == *old(self),
    {
        self.write = self.rb.write_end();
    }

    /// Returns the places of the removed items and fetches the write position.
    pub fn sync(&mut self)
        requires
            old(self).inv(),
        ensures
            final(self).inv(),
            final(self).capacity_view() == old(self).capacity_view(),
            final(self).items() == old(self).items(),
            final(self).committed(),
            final(self).base().wf(),
            final(self).base().items() == old(self).items(),
            final(self).read_view() == old(self).read_view(),
            final(self).write_view() == old(self).write_view(),
            final(self).base().slots() == old(self).base().slots(),
            final(self).base().read_view() == old(self).read_view(),
            final(self).base().write_view() == old(self).write_view(),
    {
        FrozenCons::commit(self);
        FrozenCons::fetch(self);
    }

    /// Moves the read position `n` places forward over items already taken out.
    fn advance_read(&mut self, n: usize)
        requires
            old(self).inv_except_remaining(),
            n <= distance(
                old(self).capacity_view() as int,
                old(self).read_view(),
                old(self).write_view(),
            ),
            all_some(
                ring_slots(
                    old(self).base().slots(),
                    old(self).capacity_view() as int,
                    wrap(old(self).capacity_view() as int, old(self).read_view() + n),
                    distance(
                        old(self).capacity_view() as int,
                        old(self).read_view(),
                        old(self).write_view(),
                    ) - n,
                ),
            ),
        ensures
            final(self).inv(),
            final(self).base() == old(self).base(),
            final(self).capacity_view() == old(self).capacity_view(),
            final(self).write_view() == old(self).write_view(),
            final(self).read_view() == wrap(
                old(self).capacity_view() as int,
                old(self).read_view() + n,
            ),
            final(self).remaining_slots() == ring_slots(
                old(self).base().slots(),
                old(self).capacity_view() as int,
                wrap(old(self).capacity_view() as int, old(self).read_view() + n),
                distance(
                    old(self).capacity_view() as int,
                    old(self).read_view(),
                    old(self).write_view(),
                ) - n,
            ),
    {
        let ghost c = self.capacity_view() as int;
        let ghost d = distance(c, self.read_view(), self.write_view());
        proof {
            lemma_wrap_distance(c, self.read_view(), self.write_view());
            lemma_distance_wrap(c, self.read_view(), n as int);
            lemma_ring_split(self.rb.slots(), c, self.read_view(), n as int, d - n);
        }
        let r0 = self.read;
        self.read = advance(self.rb.slot_count(), self.read, n);
        proof {
            lemma_distance_add(c, self.rb.read_view(), r0 as int, self.read as int);
            lemma_distance_add(c, r0 as int, self.read as int, self.write as int);
        }
    }

    /// The frame of [`Observer::inv`] without the requirement on remaining slots.
    pub open spec fn inv_except_remaining(&self) -> bool {
        &&& self.base().structural()
        &&& self.capacity_view() == self.base().capacity_view()
        &&& self.write_view() == self.base().write_view()
        &&& is_index(self.capacity_view() as int, self.read_view())
        &&& self.popped_count() + distance(
            self.capacity_view() as int,
            self.read_view(),
            self.write_view(),
        ) == distance(
            self.capacity_view() as int,
            self.base().read_view(),
            self.base().write_view(),
        )
    }
}

impl<T> Observer for FrozenCons<T> {
    type Item = T;

    closed spec fn capacity_view(&self) -> nat {
        self.rb.capacity_view()
    }

    closed spec fn read_view(&self) -> int {
        self.read as int
    }

    closed spec fn write_view(&self) -> int {
        self.write as int
    }

    open spec fn items(&self) -> Seq<T> {
        unwrap_all(self.remaining_slots())
    }

    open spec fn inv(&self) -> bool {
        &&& self.inv_except_remaining()
        &&& all_some(self.remaining_slots())
    }

    proof fn lemma_inv(&self) {
    }

    fn capacity(&self) -> (c: usize) {
        self.rb.slot_count()
    }

    fn read_index(&self) -> (r: usize) {
        self.read
    }

    fn write_index(&self) -> (w: usize) {
        self.write
    }
}

impl<T> Cache for FrozenCons<T> {
    open spec fn committed(&self) -> bool {
        self.popped_count() == 0
    }

    fn commit(&mut self) {
        FrozenCons::commit(self);
    }

    fn fetch(&mut self)
        ensures
            *final(self) == *old(self),
    {
        FrozenCons::fetch(self);
    }
}

impl<T> Consumer for FrozenCons<T> {
    fn try_pop(&mut self) -> (r: Option<T>)
        ensures
            r is None ==> *final(self) == *old(self),
            final(self).write_view() == old(self).write_view(),
            r is Some ==> final(self).read_view() == wrap(
                old(self).capacity_view() as int,
                old(self).read_view() + 1,
            ),
            final(self).base().read_view() == old(self).base().read_view(),
            final(self).base().write_view() == old(self).base().write_view(),
    {
        if self.is_empty() {
            None
        } else {
            let ghost c = self.capacity_view() as int;
            let ghost old_self = *self;
            let ghost len = self.items().len() as int;
            let read = self.read;
            proof {
                lemma_ring_split(self.rb.slots(), c, read as int, 1, len - 1);
                assert(old_self.remaining_slots()[0] is Some);
                lemma_distance_wrap(c, read as int, 1);
                lemma_nth_slot(c, wrap(c, read + 1), len - 1);
            }
            let item = self.rb.take_item(read);
            proof {
                lemma_ring_frame(
                    self.rb.slots(),
                    old_self.base().slots(),
                    c,
                    wrap(c, read + 1),
                    len - 1,
                    read as int,
                    1,
                );
                assert forall|i: int| 0 <= i < len - 1 implies (#[trigger] ring_slots(
                    self.rb.slots(),
                    c,
                    wrap(c, read + 1),
                    len - 1,
                )[i]) is Some by {
                    assert(old_self.remaining_slots()[i + 1] is Some);
                }
            }
            self.advance_read(1);
            proof {
                assert(self.remaining_slots() =~= old_self.remaining_slots().drop_first());
                assert(self.items() =~= old_self.items().drop_first());
            }
            item
        }
    }

    fn pop_slice(&mut self, elems: &mut [T]) -> (n: usize) where T: Copy
        ensures
            final(self).write_view() == old(self).write_view(),
            final(self).read_view() == wrap(old(self).capacity_view() as int, old(self).read_view() + n),
            final(self).base().read_view() == old(self).base().read_view(),
            final(self).base().write_view() == old(self).base().write_view(),
    {
        let occupied = self.occupied_len();
        let n: usize = if elems.len() < occupied {
            elems.len()
        } else {
            occupied
        };
        let ghost c = self.capacity_view() as int;
        let ghost old_self = *self;
        let ghost len = self.items().len() as int;
        let read = self.read;
        proof {
            lemma_ring_split(self.rb.slots(), c, read as int, n as int, len - n);
            let front = ring_slots(self.rb.slots(), c, read as int, n as int);
            assert forall|i: int| 0 <= i < front.len() implies (#[trigger] front[i]) is Some by {
                assert(front[i] == old_self.remaining_slots()[i]);
            }
            let back = ring_slots(self.rb.slots(), c, wrap(c, read + n), len - n);
            assert forall|i: int| 0 <= i < back.len() implies (#[trigger] back[i]) is Some by {
                assert(back[i] == old_self.remaining_slots()[n + i]);
            }
        }
        self.rb.copy_items(read, elems, n);
        self.advance_read(n);
        proof {
            assert(self.remaining_slots() =~= old_self.remaining_slots().skip(n as int));
            assert(self.items() =~= old_self.items().skip(n as int));
            assert(unwrap_all(ring_slots(old_self.base().slots(), c, read as int, n as int))
                =~= old_self.items().take(n as int));
        }
        n
    }

    fn skip(&mut self, count: usize) -> (n: usize)
        ensures
            final(self).write_view() == old(self).write_view(),
            final(self).read_view() == wrap(old(self).capacity_view() as int, old(self).read_view() + n),
            final(self).base().read_view() == old(self).base().read_view(),
            final(self).base().write_view() == old(self).base().write_view(),
    {
        let occupied = self.occupied_len();
        let n: usize = if count < occupied {
            count
        } else {
            occupied
        };
        let ghost c = self.capacity_view() as int;
        let ghost old_self = *self;
        let ghost len = self.items().len() as int;
        let read = self.read;
        proof {
            lemma_ring_split(self.rb.slots(), c, read as int, n as int, len - n);
            lemma_distance_wrap(c, read as int, n as int);
            if n > 0 {
                lemma_nth_slot(c, wrap(c, read + n), 0);
            }
        }
        self.rb.drop_items(read, n);
        proof {
            if n > 0 {
                lemma_ring_frame(
                    self.rb.slots(),
                    old_self.base().slots(),
                    c,
                    wrap(c, read + n),
                    len - n,
                    read as int,
                    n as int,
                );
            } else {
                assert(self.rb.slots() =~= old_self.base().slots());
            }
            let back = ring_slots(self.rb.slots(), c, wrap(c, read + n), len - n);
            assert forall|i: int| 0 <= i < back.len() implies (#[trigger] back[i]) is Some by {
                assert(back[i] == old_self.remaining_slots()[n + i]);
            }
        }
        self.advance_read(n);
        proof {
            assert(self.remaining_slots() =~= old_self.remaining_slots().skip(n as int));
            assert(self.items() =~= old_self.items().skip(n as int));
        }
        n
    }

    fn clear(&mut self) -> (n: usize)
        ensures
            final(self).write_view() == old(self).write_view(),
            final(self).read_view() == old(self).write_view(),
            final(self).base().read_view() == old(self).base().read_view(),
            final(self).base().write_view() == old(self).base().write_view(),
    {
        proof {
            self.lemma_inv();
            lemma_wrap_distance(self.capacity_view() as int, self.read_view(), self.write_view());
        }
        let len = self.occupied_len();
        let n = self.skip(len);
        proof {
            assert(self.items() =~= Seq::<T>::empty());
        }
        n
    }
}

} // verus!
