//! Ring buffers: the storage and the two positions.
use crate::consumer::Consumer;
use crate::index::{Index, LocalIndex};
use crate::observer::Observer;
use crate::producer::Producer;
use crate::ring_buffer::RingBuffer;
use crate::raw::{
    Raw, RawCons, RawProd,
    advance, count_occupied, distance, is_index, lemma_distance_wrap, lemma_index_mod, lemma_nth_slot,
    lemma_wrap_distance, ranges, ranges_spec, slot, valid_indices, wrap,
};
use crate::storage::{
    all_some, clear_slots, copy_slots, lemma_ring_frame, lemma_ring_split, ring_slots,
    same_outside, unwrap_all, write_slots,
};
use core::ops::Range;
use std::collections::TryReserveError;
use vstd::arithmetic::div_mod::{lemma_fundamental_div_mod, lemma_fundamental_div_mod_converse};
use vstd::prelude::*;

verus! {

/// Ring buffer, generic over the cells that hold its two positions.
///
/// Holds `capacity` slots and the `read` and `write` positions. The items lie
/// in the slots of the positions from `read` (the oldest) up to `write`.
pub struct Rb<T, R: Index, W: Index> {
    storage: Vec<Option<T>>,
    read: R,
    write: W,
}

/// Ring buffer for single-threaded use.
pub type LocalRb<T> = Rb<T, LocalIndex, LocalIndex>;

/// A position cell holding `value`.
fn new_index<I: Index + Default>(value: usize) -> (r: I)
    ensures
        r.value() == value,
{
    let mut index = I::default();
    index.set(value);
    index
}

impl<T, R: Index, W: Index> Rb<T, R, W> {
    /// Contents of the storage slots.
    pub closed spec fn slots(&self) -> Seq<Option<T>> {
        self.storage@
    }

    /// The storage and the positions fit each other; items may be missing
    /// from occupied slots.
    pub open spec fn structural(&self) -> bool {
        &&& valid_indices(self.capacity_view() as int, self.read_view(), self.write_view())
        &&& self.slots().len() == self.capacity_view()
    }

    /// Slots of the occupied positions, oldest first.
    pub open spec fn occupied_slots(&self) -> Seq<Option<T>> {
        ring_slots(
            self.slots(),
            self.capacity_view() as int,
            self.read_view(),
            distance(self.capacity_view() as int, self.read_view(), self.write_view()),
        )
    }

    /// Well-formedness: structural, and every occupied slot holds an item.
    pub open spec fn wf(&self) -> bool {
        &&& self.structural()
        &&& all_some(self.occupied_slots())
    }

    /// Puts `elem` into the slot of position `index`.
    pub(crate) fn put_item(&mut self, index: usize, elem: T)
        requires
            old(self).structural(),
            is_index(old(self).capacity_view() as int, index as int),
        ensures
            final(self).structural(),
            final(self).capacity_view() == old(self).capacity_view(),
            final(self).read_view() == old(self).read_view(),
            final(self).write_view() == old(self).write_view(),
            ring_slots(final(self).slots(), final(self).capacity_view() as int, index as int, 1)
                == seq![Some(elem)],
            same_outside(
                final(self).slots(),
                old(self).slots(),
                old(self).capacity_view() as int,
                index as int,
                1,
            ),
    {
        let capacity = self.storage.len();
        let k: usize = if index >= capacity {
            index - capacity
        } else {
            index
        };
        self.storage.set(k, Some(elem));
        proof {
            assert(ring_slots(self.slots(), capacity as int, index as int, 1) =~= seq![Some(elem)]);
        }
    }

    /// Takes the content out of the slot of position `index`, leaving it empty.
    pub(crate) fn take_item(&mut self, index: usize) -> (r: Option<T>)
        requires
            old(self).structural(),
            is_index(old(self).capacity_view() as int, index as int),
        ensures
            final(self).structural(),
            final(self).capacity_view() == old(self).capacity_view(),
            final(self).read_view() == old(self).read_view(),
            final(self).write_view() == old(self).write_view(),
            r == ring_slots(old(self).slots(), old(self).capacity_view() as int, index as int, 1)[0],
            ring_slots(final(self).slots(), final(self).capacity_view() as int, index as int, 1)
                == seq![None::<T>],
            same_outside(
                final(self).slots(),
                old(self).slots(),
                old(self).capacity_view() as int,
                index as int,
                1,
            ),
    {
        let capacity = self.storage.len();
        let k: usize = if index >= capacity {
            index - capacity
        } else {
            index
        };
        let r = self.storage[k].take();
        proof {
            assert(ring_slots(self.slots(), capacity as int, index as int, 1) =~= seq![None::<T>]);
        }
        r
    }

    /// Puts `elems[..count]` into the slots of the `count` positions after `begin`.
    pub(crate) fn put_items(&mut self, begin: usize, elems: &[T], count: usize) where T: Copy
        requires
            old(self).structural(),
            is_index(old(self).capacity_view() as int, begin as int),
            count <= old(self).capacity_view(),
            count <= elems@.len(),
        ensures
            final(self).structural(),
            final(self).capacity_view() == old(self).capacity_view(),
            final(self).read_view() == old(self).read_view(),
            final(self).write_view() == old(self).write_view(),
            ring_slots(final(self).slots(), final(self).capacity_view() as int, begin as int, count as int)
                == Seq::new(count as nat, |i: int| Some(elems@[i])),
            same_outside(
                final(self).slots(),
                old(self).slots(),
                old(self).capacity_view() as int,
                begin as int,
                count as int,
            ),
    {
        let capacity = self.storage.len();
        write_slots(&mut self.storage, capacity, begin, elems, count);
    }

    /// Copies the items of the `count` positions after `begin` into `elems[..count]`.
    pub(crate) fn copy_items(&self, begin: usize, elems: &mut [T], count: usize) where T: Copy
        requires
            self.structural(),
            is_index(self.capacity_view() as int, begin as int),
            count <= self.capacity_view(),
            count <= old(elems)@.len(),
            all_some(ring_slots(self.slots(), self.capacity_view() as int, begin as int, count as int)),
        ensures
            final(elems)@ == unwrap_all(
                ring_slots(self.slots(), self.capacity_view() as int, begin as int, count as int),
            ) + old(elems)@.skip(count as int),
    {
        let capacity = self.storage.len();
        copy_slots(&self.storage, capacity, begin, elems, count);
    }

    /// Drops the items of the `count` positions after `begin`, leaving their slots empty.
    pub(crate) fn drop_items(&mut self, begin: usize, count: usize)
        requires
            old(self).structural(),
            is_index(old(self).capacity_view() as int, begin as int),
            count <= old(self).capacity_view(),
        ensures
            final(self).structural(),
            final(self).capacity_view() == old(self).capacity_view(),
            final(self).read_view() == old(self).read_view(),
            final(self).write_view() == old(self).write_view(),
            ring_slots(final(self).slots(), final(self).capacity_view() as int, begin as int, count as int)
                == Seq::new(count as nat, |i: int| None::<T>),
            same_outside(
                final(self).slots(),
                old(self).slots(),
                old(self).capacity_view() as int,
                begin as int,
                count as int,
            ),
    {
        let capacity = self.storage.len();
        clear_slots(&mut self.storage, capacity, begin, count);
    }
}

impl<T, R: Index, W: Index> Raw for Rb<T, R, W> {
    open spec fn raw_capacity(&self) -> nat {
        self.capacity_view()
    }

    open spec fn read_end_view(&self) -> int {
        self.read_view()
    }

    open spec fn write_end_view(&self) -> int {
        self.write_view()
    }

    open spec fn raw_inv(&self) -> bool {
        self.structural()
    }

    proof fn lemma_raw_inv(&self) {
    }

    fn slot_count(&self) -> (c: usize) {
        proof {
            assert(self.raw_capacity() == self.storage@.len());
        }
        self.storage.len()
    }

    fn read_end(&self) -> (r: usize) {
        self.read.get()
    }

    fn write_end(&self) -> (w: usize) {
        self.write.get()
    }
}

impl<T, R: Index, W: Index> RawCons for Rb<T, R, W> {
    fn set_read_end(&mut self, value: usize)
        ensures
            final(self).slots() == old(self).slots(),
    {
        self.read.set(value);
    }
}

impl<T, R: Index, W: Index> RawProd for Rb<T, R, W> {
    fn set_write_end(&mut self, value: usize)
        ensures
            final(self).slots() == old(self).slots(),
    {
        self.write.set(value);
    }
}

impl<T, R: Index, W: Index> Observer for Rb<T, R, W> {
    type Item = T;

    closed spec fn capacity_view(&self) -> nat {
        self.storage@.len()
    }

    closed spec fn read_view(&self) -> int {
        self.read.value() as int
    }

    closed spec fn write_view(&self) -> int {
        self.write.value() as int
    }

    open spec fn items(&self) -> Seq<T> {
        unwrap_all(self.occupied_slots())
    }

    open spec fn inv(&self) -> bool {
        self.wf()
    }

    proof fn lemma_inv(&self) {
    }

    fn capacity(&self) -> (c: usize) {
        self.storage.len()
    }

    fn read_index(&self) -> (r: usize) {
        self.read.get()
    }

    fn write_index(&self) -> (w: usize) {
        self.write.get()
    }
}

impl<T, R: Index + Default, W: Index + Default> Rb<T, R, W> {
    /// Creates an empty ring buffer of `capacity` slots.
    ///
    /// `capacity` must be greater than zero.
    pub fn new(capacity: usize) -> (rb: Self)
        requires
            0 < capacity,
            2 * capacity <= usize::MAX,
        ensures
            rb.wf(),
            rb.capacity_view() == capacity,
            rb.read_view() == 0,
            rb.write_view() == 0,
            rb.items() == Seq::<T>::empty(),
    {
        Self::from_empty_storage(Vec::new(), capacity)
    }

    /// Creates an empty ring buffer of `capacity` slots, returning an error if
    /// the allocation failed.
    ///
    /// `capacity` must be greater than zero.
    pub fn try_new(capacity: usize) -> (r: Result<Self, TryReserveError>)
        requires
            0 < capacity,
            2 * capacity <= usize::MAX,
        ensures
            r is Ok ==> ({
                let rb = r->Ok_0;
                &&& rb.wf()
                &&& rb.capacity_view() == capacity
                &&& rb.read_view() == 0
                &&& rb.write_view() == 0
                &&& rb.items() == Seq::<T>::empty()
            }),
    {
        let mut storage: Vec<Option<T>> = Vec::new();
        let reserved = try_reserve_exact(&mut storage, capacity);
        Self::from_reservation(storage, capacity, reserved)
    }

    /// Makes an empty ring buffer of `capacity` slots out of an empty
    /// `storage` for which room was asked of the allocator, with the outcome
    /// `reserved`: the ring buffer where the room was granted, the allocator's
    /// error where it was not.
    pub fn from_reservation(
        storage: Vec<Option<T>>,
        capacity: usize,
        reserved: Result<(), TryReserveError>,
    ) -> (r: Result<Self, TryReserveError>)
        requires
            storage@.len() == 0,
            0 < capacity,
            2 * capacity <= usize::MAX,
        ensures
            reserved is Ok ==> r is Ok && ({
                let rb = r->Ok_0;
                &&& rb.wf()
                &&& rb.capacity_view() == capacity
                &&& rb.read_view() == 0
                &&& rb.write_view() == 0
                &&& rb.items() == Seq::<T>::empty()
            }),
            reserved is Err ==> r == Err::<Self, TryReserveError>(reserved->Err_0),
    {
        match reserved {
            Ok(()) => Ok(Self::from_empty_storage(storage, capacity)),
            Err(e) => Err(e),
        }
    }

    /// Fills an empty `storage` with `capacity` empty slots and makes an empty
    /// ring buffer of it.
    fn from_empty_storage(storage: Vec<Option<T>>, capacity: usize) -> (rb: Self)
        requires
            storage@.len() == 0,
            0 < capacity,
            2 * capacity <= usize::MAX,
        ensures
            rb.wf(),
            rb.capacity_view() == capacity,
            rb.read_view() == 0,
            rb.write_view() == 0,
            rb.items() == Seq::<T>::empty(),
    {
        let mut storage = storage;
        let mut i: usize = 0;
        while i < capacity
            invariant
                i <= capacity,
                storage@.len() == i,
            decreases capacity - i,
        {
            storage.push(None);
            i = i + 1;
        }
        let rb = Rb { storage, read: new_index(0), write: new_index(0) };
        proof {
            assert(rb.items() =~= Seq::<T>::empty());
        }
        rb
    }

    /// Constructs a ring buffer from its storage and positions.
    ///
    /// The slots of the positions from `read` up to `write` must hold items;
    /// the storage must not be empty.
    pub fn from_raw_parts(storage: Vec<Option<T>>, read: usize, write: usize) -> (rb: Self)
        requires
            valid_indices(storage@.len() as int, read as int, write as int),
            all_some(
                ring_slots(
                    storage@,
                    storage@.len() as int,
                    read as int,
                    distance(storage@.len() as int, read as int, write as int),
                ),
            ),
        ensures
            rb.wf(),
            rb.slots() == storage@,
            rb.capacity_view() == storage@.len(),
            rb.read_view() == read,
            rb.write_view() == write,
    {
        Rb { storage, read: new_index(read), write: new_index(write) }
    }

}

impl<T, R: Index, W: Index> Rb<T, R, W> {
    /// The cell that holds the read position.
    pub fn read_index_ref(&self) -> (r: &R)
        ensures
            r.value() == self.read_view(),
    {
        &self.read
    }

    /// The cell that holds the write position.
    pub fn write_index_ref(&self) -> (r: &W)
        ensures
            r.value() == self.write_view(),
    {
        &self.write
    }

    /// Destructures the ring buffer into its storage and its `read` and `write`
    /// positions.
    pub fn into_raw_parts(self) -> (r: (Vec<Option<T>>, usize, usize))
        ensures
            r.0@ == self.slots(),
            r.1 == self.read_view(),
            r.2 == self.write_view(),
    {
        let read = self.read.get();
        let write = self.write.get();
        (self.storage, read, write)
    }

    /// Returns the pair of ranges of slots that hold, in order, the items of
    /// the ring buffer.
    ///
    /// If the first range is empty then the second one is empty too.
    pub fn occupied_ranges(&self) -> (r: (Range<usize>, Range<usize>))
        requires
            self.wf(),
        ensures
            ranges_spec(
                self.capacity_view() as int,
                self.read_view(),
                self.write_view(),
                r.0,
                r.1,
            ),
            (self.write_view() - self.read_view()) % (2 * self.capacity_view() as int)
                == self.items().len(),
    {
        proof {
            lemma_index_mod(self.capacity_view() as int, self.read_view(), self.write_view());
        }
        ranges(self.storage.len(), self.read.get(), self.write.get())
    }

    /// Returns the pair of ranges of slots that are free, in the order in
    /// which items will be put into them.
    ///
    /// If the first range is empty then the second one is empty too.
    pub fn vacant_ranges(&self) -> (r: (Range<usize>, Range<usize>))
        requires
            self.wf(),
        ensures
            ranges_spec(
                self.capacity_view() as int,
                self.write_view(),
                self.read_view() + self.capacity_view(),
                r.0,
                r.1,
            ),
            (self.read_view() + self.capacity_view() - self.write_view()) % (2
                * self.capacity_view() as int) == self.capacity_view() - self.items().len(),
    {
        let ghost c = self.capacity_view() as int;
        let capacity = self.storage.len();
        let read = self.read.get();
        let write = self.write.get();
        let end = advance(capacity, read, capacity);
        proof {
            let e = read + c;
            let w = write as int;
            let m = 2 * c;
            if write >= read {
                lemma_fundamental_div_mod_converse(e - w, m, 0, e - w);
            } else {
                lemma_fundamental_div_mod_converse(e - w, m, 1, e - w - m);
            }
            if e >= m {
                let x = end - w;
                lemma_fundamental_div_mod(x, m);
                assert((x / m + 1) * m + x % m == x + m) by (nonlinear_arith)
                    requires
                        x == m * (x / m) + x % m,
                ;
                lemma_fundamental_div_mod_converse(x + m, m, x / m + 1, x % m);
            }
        }
        ranges(capacity, write, end)
    }

    /// Returns a pair of vectors which hold, in order, the items of the
    /// ring buffer: the first one those up to the end of the storage, the
    /// second one those that wrap around to its start.
    pub fn as_slices(&self) -> (r: (Vec<T>, Vec<T>)) where T: Copy
        requires
            self.wf(),
        ensures
            r.0@ + r.1@ == self.items(),
            r.0@.len() == if slot(self.capacity_view() as int, self.read_view()) + self.items().len()
                <= self.capacity_view() {
                self.items().len() as int
            } else {
                self.capacity_view() - slot(self.capacity_view() as int, self.read_view())
            },
    {
        self.copy_runs(self.read.get(), self.write.get())
    }

    /// Returns references to the items of the ring buffer, oldest first.
    pub fn iter(&self) -> (r: Vec<&T>)
        requires
            self.wf(),
        ensures
            r@.len() == self.items().len(),
            forall|i: int| 0 <= i < r@.len() ==> *r@[i] == self.items()[i],
    {
        let ghost c = self.capacity_view() as int;
        let ghost b = self.read_view();
        let capacity = self.storage.len();
        let read = self.read.get();
        let len = count_occupied(capacity, read, self.write.get());
        let mut r: Vec<&T> = Vec::new();
        let mut i: usize = 0;
        while i < len
            invariant
                self.wf(),
                c == capacity,
                b == read,
                self.capacity_view() == capacity,
                self.read_view() == read,
                len == self.items().len(),
                i <= len,
                r@.len() == i,
                forall|j: int| 0 <= j < i ==> *r@[j] == self.items()[j],
            decreases len - i,
        {
            proof {
                lemma_nth_slot(c, b, i as int);
                assert(self.occupied_slots()[i as int] is Some);
            }
            let index = advance(capacity, read, i);
            let k: usize = if index >= capacity {
                index - capacity
            } else {
                index
            };
            match &self.storage[k] {
                Some(item) => {
                    r.push(item);
                },
                None => {},
            }
            i = i + 1;
        }
        r
    }

    /// Copies the items of the positions from `begin` up to `end` into two
    /// vectors: the first one gets those up to the end of the storage, the
    /// second one those that wrap around to its start.
    pub(crate) fn copy_runs(&self, begin: usize, end: usize) -> (r: (Vec<T>, Vec<T>)) where T: Copy
        requires
            valid_indices(self.capacity_view() as int, begin as int, end as int),
            self.slots().len() == self.capacity_view(),
            all_some(
                ring_slots(
                    self.slots(),
                    self.capacity_view() as int,
                    begin as int,
                    distance(self.capacity_view() as int, begin as int, end as int),
                ),
            ),
        ensures
            r.0@ + r.1@ == unwrap_all(
                ring_slots(
                    self.slots(),
                    self.capacity_view() as int,
                    begin as int,
                    distance(self.capacity_view() as int, begin as int, end as int),
                ),
            ),
            r.0@.len() == if slot(self.capacity_view() as int, begin as int) + distance(
                self.capacity_view() as int,
                begin as int,
                end as int,
            ) <= self.capacity_view() {
                distance(self.capacity_view() as int, begin as int, end as int)
            } else {
                self.capacity_view() - slot(self.capacity_view() as int, begin as int)
            },
    {
        let ghost c = self.capacity_view() as int;
        let ghost b = begin as int;
        let ghost len = distance(c, b, end as int);
        let ghost run = ring_slots(self.slots(), c, b, len);
        let ghost items = unwrap_all(run);
        let capacity = self.storage.len();
        proof {
            lemma_index_mod(c, b, end as int);
        }
        let (first, second) = ranges(capacity, begin, end);
        let start: usize = first.start;
        let first_end: usize = first.end;
        let second_end: usize = second.end;
        let first_len: usize = first_end - start;
        let mut left: Vec<T> = Vec::new();
        let mut j: usize = start;
        while j < first_end
            invariant
                c == capacity,
                b == begin,
                start <= j <= first_end <= capacity,
                self.slots().len() == capacity,
                is_index(c, b),
                run == ring_slots(self.slots(), c, b, len),
                all_some(run),
                items == unwrap_all(run),
                len == items.len(),
                start == slot(c, b),
                first_len == first_end - start,
                first_len <= len,
                left@ == items.take(j - start),
            decreases first_end - j,
        {
            proof {
                lemma_nth_slot(c, b, (j - start) as int);
                assert(run[j - start] is Some);
            }
            match &self.storage[j] {
                Some(item) => {
                    left.push(*item);
                },
                None => {},
            }
            j = j + 1;
            proof {
                assert(left@ =~= items.take(j - start));
            }
        }
        let mut right: Vec<T> = Vec::new();
        let mut j: usize = 0;
        while j < second_end
            invariant
                c == capacity,
                b == begin,
                j <= second_end,
                self.slots().len() == capacity,
                is_index(c, b),
                run == ring_slots(self.slots(), c, b, len),
                all_some(run),
                items == unwrap_all(run),
                len == items.len(),
                start == slot(c, b),
                first_len == first_end - start,
                first_end <= capacity,
                second_end == len - first_len,
                second_end > 0 ==> first_end == capacity && second_end <= start,
                right@ == items.subrange(first_len as int, first_len + j),
            decreases second_end - j,
        {
            proof {
                lemma_nth_slot(c, b, (first_len + j) as int);
                assert(run[first_len + j] is Some);
            }
            match &self.storage[j] {
                Some(item) => {
                    right.push(*item);
                },
                None => {},
            }
            j = j + 1;
            proof {
                assert(right@ =~= items.subrange(first_len as int, first_len + j));
            }
        }
        proof {
            assert(left@ + right@ =~= items);
        }
        (left, right)
    }
}

/// `Vec::try_reserve_exact`: tries to reserve room for exactly `additional`
/// more items. Whether it succeeds depends on the allocator; the contents of
/// `vec` are the same either way. Nothing is stated of the capacity reserved.
#[verifier::external_body]
fn try_reserve_exact<T>(vec: &mut Vec<T>, additional: usize) -> (r: Result<(), TryReserveError>)
    ensures
        final(vec)@ == old(vec)@,
{
    vec.try_reserve_exact(additional)
}

impl<T, R: Index, W: Index> Producer for Rb<T, R, W> {
    fn try_push(&mut self, elem: T) -> (r: Result<(), T>)
        ensures
            final(self).read_view() == old(self).read_view(),
            final(self).write_view() == if r is Ok {
                wrap(old(self).capacity_view() as int, old(self).write_view() + 1)
            } else {
                old(self).write_view()
            },
    {
        if self.is_full() {
            Err(elem)
        } else {
            let ghost old_self = *self;
            let ghost c = self.capacity_view() as int;
            let ghost len = self.items().len() as int;
            let write = self.write.get();
            let capacity = self.storage.len();
            proof {
                lemma_wrap_distance(c, self.read_view(), self.write_view());
                lemma_nth_slot(c, self.read_view(), len);
            }
            self.put_item(write, elem);
            self.write.set(advance(capacity, write, 1));
            proof {
                let r0 = old_self.read_view();
                lemma_distance_wrap(c, r0, len + 1);
                lemma_ring_split(self.slots(), c, r0, len, 1);
                lemma_ring_frame(self.slots(), old_self.slots(), c, r0, len, write as int, 1);
                assert(self.occupied_slots() =~= old_self.occupied_slots().push(Some(elem)));
                assert(self.items() =~= old_self.items().push(elem));
            }
            Ok(())
        }
    }

    fn push_slice(&mut self, elems: &[T]) -> (n: usize) where T: Copy
        ensures
            final(self).read_view() == old(self).read_view(),
            final(self).write_view() == wrap(old(self).capacity_view() as int, old(self).write_view() + n),
    {
        let vacant = self.vacant_len();
        let n: usize = if elems.len() < vacant {
            elems.len()
        } else {
            vacant
        };
        let ghost old_self = *self;
        let ghost c = self.capacity_view() as int;
        let ghost len = self.items().len() as int;
        let write = self.write.get();
        let capacity = self.storage.len();
        proof {
            lemma_wrap_distance(c, self.read_view(), self.write_view());
            if len < c {
                lemma_nth_slot(c, self.read_view(), len);
            }
        }
        write_slots(&mut self.storage, capacity, write, elems, n);
        self.write.set(advance(capacity, write, n));
        proof {
            let r0 = old_self.read_view();
            lemma_distance_wrap(c, r0, len + n);
            lemma_ring_split(self.slots(), c, r0, len, n as int);
            if len < c {
                lemma_ring_frame(self.slots(), old_self.slots(), c, r0, len, write as int, n as int);
            } else {
                assert(ring_slots(self.slots(), c, r0, len) =~= ring_slots(old_self.slots(), c, r0, len));
            }
            assert(self.occupied_slots() =~= old_self.occupied_slots() + Seq::new(
                n as nat,
                |i: int| Some(elems@[i]),
            ));
            assert(self.items() =~= old_self.items() + elems@.take(n as int));
        }
        n
    }
}

impl<T, R: Index, W: Index> Consumer for Rb<T, R, W> {
    fn try_pop(&mut self) -> (r: Option<T>)
        ensures
            final(self).write_view() == old(self).write_view(),
            final(self).read_view() == if r is Some {
                wrap(old(self).capacity_view() as int, old(self).read_view() + 1)
            } else {
                old(self).read_view()
            },
    {
        if self.is_empty() {
            None
        } else {
            let ghost old_self = *self;
            let ghost c = self.capacity_view() as int;
            let ghost len = self.items().len() as int;
            let read = self.read.get();
            let capacity = self.storage.len();
            proof {
                lemma_ring_split(old_self.slots(), c, read as int, 1, len - 1);
                assert(old_self.occupied_slots()[0] is Some);
            }
            let item = self.take_item(read);
            let new_read = advance(capacity, read, 1);
            self.read.set(new_read);
            proof {
                lemma_distance_wrap(c, read as int, 1);
                lemma_nth_slot(c, new_read as int, len - 1);
                lemma_ring_frame(self.slots(), old_self.slots(), c, new_read as int, len - 1, read as int, 1);
                assert(self.occupied_slots() =~= old_self.occupied_slots().drop_first());
                assert(self.items() =~= old_self.items().drop_first());
            }
            item
        }
    }

    fn pop_slice(&mut self, elems: &mut [T]) -> (n: usize) where T: Copy
        ensures
            final(self).write_view() == old(self).write_view(),
            final(self).read_view() == wrap(old(self).capacity_view() as int, old(self).read_view() + n),
    {
        let occupied = self.occupied_len();
        let n: usize = if elems.len() < occupied {
            elems.len()
        } else {
            occupied
        };
        let ghost old_self = *self;
        let ghost c = self.capacity_view() as int;
        let ghost len = self.items().len() as int;
        let read = self.read.get();
        let capacity = self.storage.len();
        proof {
            lemma_ring_split(old_self.slots(), c, read as int, n as int, len - n);
            let front = ring_slots(old_self.slots(), c, read as int, n as int);
            assert forall|i: int| 0 <= i < front.len() implies (#[trigger] front[i]) is Some by {
                assert(front[i] == old_self.occupied_slots()[i]);
            }
        }
        copy_slots(&self.storage, capacity, read, elems, n);
        let new_read = advance(capacity, read, n);
        self.read.set(new_read);
        proof {
            lemma_distance_wrap(c, read as int, n as int);
            assert(self.occupied_slots() =~= old_self.occupied_slots().skip(n as int));
            assert(self.items() =~= old_self.items().skip(n as int));
            assert(unwrap_all(ring_slots(old_self.slots(), c, read as int, n as int))
                =~= old_self.items().take(n as int));
        }
        n
    }

    fn skip(&mut self, count: usize) -> (n: usize)
        ensures
            final(self).write_view() == old(self).write_view(),
            final(self).read_view() == wrap(old(self).capacity_view() as int, old(self).read_view() + n),
    {
        let occupied = self.occupied_len();
        let n: usize = if count < occupied {
            count
        } else {
            occupied
        };
        let ghost old_self = *self;
        let ghost c = self.capacity_view() as int;
        let ghost len = self.items().len() as int;
        let read = self.read.get();
        let capacity = self.storage.len();
        clear_slots(&mut self.storage, capacity, read, n);
        let new_read = advance(capacity, read, n);
        self.read.set(new_read);
        proof {
            lemma_distance_wrap(c, read as int, n as int);
            lemma_ring_split(old_self.slots(), c, read as int, n as int, len - n);
            if n > 0 {
                lemma_nth_slot(c, new_read as int, 0);
                lemma_ring_frame(self.slots(), old_self.slots(), c, new_read as int, len - n, read as int, n as int);
            }
            assert(self.occupied_slots() =~= old_self.occupied_slots().skip(n as int));
            assert(self.items() =~= old_self.items().skip(n as int));
        }
        n
    }

    fn clear(&mut self) -> (n: usize)
        ensures
            final(self).write_view() == old(self).write_view(),
            final(self).read_view() == old(self).write_view(),
    {
        let len = self.occupied_len();
        let n = self.skip(len);
        proof {
            assert(self.items() =~= Seq::<T>::empty());
        }
        n
    }
}

impl<T, R: Index, W: Index> RingBuffer for Rb<T, R, W> {

}

} // verus!
