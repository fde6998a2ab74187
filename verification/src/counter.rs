//! Ring buffer counters: the capacity and the `head` and `tail` positions,
//! without the storage.
//!
//! Items are taken from the **head** side and appended at the **tail** side.
use crate::raw::{
    advance, count_occupied, count_vacant, distance, lemma_index_div, lemma_index_mod, modulus,
    ranges_spec, valid_indices, wrap, lemma_distance_wrap, lemma_nth_slot, lemma_nth_slot_shift,
    lemma_wrap_distance, nth_slot,
};
use core::ops::Range;
use vstd::prelude::*;

verus! {

/// Ring buffer counter: contains the `head` and `tail` positions and the
/// capacity (`len`).
///
/// Positions are taken modulo `2 * len`, so that an empty buffer
/// (`head == tail`) is told from a full one (`tail - head == len`).
pub trait Counter: Sized {
    /// Capacity.
    spec fn len_view(&self) -> nat;

    /// Head position.
    spec fn head_view(&self) -> int;

    /// Tail position.
    spec fn tail_view(&self) -> int;

    /// Well-formedness.
    spec fn inv(&self) -> bool;

    /// A well-formed counter holds valid positions.
    proof fn lemma_inv(&self)
        requires
            self.inv(),
        ensures
            valid_indices(self.len_view() as int, self.head_view(), self.tail_view()),
    ;

    /// Capacity.
    fn len(&self) -> (l: usize)
        requires
            self.inv(),
        ensures
            l == self.len_view(),
    ;

    /// Head position.
    fn head(&self) -> (h: usize)
        requires
            self.inv(),
        ensures
            h == self.head_view(),
    ;

    /// Tail position.
    fn tail(&self) -> (t: usize)
        requires
            self.inv(),
        ensures
            t == self.tail_view(),
    ;

    /// Modulus of the positions: `2 * len`.
    fn modulus(&self) -> (m: usize)
        requires
            self.inv(),
        ensures
            m == 2 * self.len_view(),
    {
        proof {
            self.lemma_inv();
        }
        modulus(self.len())
    }

    /// The number of elements stored in the buffer at the moment.
    fn occupied_len(&self) -> (n: usize)
        requires
            self.inv(),
        ensures
            n == distance(self.len_view() as int, self.head_view(), self.tail_view()),
    {
        proof {
            self.lemma_inv();
        }
        count_occupied(self.len(), self.head(), self.tail())
    }

    /// The number of vacant places in the buffer at the moment.
    fn vacant_len(&self) -> (n: usize)
        requires
            self.inv(),
        ensures
            n == self.len_view() - distance(self.len_view() as int, self.head_view(), self.tail_view()),
    {
        proof {
            self.lemma_inv();
        }
        count_vacant(self.len(), self.head(), self.tail())
    }

    /// Checks if the occupied range is empty.
    fn is_empty(&self) -> (b: bool)
        requires
            self.inv(),
        ensures
            b == (distance(self.len_view() as int, self.head_view(), self.tail_view()) == 0),
    {
        proof {
            self.lemma_inv();
        }
        self.head() == self.tail()
    }

    /// Checks if the vacant range is empty.
    fn is_full(&self) -> (b: bool)
        requires
            self.inv(),
        ensures
            b == (distance(self.len_view() as int, self.head_view(), self.tail_view())
                == self.len_view()),
    {
        self.vacant_len() == 0
    }
}

/// Counter that may be created with default state.
pub trait DefaultCounter: Counter {
    /// Creates an empty counter of `len` capacity.
    fn with_capacity(len: usize) -> (r: Self)
        requires
            0 < len,
            2 * len <= usize::MAX,
        ensures
            r.inv(),
            r.len_view() == len,
            r.head_view() == 0,
            r.tail_view() == 0,
    ;
}

/// Counter owned by a single thread.
pub struct LocalCounter {
    len: usize,
    head: usize,
    tail: usize,
}

impl LocalCounter {
    /// Constructs a counter from its capacity and head and tail positions.
    pub(crate) fn new(len: usize, head: usize, tail: usize) -> (r: Self)
        requires
            valid_indices(len as int, head as int, tail as int),
        ensures
            r.inv(),
            r.len_view() == len,
            r.head_view() == head,
            r.tail_view() == tail,
    {
        LocalCounter { len, head, tail }
    }

    /// Clones the state of another counter.
    pub fn clone_from<S: Counter>(other: &S) -> (r: Self)
        requires
            other.inv(),
        ensures
            r.inv(),
            r.len_view() == other.len_view(),
            r.head_view() == other.head_view(),
            r.tail_view() == other.tail_view(),
    {
        proof {
            other.lemma_inv();
        }
        Self::new(other.len(), other.head(), other.tail())
    }

    /// Returns a pair of ranges of slots which contain, in order, the occupied
    /// cells of the ring buffer.
    pub fn occupied_ranges(&self) -> (r: (Range<usize>, Range<usize>))
        requires
            self.inv(),
        ensures
            ranges_spec(self.len_view() as int, self.head_view(), self.tail_view(), r.0, r.1),
    {
        let head = self.head;
        let tail = self.tail;
        let len = self.len;
        proof {
            lemma_index_div(len as int, head as int);
            lemma_index_div(len as int, tail as int);
            lemma_index_mod(len as int, head as int, tail as int);
        }
        let head_div: usize = head / len;
        let head_mod: usize = head % len;
        let tail_div: usize = tail / len;
        let tail_mod: usize = tail % len;
        if head_div == tail_div {
            (head_mod..tail_mod, 0..0)
        } else {
            (head_mod..len, 0..tail_mod)
        }
    }

    /// Returns a pair of ranges of slots which contain, in order, the vacant
    /// cells of the ring buffer.
    pub fn vacant_ranges(&self) -> (r: (Range<usize>, Range<usize>))
        requires
            self.inv(),
        ensures
            ranges_spec(self.len_view() as int, self.tail_view(), self.head_view() + self.len_view(), r.0, r.1),
    {
        let head = self.head;
        let tail = self.tail;
        let len = self.len;
        proof {
            lemma_index_div(len as int, head as int);
            lemma_index_div(len as int, tail as int);
            lemma_index_mod(len as int, tail as int, head as int);
            let c = len as int;
            let e = head + c;
            if e < 2 * c {
                vstd::arithmetic::div_mod::lemma_fundamental_div_mod_converse(e - tail, 2 * c, 0, e - tail);
            }
            if tail >= head {
                vstd::arithmetic::div_mod::lemma_fundamental_div_mod_converse(e - tail, 2 * c, 0, e - tail);
            } else {
                vstd::arithmetic::div_mod::lemma_fundamental_div_mod_converse(e - tail, 2 * c, 1, e - tail - 2 * c);
            }
        }
        let head_div: usize = head / len;
        let head_mod: usize = head % len;
        let tail_div: usize = tail / len;
        let tail_mod: usize = tail % len;
        if head_div == tail_div {
            (tail_mod..len, 0..head_mod)
        } else {
            (tail_mod..head_mod, 0..0)
        }
    }

    /// Replaces the **head** position.
    pub(crate) fn set_head(&mut self, head: usize)
        requires
            old(self).inv(),
            valid_indices(old(self).len_view() as int, head as int, old(self).tail_view()),
        ensures
            final(self).inv(),
            final(self).len_view() == old(self).len_view(),
            final(self).head_view() == head,
            final(self).tail_view() == old(self).tail_view(),
    {
        self.head = head;
    }

    /// Replaces the **tail** position.
    pub(crate) fn set_tail(&mut self, tail: usize)
        requires
            old(self).inv(),
            valid_indices(old(self).len_view() as int, old(self).head_view(), tail as int),
        ensures
            final(self).inv(),
            final(self).len_view() == old(self).len_view(),
            final(self).head_view() == old(self).head_view(),
            final(self).tail_view() == tail,
    {
        self.tail = tail;
    }

    /// Moves the **head** position `count` places forward.
    pub fn advance_head(&mut self, count: usize)
        requires
            old(self).inv(),
            count <= distance(old(self).len_view() as int, old(self).head_view(), old(self).tail_view()),
        ensures
            final(self).inv(),
            final(self).len_view() == old(self).len_view(),
            final(self).tail_view() == old(self).tail_view(),
            final(self).head_view() == wrap(old(self).len_view() as int, old(self).head_view() + count),
            distance(final(self).len_view() as int, final(self).head_view(), final(self).tail_view())
                == distance(old(self).len_view() as int, old(self).head_view(), old(self).tail_view()) - count,
    {
        proof {
            lemma_distance_wrap(self.len as int, self.head as int, count as int);
        }
        self.head = advance(self.len, self.head, count);
    }

    /// Moves the **tail** position `count` places forward.
    pub fn advance_tail(&mut self, count: usize)
        requires
            old(self).inv(),
            count <= old(self).len_view() - distance(
                old(self).len_view() as int,
                old(self).head_view(),
                old(self).tail_view(),
            ),
        ensures
            final(self).inv(),
            final(self).len_view() == old(self).len_view(),
            final(self).head_view() == old(self).head_view(),
            final(self).tail_view() == wrap(old(self).len_view() as int, old(self).tail_view() + count),
            distance(final(self).len_view() as int, final(self).head_view(), final(self).tail_view())
                == distance(old(self).len_view() as int, old(self).head_view(), old(self).tail_view()) + count,
    {
        proof {
            lemma_distance_wrap(self.len as int, self.tail as int, count as int);
        }
        self.tail = advance(self.len, self.tail, count);
    }
}

impl Counter for LocalCounter {
    closed spec fn len_view(&self) -> nat {
        self.len as nat
    }

    closed spec fn head_view(&self) -> int {
        self.head as int
    }

    closed spec fn tail_view(&self) -> int {
        self.tail as int
    }

    closed spec fn inv(&self) -> bool {
        valid_indices(self.len as int, self.head as int, self.tail as int)
    }

    proof fn lemma_inv(&self) {
        assert(self.len_view() == self.len && self.head_view() == self.head && self.tail_view() == self.tail);
    }

    fn len(&self) -> (l: usize) {
        self.len
    }

    fn head(&self) -> (h: usize) {
        self.head
    }

    fn tail(&self) -> (t: usize) {
        self.tail
    }
}

impl DefaultCounter for LocalCounter {
    fn with_capacity(len: usize) -> (r: Self) {
        Self::new(len, 0, 0)
    }
}

/// The ranges that [`LocalCounter::vacant_ranges`] returns for the positions
/// `head` and `tail` of a counter of capacity `len` list the free slots in
/// order: the first range starts at the slot of `tail` and runs to the end of
/// the storage at most, the second starts at slot 0 and stops at the slot of
/// `head` at most, together they hold as many slots as are free, the second
/// is empty where the first is, their `i`-th slot is the slot of position
/// `tail + i`, and none of these slots is one of the occupied ones.
pub proof fn lemma_vacant_ranges(len: int, head: int, tail: int, a: Range<usize>, b: Range<usize>)
    requires
        valid_indices(len, head, tail),
        ranges_spec(len, tail, head + len, a, b),
    ensures
        a.start == tail % len,
        a.start <= a.end <= len,
        b.start == 0,
        b.start <= b.end <= head % len,
        (a.end - a.start) + (b.end - b.start) == len - distance(len, head, tail),
        a.start == a.end ==> b.start == b.end,
        forall|i: int|
            0 <= i < len - distance(len, head, tail) ==> #[trigger] nth_slot(len, tail, i) == if i
                < a.end - a.start {
                a.start + i
            } else {
                b.start + i - (a.end - a.start)
            },
        forall|i: int, j: int|
            0 <= i < len - distance(len, head, tail) && 0 <= j < distance(len, head, tail)
                ==> #[trigger] nth_slot(len, tail, i) != #[trigger] nth_slot(len, head, j),
{
    let d = distance(len, head, tail);
    let x = head + len - tail;
    lemma_index_mod(len, tail, head);
    lemma_index_mod(len, head, tail);
    if tail >= head {
        vstd::arithmetic::div_mod::lemma_fundamental_div_mod_converse(x, 2 * len, 0, len - d);
    } else {
        vstd::arithmetic::div_mod::lemma_fundamental_div_mod_converse(x, 2 * len, 1, len - d);
    }
    assert(x % (2 * len) == len - d);
    lemma_wrap_distance(len, head, tail);
    if d < len {
        lemma_nth_slot(len, head, d);
    }
    assert forall|i: int| 0 <= i < len - d implies #[trigger] nth_slot(len, tail, i) == if i < a.end
        - a.start {
        a.start + i
    } else {
        b.start + i - (a.end - a.start)
    } by {
        lemma_nth_slot(len, tail, i);
    }
    assert forall|i: int, j: int| 0 <= i < len - d && 0 <= j < d implies #[trigger] nth_slot(
        len,
        tail,
        i,
    ) != #[trigger] nth_slot(len, head, j) by {
        lemma_nth_slot_shift(len, head, d, i);
        lemma_nth_slot(len, head, d + i);
        lemma_nth_slot(len, head, j);
    }
}

} // verus!
