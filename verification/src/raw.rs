//! Index arithmetic of the ring buffer.
//!
//! Indices live in `0..2 * capacity`; the slot of an index is the index
//! modulo `capacity`.
use core::ops::Range;
use vstd::arithmetic::div_mod::lemma_fundamental_div_mod;
use vstd::arithmetic::div_mod::lemma_fundamental_div_mod_converse;
use vstd::prelude::*;

verus! {

/// Indices are kept modulo `2 * capacity`.
pub open spec fn is_index(capacity: int, index: int) -> bool {
    0 <= index < 2 * capacity
}

/// `pos` taken modulo `2 * capacity`, for `pos` in `0..4 * capacity`.
pub open spec fn wrap(capacity: int, pos: int) -> int {
    if pos >= 2 * capacity {
        pos - 2 * capacity
    } else {
        pos
    }
}

/// Number of steps from index `begin` forward to index `end`, modulo `2 * capacity`.
pub open spec fn distance(capacity: int, begin: int, end: int) -> int {
    if end >= begin {
        end - begin
    } else {
        end + 2 * capacity - begin
    }
}

/// Storage slot of an index.
pub open spec fn slot(capacity: int, index: int) -> int {
    if index >= capacity {
        index - capacity
    } else {
        index
    }
}

/// Slot of the `i`-th position after index `begin`.
pub open spec fn nth_slot(capacity: int, begin: int, i: int) -> int {
    slot(capacity, wrap(capacity, begin + i))
}

/// Offset of slot `k` from the slot of index `begin`, going forward.
pub open spec fn slot_offset(capacity: int, begin: int, k: int) -> int {
    let s = slot(capacity, begin);
    if k >= s {
        k - s
    } else {
        k + capacity - s
    }
}

/// A `read`/`write` pair that a ring buffer of `capacity` can hold: both are
/// indices and at most `capacity` items lie between them.
pub open spec fn valid_indices(capacity: int, read: int, write: int) -> bool {
    &&& 0 < capacity
    &&& 2 * capacity <= usize::MAX
    &&& is_index(capacity, read)
    &&& is_index(capacity, write)
    &&& distance(capacity, read, write) <= capacity
}

/// What [`ranges`] returns: the slots of the `(end - begin) % (2 * capacity)`
/// positions that follow `begin`, the first range starting at `begin % capacity`
/// and running to the end of the storage at most, the second one holding what
/// wraps around to the start of the storage.
pub open spec fn ranges_spec(capacity: int, begin: int, end: int, first: Range<usize>, second: Range<usize>) -> bool {
    let start = begin % capacity;
    let n = (end - begin) % (2 * capacity);
    &&& first.start == start
    &&& first.end == if start + n <= capacity { start + n } else { capacity }
    &&& second.start == 0
    &&& second.end == if start + n <= capacity { 0 } else { start + n - capacity }
}

/// The two ranges of [`ranges_spec`] lie inside the storage, do not overlap,
/// hold `(end - begin) % (2 * capacity)` slots between them, and the second is
/// empty whenever the first one is.
pub proof fn lemma_ranges_partition(
    capacity: int,
    begin: int,
    end: int,
    first: Range<usize>,
    second: Range<usize>,
)
    requires
        0 < capacity,
        0 <= (end - begin) % (2 * capacity) <= capacity,
        ranges_spec(capacity, begin, end, first, second),
    ensures
        first.start <= first.end <= capacity,
        second.start <= second.end <= first.start,
        (first.end - first.start) + (second.end - second.start) == (end - begin) % (2 * capacity),
        first.start == first.end ==> second.start == second.end,
{
    assert(0 <= begin % capacity < capacity) by {
        vstd::arithmetic::div_mod::lemma_mod_bound(begin, capacity);
    }
}

/// For an index, `%` agrees with [`slot`] and [`distance`] agrees with `%`.
pub proof fn lemma_index_mod(capacity: int, begin: int, end: int)
    requires
        0 < capacity,
        is_index(capacity, begin),
        is_index(capacity, end),
    ensures
        begin % capacity == slot(capacity, begin),
        (end - begin) % (2 * capacity) == distance(capacity, begin, end),
{
    if begin >= capacity {
        lemma_fundamental_div_mod_converse(begin, capacity, 1, begin - capacity);
    } else {
        lemma_fundamental_div_mod_converse(begin, capacity, 0, begin);
    }
    if end >= begin {
        lemma_fundamental_div_mod_converse(end - begin, 2 * capacity, 0, end - begin);
    } else {
        lemma_fundamental_div_mod_converse(end - begin, 2 * capacity, -1, end + 2 * capacity - begin);
    }
}

/// For an index, `/` tells the lower half of the positions from the upper one.
pub proof fn lemma_index_div(capacity: int, index: int)
    requires
        0 < capacity,
        is_index(capacity, index),
    ensures
        index / capacity == if index >= capacity {
            1int
        } else {
            0int
        },
        index % capacity == slot(capacity, index),
{
    if index >= capacity {
        lemma_fundamental_div_mod_converse(index, capacity, 1, index - capacity);
    } else {
        lemma_fundamental_div_mod_converse(index, capacity, 0, index);
    }
}

proof fn lemma_mul_two(c: int, m: int)
    ensures
        c * (2 * m) == (2 * c) * m,
        c * (2 * m + 1) == (2 * c) * m + c,
        m * (2 * c) == (2 * c) * m,
        (m - 1) * (2 * c) == (2 * c) * m - 2 * c,
{
    assert(m * (2 * c) == (2 * c) * m) by (nonlinear_arith);
    assert((m - 1) * (2 * c) == (2 * c) * m - 2 * c) by (nonlinear_arith);
    assert(c * (2 * m) == (2 * c) * m) by (nonlinear_arith);
    assert(c * (2 * m + 1) == (2 * c) * m + c) by (nonlinear_arith);
}

proof fn lemma_ranges(capacity: int, begin: int, end: int)
    requires
        0 < capacity,
        0 <= begin,
        0 <= end,
        (end - begin) % (2 * capacity) <= capacity,
    ensures
        ({
            let c = capacity;
            let (qb, rb, qe, re) = (begin / c, begin % c, end / c, end % c);
            let n = (end - begin) % (2 * c);
            &&& 0 <= rb < c
            &&& 0 <= re < c
            &&& qb % 2 == qe % 2 ==> rb <= re && n == re - rb
            &&& qb % 2 != qe % 2 ==> re <= rb && n == c + re - rb
        }),
{
    let c = capacity;
    lemma_fundamental_div_mod(begin, c);
    lemma_fundamental_div_mod(end, c);
    let (qb, rb, qe, re) = (begin / c, begin % c, end / c, end % c);
    let k = qe - qb;
    lemma_fundamental_div_mod(k, 2);
    let m = k / 2;
    assert(end - begin == c * k + (re - rb)) by (nonlinear_arith)
        requires
            begin == c * qb + rb,
            end == c * qe + re,
            k == qe - qb,
    ;
    lemma_mul_two(c, m);
    if qb % 2 == qe % 2 {
        assert(k % 2 == 0) by {
            lemma_fundamental_div_mod(qb, 2);
            lemma_fundamental_div_mod(qe, 2);
            lemma_fundamental_div_mod_converse(k, 2, qe / 2 - qb / 2, 0);
        }
        assert(k == 2 * m);
        if re >= rb {
            lemma_fundamental_div_mod_converse(end - begin, 2 * c, m, re - rb);
        } else {
            lemma_fundamental_div_mod_converse(end - begin, 2 * c, m - 1, re - rb + 2 * c);
        }
    } else {
        assert(k % 2 == 1) by {
            lemma_fundamental_div_mod(qb, 2);
            lemma_fundamental_div_mod(qe, 2);
            if qe % 2 == 1 {
                lemma_fundamental_div_mod_converse(k, 2, qe / 2 - qb / 2, 1);
            } else {
                lemma_fundamental_div_mod_converse(k, 2, qe / 2 - qb / 2 - 1, 1);
            }
        }
        assert(k == 2 * m + 1);
        lemma_fundamental_div_mod_converse(end - begin, 2 * c, m, c + re - rb);
    }
}

/// The `i`-th position after `begin` lies `i` slots after the slot of `begin`,
/// wrapping around the storage; [`slot_offset`] is its inverse.
pub proof fn lemma_nth_slot(capacity: int, begin: int, i: int)
    requires
        0 < capacity,
        is_index(capacity, begin),
        0 <= i < capacity,
    ensures
        nth_slot(capacity, begin, i) == if slot(capacity, begin) + i < capacity {
            slot(capacity, begin) + i
        } else {
            slot(capacity, begin) + i - capacity
        },
        0 <= nth_slot(capacity, begin, i) < capacity,
        slot_offset(capacity, begin, nth_slot(capacity, begin, i)) == i,
{
}

/// Every slot is the `slot_offset`-th position after `begin`.
pub proof fn lemma_slot_offset(capacity: int, begin: int, k: int)
    requires
        0 < capacity,
        is_index(capacity, begin),
        0 <= k < capacity,
    ensures
        0 <= slot_offset(capacity, begin, k) < capacity,
        nth_slot(capacity, begin, slot_offset(capacity, begin, k)) == k,
{
}

/// Positions counted from an advanced index are positions counted from the
/// index it was advanced from.
pub proof fn lemma_nth_slot_shift(capacity: int, begin: int, n: int, i: int)
    requires
        0 < capacity,
        is_index(capacity, begin),
        0 <= n,
        0 <= i,
        n + i < 2 * capacity,
    ensures
        is_index(capacity, wrap(capacity, begin + n)),
        nth_slot(capacity, wrap(capacity, begin + n), i) == nth_slot(capacity, begin, n + i),
{
}

/// Advancing an index by `n < 2 * capacity` puts it `n` steps away.
pub proof fn lemma_distance_wrap(capacity: int, begin: int, n: int)
    requires
        0 < capacity,
        is_index(capacity, begin),
        0 <= n < 2 * capacity,
    ensures
        is_index(capacity, wrap(capacity, begin + n)),
        distance(capacity, begin, wrap(capacity, begin + n)) == n,
{
}

/// An index is reached from another by advancing it by their distance.
pub proof fn lemma_wrap_distance(capacity: int, begin: int, end: int)
    requires
        0 < capacity,
        is_index(capacity, begin),
        is_index(capacity, end),
    ensures
        0 <= distance(capacity, begin, end) < 2 * capacity,
        wrap(capacity, begin + distance(capacity, begin, end)) == end,
{
}

/// Distances add up along the ring while they stay below a full turn.
pub proof fn lemma_distance_add(capacity: int, a: int, b: int, x: int)
    requires
        0 < capacity,
        is_index(capacity, a),
        is_index(capacity, b),
        is_index(capacity, x),
        distance(capacity, a, b) + distance(capacity, b, x) < 2 * capacity,
    ensures
        distance(capacity, a, x) == distance(capacity, a, b) + distance(capacity, b, x),
{
}

/// Basic access to a ring buffer: its slots and its positions.
///
/// The `read` position is where the oldest item lies, the `write` position is
/// where the next item goes; both are taken modulo `2 * capacity`.
pub trait Raw {
    /// Number of slots.
    spec fn raw_capacity(&self) -> nat;

    /// The read position.
    spec fn read_end_view(&self) -> int;

    /// The write position.
    spec fn write_end_view(&self) -> int;

    /// The positions are valid for the capacity.
    spec fn raw_inv(&self) -> bool;

    /// The positions of a well-formed ring buffer are valid.
    proof fn lemma_raw_inv(&self)
        requires
            self.raw_inv(),
        ensures
            valid_indices(self.raw_capacity() as int, self.read_end_view(), self.write_end_view()),
    ;

    /// Number of slots of the storage.
    fn slot_count(&self) -> (c: usize)
        ensures
            c == self.raw_capacity(),
    ;

    /// The read position.
    fn read_end(&self) -> (r: usize)
        ensures
            r == self.read_end_view(),
    ;

    /// The write position.
    fn write_end(&self) -> (w: usize)
        ensures
            w == self.write_end_view(),
    ;

    /// Modulus of the positions: `2 * capacity`.
    fn modulus(&self) -> (m: usize)
        requires
            self.raw_inv(),
        ensures
            m == 2 * self.raw_capacity(),
    {
        proof {
            self.lemma_raw_inv();
        }
        modulus(self.slot_count())
    }
}

/// A ring buffer whose read position can be moved.
pub trait RawCons: Raw {
    /// Sets the new **read** position.
    ///
    /// The items between the old and the new position are the caller's to
    /// take out of the storage.
    fn set_read_end(&mut self, value: usize)
        requires
            old(self).raw_inv(),
            valid_indices(old(self).raw_capacity() as int, value as int, old(self).write_end_view()),
        ensures
            final(self).raw_inv(),
            final(self).raw_capacity() == old(self).raw_capacity(),
            final(self).read_end_view() == value,
            final(self).write_end_view() == old(self).write_end_view(),
    ;
}

/// A ring buffer whose write position can be moved.
pub trait RawProd: Raw {
    /// Sets the new **write** position.
    ///
    /// The items between the old and the new position are the caller's to put
    /// into the storage.
    fn set_write_end(&mut self, value: usize)
        requires
            old(self).raw_inv(),
            valid_indices(old(self).raw_capacity() as int, old(self).read_end_view(), value as int),
        ensures
            final(self).raw_inv(),
            final(self).raw_capacity() == old(self).raw_capacity(),
            final(self).read_end_view() == old(self).read_end_view(),
            final(self).write_end_view() == value,
    ;
}

/// Modulus of the indices of a ring buffer of `capacity`: `2 * capacity`.
pub fn modulus(capacity: usize) -> (m: usize)
    requires
        0 < capacity,
        2 * capacity <= usize::MAX,
    ensures
        m == 2 * capacity,
{
    2 * capacity
}

/// Returns a pair of ranges between `begin` and `end` positions in a ring buffer
/// with specific `capacity`.
///
/// `begin` and `end` may be arbitrarily large, but `(end - begin) % (2 * capacity)`
/// must not exceed `capacity`. Actual positions are taken modulo `capacity`.
///
/// The first range starts from `begin`. If the first range is empty then the
/// second range is empty too.
pub fn ranges(capacity: usize, begin: usize, end: usize) -> (r: (Range<usize>, Range<usize>))
    requires
        0 < capacity,
        (end - begin) % (2 * capacity as int) <= capacity,
    ensures
        ranges_spec(capacity as int, begin as int, end as int, r.0, r.1),
{
    proof {
        lemma_ranges(capacity as int, begin as int, end as int);
    }
    let head_quo: usize = begin / capacity;
    let head_rem: usize = begin % capacity;
    let tail_quo: usize = end / capacity;
    let tail_rem: usize = end % capacity;
    if head_quo % 2 == tail_quo % 2 {
        (head_rem..tail_rem, 0..0)
    } else {
        (head_rem..capacity, 0..tail_rem)
    }
}


/// Index `index` moved `count` positions forward, modulo `2 * capacity`.
pub fn advance(capacity: usize, index: usize, count: usize) -> (r: usize)
    requires
        0 < capacity,
        2 * capacity <= usize::MAX,
        is_index(capacity as int, index as int),
        count <= 2 * capacity,
    ensures
        r == wrap(capacity as int, index + count),
{
    let m: usize = 2 * capacity;
    if index >= m - count {
        index - (m - count)
    } else {
        index + count
    }
}

/// The number of positions from `read` to `write`: `(write - read) % (2 * capacity)`.
pub fn count_occupied(capacity: usize, read: usize, write: usize) -> (n: usize)
    requires
        valid_indices(capacity as int, read as int, write as int),
    ensures
        n == distance(capacity as int, read as int, write as int),
{
    let m: usize = modulus(capacity);
    if write >= read {
        write - read
    } else {
        m - read + write
    }
}

/// The number of free places left between `read` and `write`:
/// `(capacity + read - write) % (2 * capacity)`.
pub fn count_vacant(capacity: usize, read: usize, write: usize) -> (n: usize)
    requires
        valid_indices(capacity as int, read as int, write as int),
    ensures
        n == capacity - distance(capacity as int, read as int, write as int),
{
    capacity - count_occupied(capacity, read, write)
}

} // verus!
