//! Storage of a ring buffer: `capacity` slots, each of which holds an item
//! (`Some`) or nothing (`None`).
//!
//! The functions here read and write runs of consecutive positions, split into
//! the two contiguous ranges that [`ranges`] yields.
use crate::raw::{
    advance, is_index, lemma_distance_wrap, lemma_index_mod, lemma_nth_slot, lemma_nth_slot_shift,
    lemma_slot_offset, nth_slot, ranges, slot, slot_offset, wrap,
};
use vstd::prelude::*;

verus! {

/// The slots of the `n` positions that follow index `begin`, in order.
pub open spec fn ring_slots<T>(slots: Seq<Option<T>>, capacity: int, begin: int, n: int) -> Seq<
    Option<T>,
> {
    Seq::new(n as nat, |i: int| slots[nth_slot(capacity, begin, i)])
}

/// Every slot of `s` holds an item.
pub open spec fn all_some<T>(s: Seq<Option<T>>) -> bool {
    forall|i: int| 0 <= i < s.len() ==> (#[trigger] s[i]) is Some
}

/// The items held by the slots of `s`.
pub open spec fn unwrap_all<T>(s: Seq<Option<T>>) -> Seq<T> {
    Seq::new(s.len(), |i: int| s[i]->0)
}

/// `a` and `b` agree on every slot that is not one of the `n` positions after `begin`.
pub open spec fn same_outside<T>(
    a: Seq<Option<T>>,
    b: Seq<Option<T>>,
    capacity: int,
    begin: int,
    n: int,
) -> bool {
    forall|k: int|
        0 <= k < capacity && slot_offset(capacity, begin, k) >= n ==> (#[trigger] a[k]) == b[k]
}

/// Facts on a storage of `capacity` slots that every caller needs.
pub open spec fn storage_ok<T>(slots: Seq<Option<T>>, capacity: int, begin: int) -> bool {
    &&& 0 < capacity
    &&& 2 * capacity <= usize::MAX
    &&& slots.len() == capacity
    &&& is_index(capacity, begin)
}

/// The `m + n` positions after `begin` are the `m` positions after `begin`
/// followed by the `n` positions after `begin + m`.
pub proof fn lemma_ring_split<T>(slots: Seq<Option<T>>, capacity: int, begin: int, m: int, n: int)
    requires
        0 < capacity,
        is_index(capacity, begin),
        0 <= m,
        0 <= n,
        m + n <= capacity,
    ensures
        is_index(capacity, wrap(capacity, begin + m)),
        ring_slots(slots, capacity, begin, m + n) == ring_slots(slots, capacity, begin, m)
            + ring_slots(slots, capacity, wrap(capacity, begin + m), n),
{
    lemma_nth_slot_shift(capacity, begin, m, 0);
    assert forall|i: int| m <= i < m + n implies nth_slot(capacity, begin, i) == nth_slot(
        capacity,
        wrap(capacity, begin + m),
        i - m,
    ) by {
        lemma_nth_slot_shift(capacity, begin, m, i - m);
    }
    assert(ring_slots(slots, capacity, begin, m + n) =~= ring_slots(slots, capacity, begin, m)
        + ring_slots(slots, capacity, wrap(capacity, begin + m), n));
}

/// A write to the `wn` positions after index `at` leaves the `n` positions after
/// `begin` as they were, when these two runs do not meet.
pub proof fn lemma_ring_frame<T>(
    a: Seq<Option<T>>,
    s: Seq<Option<T>>,
    capacity: int,
    begin: int,
    n: int,
    at: int,
    wn: int,
)
    requires
        0 < capacity,
        is_index(capacity, begin),
        is_index(capacity, at),
        a.len() == capacity,
        s.len() == capacity,
        0 <= n <= slot_offset(capacity, begin, slot(capacity, at)),
        0 <= wn,
        slot_offset(capacity, begin, slot(capacity, at)) + wn <= capacity,
        same_outside(a, s, capacity, at, wn),
    ensures
        ring_slots(a, capacity, begin, n) == ring_slots(s, capacity, begin, n),
{
    assert forall|i: int| 0 <= i < n implies a[nth_slot(capacity, begin, i)] == s[nth_slot(
        capacity,
        begin,
        i,
    )] by {
        lemma_nth_slot(capacity, begin, i);
        let k = nth_slot(capacity, begin, i);
        assert(slot_offset(capacity, at, k) >= wn);
    }
    assert(ring_slots(a, capacity, begin, n) =~= ring_slots(s, capacity, begin, n));
}

/// Puts `elems[..count]` into the `count` positions that follow index `begin`;
/// the other slots keep what they hold.
pub fn write_slots<T: Copy>(
    slots: &mut Vec<Option<T>>,
    capacity: usize,
    begin: usize,
    elems: &[T],
    count: usize,
)
    requires
        storage_ok(old(slots)@, capacity as int, begin as int),
        count <= capacity,
        count <= elems@.len(),
    ensures
        final(slots)@.len() == capacity,
        ring_slots(final(slots)@, capacity as int, begin as int, count as int) == Seq::new(
            count as nat,
            |i: int| Some(elems@[i]),
        ),
        same_outside(final(slots)@, old(slots)@, capacity as int, begin as int, count as int),
{
    let ghost c = capacity as int;
    let ghost b = begin as int;
    let ghost s0 = slots@;
    let end = advance(capacity, begin, count);
    proof {
        lemma_distance_wrap(c, b, count as int);
        lemma_index_mod(c, b, end as int);
    }
    let (first, second) = ranges(capacity, begin, end);
    let start: usize = first.start;
    let first_end: usize = first.end;
    let second_end: usize = second.end;
    let first_len: usize = first_end - start;
    let mut j: usize = start;
    while j < first_end
        invariant
            c == capacity,
            b == begin,
            start <= j <= first_end <= capacity,
            slots@.len() == capacity,
            0 < c,
            is_index(c, b),
            start == slot(c, b),
            first_len == first_end - start,
            first_len <= count <= elems@.len(),
            forall|k: int|
                0 <= k < capacity ==> #[trigger] slots@[k] == if start <= k < j {
                    Some(elems@[k - start])
                } else {
                    s0[k]
                },
        decreases first_end - j,
    {
        slots.set(j, Some(elems[j - start]));
        j = j + 1;
    }
    let mut j: usize = 0;
    while j < second_end
        invariant
            c == capacity,
            b == begin,
            j <= second_end,
            slots@.len() == capacity,
            0 < c,
            is_index(c, b),
            start == slot(c, b),
            first_len == first_end - start,
            second_end == count - first_len,
            second_end > 0 ==> first_end == capacity && second_end <= start,
            first_end <= capacity,
            count <= elems@.len(),
            forall|k: int|
                0 <= k < capacity ==> #[trigger] slots@[k] == if start <= k < first_end {
                    Some(elems@[k - start])
                } else if k < j {
                    Some(elems@[first_len + k])
                } else {
                    s0[k]
                },
        decreases second_end - j,
    {
        slots.set(j, Some(elems[first_len + j]));
        j = j + 1;
    }
    proof {
        assert forall|i: int| 0 <= i < count implies slots@[nth_slot(c, b, i)] == Some(
            elems@[i],
        ) by {
            lemma_nth_slot(c, b, i);
        }
        assert(ring_slots(slots@, c, b, count as int) =~= Seq::new(
            count as nat,
            |i: int| Some(elems@[i]),
        ));
        assert forall|k: int|
            0 <= k < capacity && slot_offset(c, b, k) >= count implies #[trigger] slots@[k]
            == s0[k] by {
            lemma_slot_offset(c, b, k);
        }
    }
}

/// Copies the items of the `count` positions that follow index `begin` into
/// `elems[..count]`, in order; the rest of `elems` is left as it is.
pub fn copy_slots<T: Copy>(
    slots: &Vec<Option<T>>,
    capacity: usize,
    begin: usize,
    elems: &mut [T],
    count: usize,
)
    requires
        storage_ok(slots@, capacity as int, begin as int),
        count <= capacity,
        count <= old(elems)@.len(),
        all_some(ring_slots(slots@, capacity as int, begin as int, count as int)),
    ensures
        final(elems)@ == unwrap_all(ring_slots(slots@, capacity as int, begin as int, count as int))
            + old(elems)@.skip(count as int),
{
    let ghost c = capacity as int;
    let ghost b = begin as int;
    let ghost e0 = elems@;
    let end = advance(capacity, begin, count);
    proof {
        lemma_distance_wrap(c, b, count as int);
        lemma_index_mod(c, b, end as int);
    }
    let (first, second) = ranges(capacity, begin, end);
    let start: usize = first.start;
    let first_end: usize = first.end;
    let second_end: usize = second.end;
    let first_len: usize = first_end - start;
    proof {
        assert forall|i: int| 0 <= i < count implies (#[trigger] slots@[nth_slot(c, b, i)]) is Some
            && 0 <= nth_slot(c, b, i) < c by {
            lemma_nth_slot(c, b, i);
            assert(ring_slots(slots@, c, b, count as int)[i] == slots@[nth_slot(c, b, i)]);
        }
    }
    let mut j: usize = start;
    while j < first_end
        invariant
            c == capacity,
            b == begin,
            start <= j <= first_end <= capacity,
            slots@.len() == capacity,
            0 < c,
            is_index(c, b),
            start == slot(c, b),
            first_len == first_end - start,
            first_len <= count <= e0.len(),
            elems@.len() == e0.len(),
            forall|i: int| 0 <= i < count ==> (#[trigger] slots@[nth_slot(c, b, i)]) is Some,
            forall|i: int|
                0 <= i < e0.len() ==> #[trigger] elems@[i] == if i < j - start {
                    slots@[start + i]->0
                } else {
                    e0[i]
                },
        decreases first_end - j,
    {
        proof {
            lemma_nth_slot(c, b, (j - start) as int);
            assert(slots@[nth_slot(c, b, (j - start) as int)] is Some);
        }
        match &slots[j] {
            Some(item) => {
                elems[j - start] = *item;
            },
            None => {},
        }
        j = j + 1;
    }
    let mut j: usize = 0;
    while j < second_end
        invariant
            c == capacity,
            b == begin,
            j <= second_end,
            slots@.len() == capacity,
            0 < c,
            is_index(c, b),
            start == slot(c, b),
            first_len == first_end - start,
            second_end == count - first_len,
            second_end > 0 ==> first_end == capacity && second_end <= start,
            first_end <= capacity,
            count <= e0.len(),
            elems@.len() == e0.len(),
            forall|i: int| 0 <= i < count ==> (#[trigger] slots@[nth_slot(c, b, i)]) is Some,
            forall|i: int|
                0 <= i < e0.len() ==> #[trigger] elems@[i] == if i < first_len {
                    slots@[start + i]->0
                } else if i < first_len + j {
                    slots@[i - first_len]->0
                } else {
                    e0[i]
                },
        decreases second_end - j,
    {
        proof {
            lemma_nth_slot(c, b, (first_len + j) as int);
            assert(slots@[nth_slot(c, b, (first_len + j) as int)] is Some);
        }
        match &slots[j] {
            Some(item) => {
                elems[first_len + j] = *item;
            },
            None => {},
        }
        j = j + 1;
    }
    proof {
        assert forall|i: int| 0 <= i < count implies elems@[i] == slots@[nth_slot(c, b, i)]->0 by {
            lemma_nth_slot(c, b, i);
        }
        assert(elems@ =~= unwrap_all(ring_slots(slots@, c, b, count as int)) + e0.skip(
            count as int,
        ));
    }
}

/// Empties the `count` positions that follow index `begin`, dropping the items
/// they hold; the other slots keep what they hold.
pub fn clear_slots<T>(slots: &mut Vec<Option<T>>, capacity: usize, begin: usize, count: usize)
    requires
        storage_ok(old(slots)@, capacity as int, begin as int),
        count <= capacity,
    ensures
        final(slots)@.len() == capacity,
        ring_slots(final(slots)@, capacity as int, begin as int, count as int) == Seq::new(
            count as nat,
            |i: int| None::<T>,
        ),
        same_outside(final(slots)@, old(slots)@, capacity as int, begin as int, count as int),
{
    let ghost c = capacity as int;
    let ghost b = begin as int;
    let ghost s0 = slots@;
    let end = advance(capacity, begin, count);
    proof {
        lemma_distance_wrap(c, b, count as int);
        lemma_index_mod(c, b, end as int);
    }
    let (first, second) = ranges(capacity, begin, end);
    let start: usize = first.start;
    let first_end: usize = first.end;
    let second_end: usize = second.end;
    let mut j: usize = start;
    while j < first_end
        invariant
            c == capacity,
            b == begin,
            start <= j <= first_end <= capacity,
            slots@.len() == capacity,
            forall|k: int|
                0 <= k < capacity ==> #[trigger] slots@[k] == if start <= k < j {
                    None
                } else {
                    s0[k]
                },
        decreases first_end - j,
    {
        slots.set(j, None);
        j = j + 1;
    }
    let mut j: usize = 0;
    while j < second_end
        invariant
            c == capacity,
            b == begin,
            j <= second_end,
            slots@.len() == capacity,
            start <= first_end,
            second_end > 0 ==> first_end == capacity && second_end <= start,
            first_end <= capacity,
            forall|k: int|
                0 <= k < capacity ==> #[trigger] slots@[k] == if start <= k < first_end {
                    None
                } else if k < j {
                    None
                } else {
                    s0[k]
                },
        decreases second_end - j,
    {
        slots.set(j, None);
        j = j + 1;
    }
    proof {
        assert forall|i: int| 0 <= i < count implies slots@[nth_slot(c, b, i)] == None::<T> by {
            lemma_nth_slot(c, b, i);
        }
        assert(ring_slots(slots@, c, b, count as int) =~= Seq::new(count as nat, |i: int| None::<T>));
        assert forall|k: int|
            0 <= k < capacity && slot_offset(c, b, k) >= count implies #[trigger] slots@[k]
            == s0[k] by {
            lemma_slot_offset(c, b, k);
        }
    }
}

} // verus!
