//! Removing items one by one.
use crate::cache::Cache;
use crate::consumer::Consumer;
use crate::frozen::FrozenCons;
use crate::observer::Observer;
use crate::raw::wrap;
use crate::rb::LocalRb;
use vstd::math::min;
use vstd::prelude::*;

verus! {

/// What one call of `next` does to the items `s` left to remove: it returns
/// the oldest one and removes it, or returns `None` and keeps `s` when there
/// is none.
pub open spec fn pop_step<T>(s: Seq<T>) -> (Option<T>, Seq<T>) {
    if s.len() == 0 {
        (None, s)
    } else {
        (Some(s[0]), s.drop_first())
    }
}

/// What `k` calls of `next` in a row do to the items `s` left to remove: the
/// results in order, and the items left after them.
pub open spec fn pop_steps<T>(s: Seq<T>, k: nat) -> (Seq<Option<T>>, Seq<T>)
    decreases k,
{
    if k == 0 {
        (Seq::empty(), s)
    } else {
        let (r, rest) = pop_step(s);
        let (rs, left) = pop_steps(rest, (k - 1) as nat);
        (seq![r] + rs, left)
    }
}

/// `k` calls of `next` starting from the items `s` return `s[0]`, `s[1]`,
/// ... as `Some` while items are left and `None` from then on, and leave
/// `s[min(k, s.len())..]`.
pub proof fn lemma_pop_steps<T>(s: Seq<T>, k: nat)
    ensures
        pop_steps(s, k).0 == Seq::new(
            k,
            |i: int|
                if i < s.len() {
                    Some(s[i])
                } else {
                    None
                },
        ),
        pop_steps(s, k).1 == s.skip(min(k as int, s.len() as int)),
    decreases k,
{
    if k > 0 {
        let rest = pop_step(s).1;
        lemma_pop_steps(rest, (k - 1) as nat);
        if s.len() == 0 {
            assert(s.skip(0) =~= s);
        } else {
            assert(rest.skip(min(k - 1, rest.len() as int)) =~= s.skip(min(k as int, s.len() as int)));
        }
        assert(pop_steps(s, k).0 =~= Seq::new(
            k,
            |i: int|
                if i < s.len() {
                    Some(s[i])
                } else {
                    None
                },
        ));
    } else {
        assert(s.skip(0) =~= s);
    }
}

/// Removes items one by one from a ring buffer, returning the freed places
/// to it only when given back with [`PopIter::into_rb_ref`].
pub struct PopIter<T> {
    frozen: FrozenCons<T>,
}

impl<T> PopIter<T> {
    /// Items left to remove, oldest first.
    pub closed spec fn remaining(&self) -> Seq<T> {
        self.frozen.items()
    }

    /// Well-formedness.
    pub closed spec fn wf(&self) -> bool {
        self.frozen.inv()
    }

    /// Capacity of the ring buffer items are removed from.
    pub closed spec fn capacity_view(&self) -> nat {
        self.frozen.capacity_view()
    }

    /// Position of the oldest item left.
    pub closed spec fn read_view(&self) -> int {
        self.frozen.read_view()
    }

    /// Write position of the ring buffer.
    pub closed spec fn write_view(&self) -> int {
        self.frozen.write_view()
    }

    /// Starts removing the items of `rb`.
    pub fn new(rb: LocalRb<T>) -> (r: Self)
        requires
            rb.wf(),
        ensures
            r.wf(),
            r.remaining() == rb.items(),
            r.capacity_view() == rb.capacity_view(),
            r.read_view() == rb.read_view(),
            r.write_view() == rb.write_view(),
    {
        PopIter { frozen: FrozenCons::new(rb) }
    }

    /// Removes and returns the oldest item, or `None` if there is none left.
    pub fn next(&mut self) -> (r: Option<T>)
        requires
            old(self).wf(),
        ensures
            final(self).wf(),
            old(self).remaining().len() == 0 ==> r is None && final(self).remaining() == old(
                self,
            ).remaining(),
            old(self).remaining().len() > 0 ==> r == Some(old(self).remaining()[0])
                && final(self).remaining() == old(self).remaining().drop_first(),
            (r, final(self).remaining()) == pop_step(old(self).remaining()),
            final(self).capacity_view() == old(self).capacity_view(),
            final(self).write_view() == old(self).write_view(),
            final(self).read_view() == if r is Some {
                wrap(old(self).capacity_view() as int, old(self).read_view() + 1)
            } else {
                old(self).read_view()
            },
    {
        self.frozen.try_pop()
    }

    /// The number of items left.
    pub fn len(&self) -> (n: usize)
        requires
            self.wf(),
        ensures
            n == self.remaining().len(),
    {
        self.frozen.occupied_len()
    }

    /// Gives back the ring buffer without the removed items.
    pub fn into_rb_ref(self) -> (r: LocalRb<T>)
        requires
            self.wf(),
        ensures
            r.wf(),
            r.items() == self.remaining(),
            r.capacity_view() == self.capacity_view(),
            r.read_view() == self.read_view(),
            r.write_view() == self.write_view(),
    {
        self.frozen.into_rb_ref()
    }
}

/// Removes items one by one from a consumer it owns.
pub struct IntoIter<C: Consumer>(C);

impl<C: Consumer> IntoIter<C> {
    /// The consumer items are removed from.
    pub closed spec fn consumer(&self) -> C {
        self.0
    }

    /// Starts removing items from `consumer`.
    pub fn new(consumer: C) -> (r: Self)
        ensures
            r.consumer() == consumer,
    {
        IntoIter(consumer)
    }

    /// Gives back the consumer.
    pub fn into_inner(self) -> (r: C)
        ensures
            r == self.consumer(),
    {
        self.0
    }

    /// Removes and returns the oldest item, or `None` if there is none left.
    pub fn next(&mut self) -> (r: Option<C::Item>)
        requires
            old(self).consumer().inv(),
        ensures
            final(self).consumer().inv(),
            old(self).consumer().items().len() == 0 ==> r is None && final(self).consumer().items()
                == old(self).consumer().items(),
            old(self).consumer().items().len() > 0 ==> r == Some(old(self).consumer().items()[0])
                && final(self).consumer().items() == old(self).consumer().items().drop_first(),
            (r, final(self).consumer().items()) == pop_step(old(self).consumer().items()),
    {
        self.0.try_pop()
    }

    /// The number of items left.
    pub fn len(&self) -> (n: usize)
        requires
            self.consumer().inv(),
        ensures
            n == self.consumer().items().len(),
    {
        self.0.occupied_len()
    }
}

/// Iterating a consumer: where `its[0]`, ..., `its[k]` are the states of an
/// [`IntoIter`] over `k` calls of `next` that returned `rs[0]`, ...,
/// `rs[k - 1]`, those calls returned the consumer's items `s` oldest first
/// as `Some` and then `None`, and [`IntoIter::into_inner`] of the last state
/// gives back a consumer holding `s[min(k, s.len())..]`.
pub proof fn lemma_into_iter_calls<C: Consumer>(its: Seq<IntoIter<C>>, rs: Seq<Option<C::Item>>)
    requires
        its.len() == rs.len() + 1,
        forall|i: int|
            0 <= i < rs.len() ==> (#[trigger] rs[i], its[i + 1].consumer().items()) == pop_step(
                its[i].consumer().items(),
            ),
    ensures
        rs == Seq::new(
            rs.len(),
            |i: int|
                if i < its[0].consumer().items().len() {
                    Some(its[0].consumer().items()[i])
                } else {
                    None
                },
        ),
        its[rs.len() as int].consumer().items() == its[0].consumer().items().skip(
            min(rs.len() as int, its[0].consumer().items().len() as int),
        ),
{
    let states = Seq::new(its.len(), |i: int| its[i].consumer().items());
    assert forall|i: int| 0 <= i < rs.len() implies (#[trigger] rs[i], states[i + 1]) == pop_step(
        states[i],
    ) by {
        assert((rs[i], its[i + 1].consumer().items()) == pop_step(its[i].consumer().items()));
    }
    lemma_calls_are_steps(states, rs);
    lemma_pop_steps(states[0], rs.len());
}

/// Popping from a ring buffer: where `its[0]`, ..., `its[k]` are the states
/// of a [`PopIter`] over `k` calls of `next` that returned `rs[0]`, ...,
/// `rs[k - 1]`, those calls returned the items `s` oldest first as `Some`
/// and then `None`, and `s[min(k, s.len())..]` is left.
pub proof fn lemma_pop_iter_calls<T>(its: Seq<PopIter<T>>, rs: Seq<Option<T>>)
    requires
        its.len() == rs.len() + 1,
        forall|i: int|
            0 <= i < rs.len() ==> (#[trigger] rs[i], its[i + 1].remaining()) == pop_step(
                its[i].remaining(),
            ),
    ensures
        rs == Seq::new(
            rs.len(),
            |i: int|
                if i < its[0].remaining().len() {
                    Some(its[0].remaining()[i])
                } else {
                    None
                },
        ),
        its[rs.len() as int].remaining() == its[0].remaining().skip(
            min(rs.len() as int, its[0].remaining().len() as int),
        ),
{
    let states = Seq::new(its.len(), |i: int| its[i].remaining());
    assert forall|i: int| 0 <= i < rs.len() implies (#[trigger] rs[i], states[i + 1]) == pop_step(
        states[i],
    ) by {
        assert((rs[i], its[i + 1].remaining()) == pop_step(its[i].remaining()));
    }
    lemma_calls_are_steps(states, rs);
    lemma_pop_steps(states[0], rs.len());
}

/// A run of single steps is the run of [`pop_steps`].
proof fn lemma_calls_are_steps<T>(states: Seq<Seq<T>>, rs: Seq<Option<T>>)
    requires
        states.len() == rs.len() + 1,
        forall|i: int| 0 <= i < rs.len() ==> (#[trigger] rs[i], states[i + 1]) == pop_step(states[i]),
    ensures
        (rs, states[rs.len() as int]) == pop_steps(states[0], rs.len()),
    decreases rs.len(),
{
    if rs.len() > 0 {
        let states2 = states.drop_first();
        let rs2 = rs.drop_first();
        assert forall|i: int| 0 <= i < rs2.len() implies (#[trigger] rs2[i], states2[i + 1])
            == pop_step(states2[i]) by {
            assert(rs2[i] == rs[i + 1]);
        }
        lemma_calls_are_steps(states2, rs2);
        assert(rs[0] == pop_step(states[0]).0);
        assert(rs =~= seq![rs[0]] + rs2);
    }
}

/// Popping through a [`PopIter`] and giving the ring buffer back: where `rb`
/// is the ring buffer the iterator was made from, `its[0]`, ..., `its[k]` its
/// states over `k` calls of `next`, and `rb2` what
/// [`PopIter::into_rb_ref`] gives back from `its[k]`, `rb2` is `rb` with the
/// `min(k, len)` oldest items removed: the same capacity, the same write
/// position, the rest of the items, so the removed places are free again.
pub proof fn lemma_pop_iter_gives_back<T>(
    rb: LocalRb<T>,
    its: Seq<PopIter<T>>,
    rs: Seq<Option<T>>,
    rb2: LocalRb<T>,
)
    requires
        rb.wf(),
        its.len() == rs.len() + 1,
        its[0].remaining() == rb.items(),
        its[0].capacity_view() == rb.capacity_view(),
        its[0].write_view() == rb.write_view(),
        forall|i: int|
            0 <= i < rs.len() ==> (#[trigger] rs[i], its[i + 1].remaining()) == pop_step(
                its[i].remaining(),
            ) && its[i + 1].capacity_view() == its[i].capacity_view() && its[i + 1].write_view()
                == its[i].write_view(),
        rb2.wf(),
        rb2.items() == its[rs.len() as int].remaining(),
        rb2.capacity_view() == its[rs.len() as int].capacity_view(),
        rb2.write_view() == its[rs.len() as int].write_view(),
    ensures
        rb2.capacity_view() == rb.capacity_view(),
        rb2.write_view() == rb.write_view(),
        rb2.items() == rb.items().skip(min(rs.len() as int, rb.items().len() as int)),
        rb2.capacity_view() - rb2.items().len() == rb.capacity_view() - rb.items().len() + min(
            rs.len() as int,
            rb.items().len() as int,
        ),
{
    lemma_pop_iter_calls(its, rs);
    assert forall|i: int| 0 <= i < rs.len() implies (#[trigger] its[i + 1]).capacity_view()
        == its[i].capacity_view() && its[i + 1].write_view() == its[i].write_view() by {
        assert((rs[i], its[i + 1].remaining()) == pop_step(its[i].remaining()));
    }
    lemma_pop_iter_keeps_ends(its, rs.len() as int);
}

/// The capacity and the write position stay along a run of [`PopIter`] states.
proof fn lemma_pop_iter_keeps_ends<T>(its: Seq<PopIter<T>>, k: int)
    requires
        0 <= k < its.len(),
        forall|i: int|
            0 <= i < k ==> (#[trigger] its[i + 1]).capacity_view() == its[i].capacity_view()
                && its[i + 1].write_view() == its[i].write_view(),
    ensures
        its[k].capacity_view() == its[0].capacity_view(),
        its[k].write_view() == its[0].write_view(),
    decreases k,
{
    if k > 0 {
        lemma_pop_iter_keeps_ends(its, k - 1);
        assert(its[(k - 1) + 1].capacity_view() == its[k - 1].capacity_view());
    }
}

} // verus!
