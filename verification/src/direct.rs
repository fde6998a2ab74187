//! Plain producer and consumer ends of a ring buffer: every operation acts on
//! the ring buffer's own positions at once.
use crate::consumer::Consumer;
use crate::frozen::{FrozenCons, FrozenProd};
use crate::observer::Observer;
use crate::producer::Producer;
use crate::raw::wrap;
use crate::rb::LocalRb;
use vstd::prelude::*;

verus! {

/// Producer of a ring buffer.
pub struct Prod<T> {
    rb: LocalRb<T>,
}

/// Consumer of a ring buffer.
pub struct Cons<T> {
    rb: LocalRb<T>,
}

impl<T> Prod<T> {
    /// The ring buffer behind this end.
    pub closed spec fn base_view(&self) -> LocalRb<T> {
        self.rb
    }

    /// Makes a producer of `rb`.
    pub fn new(rb: LocalRb<T>) -> (r: Self)
        requires
            rb.wf(),
        ensures
            r.inv(),
            r.base_view() == rb,
            r.items() == rb.items(),
            r.capacity_view() == rb.capacity_view(),
    {
        Prod { rb }
    }

    /// The underlying ring buffer.
    pub fn base(&self) -> (r: &LocalRb<T>)
        ensures
            *r == self.base_view(),
    {
        &self.rb
    }

    /// Gives back the underlying ring buffer.
    pub fn into_base(self) -> (r: LocalRb<T>)
        ensures
            r == self.base_view(),
            self.inv() ==> r.wf() && r.items() == self.items(),
    {
        self.rb
    }

    /// Turns `self` into a frozen producer.
    pub fn freeze(self) -> (r: FrozenProd<T>)
        requires
            self.inv(),
        ensures
            r.inv(),
            r.base() == self.base_view(),
            r.items() == self.items(),
            r.pending() == Seq::<T>::empty(),
    {
        FrozenProd::new(self.rb)
    }
}

impl<T> Cons<T> {
    /// The ring buffer behind this end.
    pub closed spec fn base_view(&self) -> LocalRb<T> {
        self.rb
    }

    /// Makes a consumer of `rb`.
    pub fn new(rb: LocalRb<T>) -> (r: Self)
        requires
            rb.wf(),
        ensures
            r.inv(),
            r.base_view() == rb,
            r.items() == rb.items(),
            r.capacity_view() == rb.capacity_view(),
    {
        Cons { rb }
    }

    /// The underlying ring buffer.
    pub fn base(&self) -> (r: &LocalRb<T>)
        ensures
            *r == self.base_view(),
    {
        &self.rb
    }

    /// Gives back the underlying ring buffer.
    pub fn into_base(self) -> (r: LocalRb<T>)
        ensures
            r == self.base_view(),
            self.inv() ==> r.wf() && r.items() == self.items(),
    {
        self.rb
    }

    /// Turns `self` into a frozen consumer.
    pub fn freeze(self) -> (r: FrozenCons<T>)
        requires
            self.inv(),
        ensures
            r.inv(),
            r.base() == self.base_view(),
            r.items() == self.items(),
    {
        FrozenCons::new(self.rb)
    }
}

impl<T> Observer for Prod<T> {
    type Item = T;

    closed spec fn capacity_view(&self) -> nat {
        self.rb.capacity_view()
    }

    closed spec fn read_view(&self) -> int {
        self.rb.read_view()
    }

    closed spec fn write_view(&self) -> int {
        self.rb.write_view()
    }

    closed spec fn items(&self) -> Seq<T> {
        self.rb.items()
    }

    open spec fn inv(&self) -> bool {
        &&& self.base_view().wf()
        &&& self.capacity_view() == self.base_view().capacity_view()
        &&& self.read_view() == self.base_view().read_view()
        &&& self.write_view() == self.base_view().write_view()
        &&& self.items() == self.base_view().items()
    }

    proof fn lemma_inv(&self) {
    }

    fn capacity(&self) -> (c: usize) {
        self.rb.capacity()
    }

    fn read_index(&self) -> (r: usize) {
        self.rb.read_index()
    }

    fn write_index(&self) -> (w: usize) {
        self.rb.write_index()
    }
}

impl<T> Observer for Cons<T> {
    type Item = T;

    closed spec fn capacity_view(&self) -> nat {
        self.rb.capacity_view()
    }

    closed spec fn read_view(&self) -> int {
        self.rb.read_view()
    }

    closed spec fn write_view(&self) -> int {
        self.rb.write_view()
    }

    closed spec fn items(&self) -> Seq<T> {
        self.rb.items()
    }

    open spec fn inv(&self) -> bool {
        &&& self.base_view().wf()
        &&& self.capacity_view() == self.base_view().capacity_view()
        &&& self.read_view() == self.base_view().read_view()
        &&& self.write_view() == self.base_view().write_view()
        &&& self.items() == self.base_view().items()
    }

    proof fn lemma_inv(&self) {
    }

    fn capacity(&self) -> (c: usize) {
        self.rb.capacity()
    }

    fn read_index(&self) -> (r: usize) {
        self.rb.read_index()
    }

    fn write_index(&self) -> (w: usize) {
        self.rb.write_index()
    }
}

impl<T> Producer for Prod<T> {
    fn try_push(&mut self, elem: T) -> (r: Result<(), T>)
        ensures
            final(self).read_view() == old(self).read_view(),
            final(self).write_view() == if r is Ok {
                wrap(old(self).capacity_view() as int, old(self).write_view() + 1)
            } else {
                old(self).write_view()
            },
    {
        self.rb.try_push(elem)
    }

    fn push_slice(&mut self, elems: &[T]) -> (n: usize) where T: Copy
        ensures
            final(self).read_view() == old(self).read_view(),
            final(self).write_view() == wrap(old(self).capacity_view() as int, old(self).write_view() + n),
    {
        self.rb.push_slice(elems)
    }
}

impl<T> Consumer for Cons<T> {
    fn try_pop(&mut self) -> (r: Option<T>)
        ensures
            final(self).write_view() == old(self).write_view(),
            final(self).read_view() == if r is Some {
                wrap(old(self).capacity_view() as int, old(self).read_view() + 1)
            } else {
                old(self).read_view()
            },
    {
        self.rb.try_pop()
    }

    fn pop_slice(&mut self, elems: &mut [T]) -> (n: usize) where T: Copy
        ensures
            final(self).write_view() == old(self).write_view(),
            final(self).read_view() == wrap(old(self).capacity_view() as int, old(self).read_view() + n),
    {
        self.rb.pop_slice(elems)
    }

    fn skip(&mut self, count: usize) -> (n: usize)
        ensures
            final(self).write_view() == old(self).write_view(),
            final(self).read_view() == wrap(old(self).capacity_view() as int, old(self).read_view() + n),
    {
        self.rb.skip(count)
    }

    fn clear(&mut self) -> (n: usize)
        ensures
            final(self).write_view() == old(self).write_view(),
            final(self).read_view() == old(self).write_view(),
    {
        self.rb.clear()
    }
}


/// Pushes `x` through `prod`; gives it back if the ring buffer is full.
pub fn push(prod: &mut Prod<i32>, x: i32) -> (r: Result<(), i32>)
    requires
        old(prod).inv(),
    ensures
        final(prod).inv(),
        old(prod).items().len() < old(prod).capacity_view() ==> r is Ok && final(prod).items()
            == old(prod).items().push(x),
        old(prod).items().len() >= old(prod).capacity_view() ==> r == Err::<(), i32>(x)
            && final(prod).items() == old(prod).items(),
{
    prod.try_push(x)
}

/// Pops the oldest item through `cons`, or `None` if the ring buffer is empty.
pub fn pop(cons: &mut Cons<i32>) -> (r: Option<i32>)
    requires
        old(cons).inv(),
    ensures
        final(cons).inv(),
        old(cons).items().len() == 0 ==> r is None && final(cons).items() == old(cons).items(),
        old(cons).items().len() > 0 ==> r == Some(old(cons).items()[0]) && final(cons).items()
            == old(cons).items().drop_first(),
{
    cons.try_pop()
}

} // verus!
