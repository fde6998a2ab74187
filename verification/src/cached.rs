//! Caching ends of a ring buffer: frozen ends that commit after each operation
//! and fetch only when their copy of the positions leaves them stuck. As they
//! own their ring buffer, nothing else moves its positions, and a fetch leaves
//! them as they are.
use crate::cache::Cache;
use crate::consumer::Consumer;
use crate::direct::{Cons, Prod};
use crate::frozen::{FrozenCons, FrozenProd};
use crate::observer::Observer;
use crate::producer::Producer;
use crate::raw::wrap;
use crate::rb::LocalRb;
use vstd::prelude::*;

verus! {

/// Caching producer of a ring buffer.
///
/// Inserted items are committed at once; the consumer's progress is fetched
/// only when the copy of the positions says the buffer is full.
pub struct CachedProd<T> {
    frozen: FrozenProd<T>,
}

/// Caching consumer of a ring buffer.
///
/// Freed places are committed at once; the producer's progress is fetched
/// only when the copy of the positions says the buffer is empty.
pub struct CachedCons<T> {
    frozen: FrozenCons<T>,
}

/// Caching producer of a ring buffer.
pub type CachingProd<T> = CachedProd<T>;

/// Caching consumer of a ring buffer.
pub type CachingCons<T> = CachedCons<T>;

impl<T> CachedProd<T> {
    /// The frozen producer this end works through.
    pub closed spec fn frozen_view(&self) -> FrozenProd<T> {
        self.frozen
    }

    /// Every item of a caching producer is in the ring buffer behind it.
    pub proof fn lemma_committed(&self)
        requires
            self.inv(),
        ensures
            self.frozen_view().base().wf(),
            self.items() == self.frozen_view().base().items(),
    {
        assert(self.frozen_view().pending() =~= Seq::<T>::empty());
        assert(self.items() =~= self.frozen_view().base().items());
    }

    /// Makes a caching producer of `rb`.
    pub fn new(rb: LocalRb<T>) -> (r: Self)
        requires
            rb.wf(),
        ensures
            r.inv(),
            r.items() == rb.items(),
            r.capacity_view() == rb.capacity_view(),
    {
        CachedProd { frozen: FrozenProd::new(rb) }
    }

    /// The underlying ring buffer.
    pub fn base(&self) -> (r: &LocalRb<T>)
        ensures
            *r == self.frozen_view().base(),
    {
        self.frozen.rb()
    }

    /// Fetches the other position from the ring buffer, which `self` owns, so
    /// that `self` stays as it is.
    pub fn fetch(&mut self)
        requires
            old(self).inv(),
        ensures
            final(self).inv(),
            final(self).capacity_view() == old(self).capacity_view(),
            final(self).items() == old(self).items(),
            *final(self) == *old(self),
    {
        self.frozen.fetch();
    }

    /// Commits to and fetches from the ring buffer.
    pub fn sync(&mut self)
        requires
            old(self).inv(),
        ensures
            final(self).inv(),
            final(self).capacity_view() == old(self).capacity_view(),
            final(self).items() == old(self).items(),
            final(self).read_view() == old(self).read_view(),
            final(self).write_view() == old(self).write_view(),
    {
        self.frozen.sync();
    }

    /// Turns `self` into a plain producer.
    pub fn release(self) -> (r: Prod<T>)
        requires
            self.inv(),
        ensures
            r.inv(),
            r.items() == self.items(),
            r.capacity_view() == self.capacity_view(),
            r.read_view() == self.read_view(),
            r.write_view() == self.write_view(),
            r.base_view().slots() == self.frozen_view().base().slots(),
    {
        self.frozen.release()
    }

    /// Gives back the underlying ring buffer.
    pub fn into_rb_ref(self) -> (r: LocalRb<T>)
        requires
            self.inv(),
        ensures
            r.wf(),
            r.items() == self.items(),
            r.capacity_view() == self.capacity_view(),
            r.read_view() == self.read_view(),
            r.write_view() == self.write_view(),
            r.slots() == self.frozen_view().base().slots(),
    {
        self.frozen.into_rb_ref()
    }

    /// Fetches the other end's progress and turns `self` into a frozen producer.
    pub fn into_frozen(self) -> (r: FrozenProd<T>)
        requires
            self.inv(),
        ensures
            r.inv(),
            r.items() == self.items(),
            r.committed(),
            r.base() == self.frozen_view().base(),
            r.capacity_view() == self.capacity_view(),
            r.read_view() == self.read_view(),
            r.write_view() == self.write_view(),
    {
        let mut frozen = self.frozen;
        frozen.fetch();
        frozen
    }
}

impl<T> CachedCons<T> {
    /// The frozen consumer this end works through.
    pub closed spec fn frozen_view(&self) -> FrozenCons<T> {
        self.frozen
    }

    /// A caching consumer holds exactly the items of the ring buffer behind it.
    pub proof fn lemma_committed(&self)
        requires
            self.inv(),
        ensures
            self.frozen_view().base().wf(),
            self.items() == self.frozen_view().base().items(),
    {
    }

    /// Makes a caching consumer of `rb`.
    pub fn new(rb: LocalRb<T>) -> (r: Self)
        requires
            rb.wf(),
        ensures
            r.inv(),
            r.items() == rb.items(),
            r.capacity_view() == rb.capacity_view(),
    {
        CachedCons { frozen: FrozenCons::new(rb) }
    }

    /// The underlying ring buffer.
    pub fn base(&self) -> (r: &LocalRb<T>)
        ensures
            *r == self.frozen_view().base(),
    {
        self.frozen.rb()
    }

    /// Fetches the other position from the ring buffer, which `self` owns, so
    /// that `self` stays as it is.
    pub fn fetch(&mut self)
        requires
            old(self).inv(),
        ensures
            final(self).inv(),
            final(self).capacity_view() == old(self).capacity_view(),
            final(self).items() == old(self).items(),
            *final(self) == *old(self),
    {
        self.frozen.fetch();
    }

    /// Commits to and fetches from the ring buffer.
    pub fn sync(&mut self)
        requires
            old(self).inv(),
        ensures
            final(self).inv(),
            final(self).capacity_view() == old(self).capacity_view(),
            final(self).items() == old(self).items(),
            final(self).read_view() == old(self).read_view(),
            final(self).write_view() == old(self).write_view(),
    {
        self.frozen.sync();
    }

    /// Turns `self` into a plain consumer.
    pub fn release(self) -> (r: Cons<T>)
        requires
            self.inv(),
        ensures
            r.inv(),
            r.items() == self.items(),
            r.capacity_view() == self.capacity_view(),
            r.read_view() == self.read_view(),
            r.write_view() == self.write_view(),
            r.base_view().slots() == self.frozen_view().base().slots(),
    {
        self.frozen.release()
    }

    /// Gives back the underlying ring buffer.
    pub fn into_rb_ref(self) -> (r: LocalRb<T>)
        requires
            self.inv(),
        ensures
            r.wf(),
            r.items() == self.items(),
            r.capacity_view() == self.capacity_view(),
            r.read_view() == self.read_view(),
            r.write_view() == self.write_view(),
            r.slots() == self.frozen_view().base().slots(),
    {
        self.frozen.into_rb_ref()
    }

    /// Fetches the other end's progress and turns `self` into a frozen consumer.
    pub fn into_frozen(self) -> (r: FrozenCons<T>)
        requires
            self.inv(),
        ensures
            r.inv(),
            r.items() == self.items(),
            r.committed(),
            r.base() == self.frozen_view().base(),
            r.capacity_view() == self.capacity_view(),
            r.read_view() == self.read_view(),
            r.write_view() == self.write_view(),
    {
        let mut frozen = self.frozen;
        frozen.fetch();
        frozen
    }
}

impl<T> Observer for CachedProd<T> {
    type Item = T;

    closed spec fn capacity_view(&self) -> nat {
        self.frozen.capacity_view()
    }

    closed spec fn read_view(&self) -> int {
        self.frozen.read_view()
    }

    closed spec fn write_view(&self) -> int {
        self.frozen.write_view()
    }

    closed spec fn items(&self) -> Seq<T> {
        self.frozen.items()
    }

    open spec fn inv(&self) -> bool {
        &&& self.frozen_view().inv()
        &&& self.frozen_view().committed()
        &&& self.capacity_view() == self.frozen_view().capacity_view()
        &&& self.read_view() == self.frozen_view().read_view()
        &&& self.write_view() == self.frozen_view().write_view()
        &&& self.items() == self.frozen_view().items()
    }

    proof fn lemma_inv(&self) {
        self.frozen.lemma_inv();
    }

    fn capacity(&self) -> (c: usize) {
        self.frozen.capacity()
    }

    fn read_index(&self) -> (r: usize) {
        self.frozen.read_index()
    }

    fn write_index(&self) -> (w: usize) {
        self.frozen.write_index()
    }
}

impl<T> Observer for CachedCons<T> {
    type Item = T;

    closed spec fn capacity_view(&self) -> nat {
        self.frozen.capacity_view()
    }

    closed spec fn read_view(&self) -> int {
        self.frozen.read_view()
    }

    closed spec fn write_view(&self) -> int {
        self.frozen.write_view()
    }

    closed spec fn items(&self) -> Seq<T> {
        self.frozen.items()
    }

    open spec fn inv(&self) -> bool {
        &&& self.frozen_view().inv()
        &&& self.frozen_view().committed()
        &&& self.capacity_view() == self.frozen_view().capacity_view()
        &&& self.read_view() == self.frozen_view().read_view()
        &&& self.write_view() == self.frozen_view().write_view()
        &&& self.items() == self.frozen_view().items()
    }

    proof fn lemma_inv(&self) {
        self.frozen.lemma_inv();
    }

    fn capacity(&self) -> (c: usize) {
        self.frozen.capacity()
    }

    fn read_index(&self) -> (r: usize) {
        self.frozen.read_index()
    }

    fn write_index(&self) -> (w: usize) {
        self.frozen.write_index()
    }
}

impl<T> Producer for CachedProd<T> {
    fn try_push(&mut self, elem: T) -> (r: Result<(), T>)
        ensures
            final(self).read_view() == old(self).read_view(),
            final(self).write_view() == if r is Ok {
                wrap(old(self).capacity_view() as int, old(self).write_view() + 1)
            } else {
                old(self).write_view()
            },
    {
        if self.frozen.is_full() {
            self.frozen.fetch();
        }
        let r = self.frozen.try_push(elem);
        if r.is_ok() {
            self.frozen.commit();
        }
        r
    }

    fn push_slice(&mut self, elems: &[T]) -> (n: usize) where T: Copy
        ensures
            final(self).read_view() == old(self).read_view(),
            final(self).write_view() == wrap(old(self).capacity_view() as int, old(self).write_view() + n),
    {
        let n = self.frozen.push_slice(elems);
        self.frozen.commit();
        n
    }
}

impl<T> Consumer for CachedCons<T> {
    fn try_pop(&mut self) -> (r: Option<T>)
        ensures
            final(self).write_view() == old(self).write_view(),
            final(self).read_view() == if r is Some {
                wrap(old(self).capacity_view() as int, old(self).read_view() + 1)
            } else {
                old(self).read_view()
            },
    {
        if self.frozen.is_empty() {
            self.frozen.fetch();
        }
        let r = self.frozen.try_pop();
        if r.is_some() {
            self.frozen.commit();
        }
        r
    }

    fn pop_slice(&mut self, elems: &mut [T]) -> (n: usize) where T: Copy
        ensures
            final(self).write_view() == old(self).write_view(),
            final(self).read_view() == wrap(old(self).capacity_view() as int, old(self).read_view() + n),
    {
        let n = self.frozen.pop_slice(elems);
        self.frozen.commit();
        n
    }

    fn skip(&mut self, count: usize) -> (n: usize)
        ensures
            final(self).write_view() == old(self).write_view(),
            final(self).read_view() == wrap(old(self).capacity_view() as int, old(self).read_view() + n),
    {
        let n = self.frozen.skip(count);
        self.frozen.commit();
        n
    }

    fn clear(&mut self) -> (n: usize)
        ensures
            final(self).write_view() == old(self).write_view(),
            final(self).read_view() == old(self).write_view(),
    {
        let n = self.frozen.clear();
        self.frozen.commit();
        n
    }
}

} // verus!
