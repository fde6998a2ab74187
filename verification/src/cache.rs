//! Ends of a ring buffer that keep their own copy of its positions.
use crate::frozen::{FrozenCons, FrozenProd};
use crate::observer::Observer;
use vstd::prelude::*;

verus! {

/// Read end of a ring buffer that caches the positions: what it removes
/// stays in the ring buffer until committed.
pub type ReadCache<T> = FrozenCons<T>;

/// Write end of a ring buffer that caches the positions: what it inserts is
/// not in the ring buffer until committed.
pub type WriteCache<T> = FrozenProd<T>;

/// An end of a ring buffer that works on its own copy of the positions.
///
/// Changes made through it are not visible in the underlying ring buffer until
/// [`Cache::commit`] or [`Cache::sync`] is called. [`Cache::fetch`] takes the
/// other position from the ring buffer. The frozen and caching ends own their
/// ring buffer, so nothing else moves that position and fetching leaves them
/// as they are; ends that work side by side on one ring buffer are in
/// [`crate::local`], where fetching brings in the other side's progress.
pub trait Cache: Observer {
    /// Every change made through `self` is visible in the underlying ring buffer.
    spec fn committed(&self) -> bool;

    /// Commits changes **into** the ring buffer.
    fn commit(&mut self)
        requires
            old(self).inv(),
        ensures
            final(self).inv(),
            final(self).capacity_view() == old(self).capacity_view(),
            final(self).items() == old(self).items(),
            final(self).committed(),
    ;

    /// Fetches updates **from** the ring buffer.
    fn fetch(&mut self)
        requires
            old(self).inv(),
        ensures
            final(self).inv(),
            final(self).capacity_view() == old(self).capacity_view(),
            final(self).items() == old(self).items(),
            final(self).committed() == old(self).committed(),
    ;

    /// Commits and fetches at once.
    fn sync(&mut self)
        requires
            old(self).inv(),
        ensures
            final(self).inv(),
            final(self).capacity_view() == old(self).capacity_view(),
            final(self).items() == old(self).items(),
            final(self).committed(),
    {
        self.commit();
        self.fetch();
    }
}

} // verus!
