//! Ends of a ring buffer that hold the ring buffer itself.
use crate::cached::{CachedCons, CachedProd};
use crate::direct::{Cons, Prod};
use crate::frozen::{FrozenCons, FrozenProd};
use crate::observer::Observer;
use crate::rb::LocalRb;
use vstd::prelude::*;

verus! {

/// An end of a ring buffer that holds the ring buffer it works on.
pub trait Based: Observer {
    /// The ring buffer behind this end.
    spec fn based_rb(&self) -> LocalRb<Self::Item>;

    /// The ring buffer behind this end.
    fn base_deref(&self) -> (r: &LocalRb<Self::Item>)
        ensures
            *r == self.based_rb(),
    ;
}

impl<T> Based for Prod<T> {
    open spec fn based_rb(&self) -> LocalRb<T> {
        self.base_view()
    }

    fn base_deref(&self) -> (r: &LocalRb<T>) {
        self.base()
    }
}

impl<T> Based for Cons<T> {
    open spec fn based_rb(&self) -> LocalRb<T> {
        self.base_view()
    }

    fn base_deref(&self) -> (r: &LocalRb<T>) {
        self.base()
    }
}

impl<T> Based for FrozenProd<T> {
    open spec fn based_rb(&self) -> LocalRb<T> {
        self.base()
    }

    fn base_deref(&self) -> (r: &LocalRb<T>) {
        self.rb()
    }
}

impl<T> Based for FrozenCons<T> {
    open spec fn based_rb(&self) -> LocalRb<T> {
        self.base()
    }

    fn base_deref(&self) -> (r: &LocalRb<T>) {
        self.rb()
    }
}

impl<T> Based for CachedProd<T> {
    open spec fn based_rb(&self) -> LocalRb<T> {
        self.frozen_view().base()
    }

    fn base_deref(&self) -> (r: &LocalRb<T>) {
        self.base()
    }
}

impl<T> Based for CachedCons<T> {
    open spec fn based_rb(&self) -> LocalRb<T> {
        self.frozen_view().base()
    }

    fn base_deref(&self) -> (r: &LocalRb<T>) {
        self.base()
    }
}

} // verus!
