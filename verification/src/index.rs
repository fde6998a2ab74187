//! Positions of the two ends of a ring buffer.
use vstd::prelude::*;

verus! {

/// A cell that holds one end position of a ring buffer.
pub trait Index {
    /// The position held.
    spec fn value(&self) -> usize;

    /// Reads the position.
    fn get(&self) -> (v: usize)
        ensures
            v == self.value(),
    ;

    /// Replaces the position.
    fn set(&mut self, value: usize)
        ensures
            final(self).value() == value,
    ;
}

/// Position of one end of a ring buffer used by a single thread.
pub struct LocalIndex {
    value: usize,
}

impl LocalIndex {
    /// Creates a cell holding `value`.
    pub fn new(value: usize) -> (r: Self)
        ensures
            r.value() == value,
    {
        LocalIndex { value }
    }
}

impl Default for LocalIndex {
    fn default() -> (r: Self)
        ensures
            r.value() == 0,
    {
        LocalIndex { value: 0 }
    }
}

impl Index for LocalIndex {
    closed spec fn value(&self) -> usize {
        self.value
    }

    fn get(&self) -> (v: usize) {
        self.value
    }

    fn set(&mut self, value: usize) {
        self.value = value;
    }
}

} // verus!
