//! Errors of the operations on a ring buffer.
use vstd::prelude::*;

verus! {

/// `Producer::push` error.
#[derive(Debug, PartialEq, Eq)]
pub enum PushError<T: Sized> {
    /// Cannot push: ring buffer is full.
    Full(T),
}

/// `Consumer::pop` error.
#[derive(Debug, PartialEq, Eq, Structural)]
pub enum PopError {
    /// Cannot pop: ring buffer is empty.
    Empty,
}

/// `Producer::push_slice` error.
#[derive(Debug, PartialEq, Eq, Structural)]
pub enum PushSliceError {
    /// Cannot push: ring buffer is full.
    Full,
}

/// `Consumer::pop_slice` error.
#[derive(Debug, PartialEq, Eq, Structural)]
pub enum PopSliceError {
    /// Cannot pop: ring buffer is empty.
    Empty,
}

/// `{Producer, Consumer}::move_slice` error.
#[derive(Debug, PartialEq, Eq, Structural)]
pub enum MoveSliceError {
    /// Cannot pop: ring buffer is empty.
    Empty,
    /// Cannot push: ring buffer is full.
    Full,
}

/// `Producer::push_access` error.
#[derive(Debug, PartialEq, Eq, Structural)]
pub enum PushAccessError {
    /// Cannot push: ring buffer is full.
    Full,
    /// User function returned invalid length.
    BadLen,
}

/// `Consumer::pop_access` error.
#[derive(Debug, PartialEq, Eq, Structural)]
pub enum PopAccessError {
    /// Cannot pop: ring buffer is empty.
    Empty,
    /// User function returned invalid length.
    BadLen,
}

} // verus!
