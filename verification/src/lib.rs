//! Verified single-producer single-consumer FIFO ring buffer.
//!
//! The ring buffer keeps its items in a storage of `capacity` slots and two
//! indices, `read` and `write`, taken modulo `2 * capacity`. `read % capacity`
//! is the slot of the oldest item, `write % capacity` the slot next to the most
//! recently inserted one. Counting modulo `2 * capacity` tells an empty buffer
//! (`read == write`) from a full one (`write - read == capacity` modulo
//! `2 * capacity`) without a spare slot.
//!
//! Items are put in with a [`Producer`] and taken out with a [`Consumer`];
//! [`LocalRb`] is both. The ends in [`direct`], [`frozen`] and [`cached`] own
//! the ring buffer they work on: plain ends act on its positions at once,
//! frozen ends on their own copy of the positions until they commit, caching
//! ends commit after every operation. The ends in [`local`] share one ring
//! buffer, handed to them on every call, and work on it side by side.
pub mod based;
pub mod cache;
pub mod cached;
pub mod consumer;
pub mod counter;
pub mod direct;
pub mod error;
pub mod frozen;
pub mod index;
pub mod iter;
pub mod local;
pub mod observer;
pub mod producer;
pub mod raw;
pub mod rb;
pub mod ring_buffer;
pub mod storage;
pub mod transfer;

pub use cached::{CachedCons, CachedProd, CachingCons, CachingProd};
pub use consumer::Consumer;
pub use direct::{Cons, Prod};
pub use frozen::{FrozenCons, FrozenProd};
pub use local::{LocalConsumer, LocalProducer};
pub use observer::Observer;
pub use producer::Producer;
pub use rb::{LocalRb, Rb};
pub use ring_buffer::RingBuffer;
pub use transfer::transfer;
