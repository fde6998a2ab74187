use ringbuf::counter::{Counter, DefaultCounter, LocalCounter};
use ringbuf::index::{Index, LocalIndex};
use ringbuf::raw::{advance, count_occupied, count_vacant, modulus, ranges, Raw};
use ringbuf::consumer::Consumer;
use ringbuf::producer::Producer;
use ringbuf::rb::LocalRb;

#[test]
fn ranges_within_one_lap() {
    assert_eq!(ranges(4, 1, 3), (1..3, 0..0));
    assert_eq!(ranges(4, 5, 7), (1..3, 0..0));
    assert_eq!(ranges(4, 2, 2), (2..2, 0..0));
}

#[test]
fn ranges_across_the_end_of_the_storage() {
    assert_eq!(ranges(4, 3, 6), (3..4, 0..2));
    assert_eq!(ranges(4, 6, 9), (2..4, 0..1));
    // a full buffer: the whole storage, starting at the read slot
    assert_eq!(ranges(4, 1, 5), (1..4, 0..1));
    assert_eq!(ranges(4, 4, 0), (0..4, 0..0));
}

#[test]
fn ranges_of_large_positions() {
    // positions are taken modulo the capacity, laps by their parity
    assert_eq!(ranges(3, 100, 101), (1..2, 0..0));
    assert_eq!(ranges(3, 101, 104), (2..3, 0..2));
    assert_eq!(ranges(1, usize::MAX - 1, usize::MAX), (0..1, 0..0));
}

#[test]
fn index_arithmetic() {
    assert_eq!(modulus(5), 10);
    assert_eq!(advance(5, 8, 3), 1);
    assert_eq!(advance(5, 2, 3), 5);
    assert_eq!(advance(5, 9, 10), 9);
    assert_eq!(count_occupied(5, 8, 1), 3);
    assert_eq!(count_occupied(5, 1, 1), 0);
    assert_eq!(count_vacant(5, 8, 1), 2);
    assert_eq!(count_vacant(5, 3, 8), 0);
}

#[test]
fn raw_positions_of_a_ring_buffer() {
    let rb = LocalRb::<u8>::new(6);
    assert_eq!(rb.slot_count(), 6);
    assert_eq!(rb.modulus(), 12);
    assert_eq!(rb.read_end(), 0);
    assert_eq!(rb.write_end(), 0);
}

#[test]
fn local_index_holds_a_position() {
    let mut index = LocalIndex::default();
    assert_eq!(index.get(), 0);
    index.set(7);
    assert_eq!(index.get(), 7);
    assert_eq!(LocalIndex::new(3).get(), 3);
}

#[test]
fn counter_lengths() {
    let mut counter = LocalCounter::with_capacity(4);
    assert_eq!(counter.len(), 4);
    assert_eq!(counter.modulus(), 8);
    assert!(counter.is_empty());
    counter.advance_tail(3);
    assert_eq!(counter.occupied_len(), 3);
    assert_eq!(counter.vacant_len(), 1);
    counter.advance_tail(1);
    assert!(counter.is_full());
    assert_eq!(counter.tail(), 4);
    counter.advance_head(2);
    assert_eq!(counter.head(), 2);
    assert_eq!(counter.occupied_len(), 2);
    let copy = LocalCounter::clone_from(&counter);
    assert_eq!((copy.len(), copy.head(), copy.tail()), (4, 2, 4));
}

#[test]
fn counter_ranges() {
    let mut counter = LocalCounter::with_capacity(4);
    counter.advance_tail(3);
    counter.advance_head(2);
    counter.advance_tail(3);
    // head 2, tail 6: occupied slots 2, 3, 0, 1
    assert_eq!(counter.occupied_ranges(), (2..4, 0..2));
    assert_eq!(counter.vacant_ranges(), (2..2, 0..0));
    counter.advance_head(3);
    // head 5, tail 6: occupied slot 1
    assert_eq!(counter.occupied_ranges(), (1..2, 0..0));
    assert_eq!(counter.vacant_ranges(), (2..4, 0..1));
}

#[test]
fn rb_exposes_its_position_cells() {
    let mut rb = LocalRb::<u8>::new(2);
    rb.push_slice(&[1, 2]);
    assert_eq!(rb.try_pop(), Some(1));
    assert_eq!(rb.read_index_ref().get(), 1);
    assert_eq!(rb.write_index_ref().get(), 2);
}
