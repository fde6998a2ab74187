use ringbuf::consumer::Consumer;
use ringbuf::error::{MoveSliceError, PopError, PushError};
use ringbuf::observer::Observer;
use ringbuf::producer::Producer;
use ringbuf::rb::LocalRb;
use ringbuf::ring_buffer::RingBuffer;

#[test]
fn readme_simple() {
    let mut rb = LocalRb::<i32>::new(2);

    rb.try_push(0).unwrap();
    rb.try_push(1).unwrap();
    assert_eq!(rb.try_push(2), Err(2));

    assert_eq!(rb.try_pop(), Some(0));

    rb.try_push(2).unwrap();

    assert_eq!(rb.try_pop(), Some(1));
    assert_eq!(rb.try_pop(), Some(2));
    assert_eq!(rb.try_pop(), None);
}

#[test]
fn readme_capacity_one() {
    let mut rb = LocalRb::<i32>::new(1);

    assert_eq!(rb.try_push(123), Ok(()));
    assert_eq!(rb.try_push(321), Err(321));

    assert_eq!(rb.try_pop(), Some(123));
    assert_eq!(rb.try_pop(), None);
}

#[test]
fn readme_overwrite() {
    let mut rb = LocalRb::<i32>::new(2);

    assert_eq!(rb.push_overwrite(0), None);
    assert_eq!(rb.push_overwrite(1), None);
    assert_eq!(rb.push_overwrite(2), Some(0));

    assert_eq!(rb.try_pop(), Some(1));
    assert_eq!(rb.try_pop(), Some(2));
    assert_eq!(rb.try_pop(), None);
}

#[test]
fn skip_doc_example() {
    let mut rb = LocalRb::<i32>::new(8);
    assert_eq!(rb.push_iter(&mut (0..8)), 8);

    assert_eq!(rb.skip(4), 4);
    assert_eq!(rb.skip(8), 4);
    assert_eq!(rb.skip(4), 0);
}

#[test]
fn lengths_and_flags() {
    let mut rb = LocalRb::<u8>::new(3);
    assert_eq!(rb.capacity(), 3);
    assert!(rb.is_empty());
    assert!(!rb.is_full());
    assert_eq!(rb.occupied_len(), 0);
    assert_eq!(rb.vacant_len(), 3);
    rb.try_push(7).unwrap();
    rb.try_push(8).unwrap();
    assert_eq!(rb.occupied_len(), 2);
    assert_eq!(rb.vacant_len(), 1);
    rb.try_push(9).unwrap();
    assert!(rb.is_full());
    assert!(!rb.is_empty());
    assert_eq!(rb.read_index(), 0);
    assert_eq!(rb.write_index(), 3);
}

#[test]
fn indices_wrap_modulo_twice_capacity() {
    let mut rb = LocalRb::<u32>::new(2);
    for round in 0..5u32 {
        rb.try_push(round).unwrap();
        assert_eq!(rb.try_pop(), Some(round));
    }
    // five pushes and five pops: both positions are 5 % 4
    assert_eq!(rb.read_index(), 1);
    assert_eq!(rb.write_index(), 1);
    assert!(rb.is_empty());
}

#[test]
fn push_iter_leaves_the_rest() {
    let mut rb = LocalRb::<i32>::new(3);
    let mut items = 10..15;
    assert_eq!(rb.push_iter(&mut items), 3);
    assert_eq!(items.clone().collect::<Vec<i32>>(), vec![13, 14]);
    assert_eq!(rb.push_iter(&mut items), 0);
    assert_eq!(items.collect::<Vec<i32>>(), vec![13, 14]);
    assert_eq!(rb.try_pop(), Some(10));
}

#[test]
fn push_slice_and_pop_slice_wrap_around() {
    let mut rb = LocalRb::<u8>::new(4);
    assert_eq!(rb.push_slice(&[1, 2, 3]), 3);
    let mut out = [0u8; 2];
    assert_eq!(rb.pop_slice(&mut out), 2);
    assert_eq!(out, [1, 2]);
    // write is at 3: the next three items wrap around the storage
    assert_eq!(rb.push_slice(&[4, 5, 6, 7]), 3);
    assert_eq!(rb.occupied_len(), 4);
    let (first, second) = rb.as_slices();
    assert_eq!(first, vec![3, 4]);
    assert_eq!(second, vec![5, 6]);
    let mut out = [9u8; 6];
    assert_eq!(rb.pop_slice(&mut out), 4);
    assert_eq!(out, [3, 4, 5, 6, 9, 9]);
    assert!(rb.is_empty());
}

#[test]
fn pop_slice_on_empty_buffer() {
    let mut rb = LocalRb::<u8>::new(4);
    let mut out = [5u8; 3];
    assert_eq!(rb.pop_slice(&mut out), 0);
    assert_eq!(out, [5, 5, 5]);
}

#[test]
fn push_slice_on_full_buffer() {
    let mut rb = LocalRb::<u8>::new(2);
    assert_eq!(rb.push_slice(&[1, 2, 3]), 2);
    assert_eq!(rb.push_slice(&[4]), 0);
    assert_eq!(rb.as_slices(), (vec![1, 2], vec![]));
}

#[test]
fn clear_removes_everything() {
    let mut rb = LocalRb::<String>::new(3);
    rb.try_push("a".to_string()).unwrap();
    rb.try_push("b".to_string()).unwrap();
    assert_eq!(rb.clear(), 2);
    assert!(rb.is_empty());
    assert_eq!(rb.clear(), 0);
    rb.try_push("c".to_string()).unwrap();
    assert_eq!(rb.try_pop(), Some("c".to_string()));
}

#[test]
fn push_slice_overwrite_keeps_last_capacity_items() {
    let mut rb = LocalRb::<i32>::new(3);
    rb.push_slice(&[1, 2]);
    rb.push_slice_overwrite(&[3, 4]);
    assert_eq!(rb.as_slices().0.iter().chain(rb.as_slices().1.iter()).copied().collect::<Vec<_>>(), vec![2, 3, 4]);
    rb.push_slice_overwrite(&[5, 6, 7, 8, 9]);
    let (a, b) = rb.as_slices();
    let all: Vec<i32> = a.into_iter().chain(b).collect();
    assert_eq!(all, vec![7, 8, 9]);
    rb.push_slice_overwrite(&[10]);
    let (a, b) = rb.as_slices();
    let all: Vec<i32> = a.into_iter().chain(b).collect();
    assert_eq!(all, vec![8, 9, 10]);
}

#[test]
fn push_iter_overwrite_keeps_last_items() {
    let mut rb = LocalRb::<i32>::new(4);
    rb.try_push(-1).unwrap();
    rb.push_iter_overwrite((0..10).collect());
    let (a, b) = rb.as_slices();
    let all: Vec<i32> = a.into_iter().chain(b).collect();
    assert_eq!(all, vec![6, 7, 8, 9]);
    let mut rb = LocalRb::<i32>::new(4);
    rb.try_push(-1).unwrap();
    rb.push_iter_overwrite((0..2).collect());
    let (a, b) = rb.as_slices();
    let all: Vec<i32> = a.into_iter().chain(b).collect();
    assert_eq!(all, vec![-1, 0, 1]);
}

#[test]
fn try_new_gives_an_empty_buffer() {
    let mut rb = LocalRb::<u64>::try_new(5).unwrap();
    assert_eq!(rb.capacity(), 5);
    assert!(rb.is_empty());
    rb.try_push(1).unwrap();
    assert_eq!(rb.occupied_len(), 1);
}

#[test]
fn raw_parts_round_trip() {
    let storage = vec![Some(3), None, Some(1), Some(2)];
    // positions 6 and 1 (modulo 8): slots 2, 3 and 0 hold the items
    let mut rb = LocalRb::from_raw_parts(storage, 6, 1);
    assert_eq!(rb.occupied_len(), 3);
    assert_eq!(rb.try_pop(), Some(1));
    assert_eq!(rb.try_pop(), Some(2));
    let (storage, read, write) = rb.into_raw_parts();
    assert_eq!(read, 0);
    assert_eq!(write, 1);
    assert_eq!(storage, vec![Some(3), None, None, None]);
}

#[test]
fn occupied_and_vacant_ranges() {
    let mut rb = LocalRb::<u8>::new(4);
    rb.push_slice(&[1, 2, 3, 4]);
    rb.skip(3);
    rb.push_slice(&[5, 6]);
    // read 3, write 6: items in slots 3, 0 and 1
    assert_eq!(rb.occupied_ranges(), (3..4, 0..2));
    assert_eq!(rb.vacant_ranges(), (2..3, 0..0));
}

#[test]
fn generic_rb_over_local_indices() {
    let mut rb = ringbuf::rb::Rb::<u8, ringbuf::index::LocalIndex, ringbuf::index::LocalIndex>::new(2);
    assert_eq!(rb.try_push(1), Ok(()));
    assert_eq!(rb.try_push(2), Ok(()));
    assert_eq!(rb.try_push(3), Err(3));
    assert_eq!(rb.try_pop(), Some(1));
    let (storage, read, write) = rb.into_raw_parts();
    assert_eq!((storage.len(), read, write), (2, 1, 2));
}

#[test]
fn error_kinds_compare_by_variant() {
    assert_eq!(PushError::Full(5), PushError::Full(5));
    assert_ne!(PushError::Full(5), PushError::Full(6));
    assert_eq!(PopError::Empty, PopError::Empty);
    assert_ne!(MoveSliceError::Empty, MoveSliceError::Full);
}

#[test]
fn from_reservation_follows_the_allocator() {
    let rb = LocalRb::<i32>::from_reservation(Vec::new(), 3, Ok(())).unwrap();
    assert_eq!(rb.capacity(), 3);
    assert!(rb.is_empty());
    let refused = Vec::<u64>::new().try_reserve_exact(usize::MAX).unwrap_err();
    let r = LocalRb::<i32>::from_reservation(Vec::new(), 3, Err(refused.clone()));
    assert_eq!(r.err(), Some(refused));
}

#[test]
fn push_iter_takes_from_an_endless_source() {
    let mut rb = LocalRb::<u32>::new(3);
    let mut naturals = 0u32..;
    assert_eq!(rb.push_iter(&mut naturals), 3);
    // no item was taken beyond those stored
    assert_eq!(naturals.next(), Some(3));
    assert_eq!(rb.try_pop(), Some(0));
    assert_eq!(rb.push_iter(&mut naturals), 1);
    assert_eq!(naturals.next(), Some(5));
}

#[test]
fn iter_refers_to_items_oldest_first() {
    let mut rb = LocalRb::<String>::new(3);
    rb.try_push("a".to_string()).unwrap();
    rb.try_push("b".to_string()).unwrap();
    rb.try_push("c".to_string()).unwrap();
    assert_eq!(rb.try_pop(), Some("a".to_string()));
    rb.try_push("d".to_string()).unwrap();
    let refs: Vec<&String> = rb.iter();
    assert_eq!(refs, vec!["b", "c", "d"]);
}
