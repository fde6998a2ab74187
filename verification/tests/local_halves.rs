use ringbuf::local::{LocalConsumer, LocalProducer};
use ringbuf::observer::Observer;
use ringbuf::producer::Producer;
use ringbuf::rb::LocalRb;

fn contents(rb: &LocalRb<i32>) -> Vec<i32> {
    let (a, b) = rb.as_slices();
    a.into_iter().chain(b).collect()
}

#[test]
fn local_items_reach_consumer_after_commit_and_fetch() {
    let mut rb = LocalRb::<i32>::new(4);
    let (mut prod, mut cons) = rb.split_ref();
    assert_eq!(prod.push(&mut rb, 1), Ok(()));
    assert_eq!(prod.push(&mut rb, 2), Ok(()));
    // nothing committed yet
    assert!(rb.is_empty());
    assert_eq!(prod.len(), 2);
    cons.fetch(&rb);
    assert_eq!(cons.pop(&mut rb), None);
    prod.commit(&mut rb);
    assert_eq!(rb.occupied_len(), 2);
    // the consumer only sees the items once it fetches them
    assert_eq!(cons.len(), 0);
    cons.fetch(&rb);
    assert_eq!(cons.len(), 2);
    assert_eq!(cons.pop(&mut rb), Some(1));
    assert_eq!(cons.pop(&mut rb), Some(2));
    assert_eq!(cons.pop(&mut rb), None);
    // the places are returned on commit
    assert_eq!(rb.occupied_len(), 2);
    cons.commit(&mut rb);
    assert!(rb.is_empty());
}

#[test]
fn local_producer_sees_space_only_after_fetch() {
    let mut rb = LocalRb::<i32>::new(2);
    let (mut prod, mut cons) = rb.split_ref();
    assert_eq!(prod.capacity(), 2);
    assert_eq!(prod.push(&mut rb, 10), Ok(()));
    assert_eq!(prod.push(&mut rb, 11), Ok(()));
    assert!(prod.is_full());
    assert_eq!(prod.push(&mut rb, 12), Err(12));
    prod.commit(&mut rb);
    cons.fetch(&rb);
    assert_eq!(cons.pop(&mut rb), Some(10));
    cons.commit(&mut rb);
    // the producer still counts the popped item
    assert_eq!(prod.remaining(), 0);
    prod.fetch(&rb);
    assert_eq!(prod.remaining(), 1);
    assert_eq!(prod.push(&mut rb, 12), Ok(()));
    prod.commit(&mut rb);
    assert_eq!(contents(&rb), vec![11, 12]);
}

#[test]
fn local_split_sees_existing_items() {
    let mut rb = LocalRb::<i32>::new(3);
    rb.push_slice(&[7, 8]);
    let (prod, mut cons) = rb.split_ref();
    assert_eq!(prod.len(), 2);
    assert_eq!(prod.remaining(), 1);
    assert!(!cons.is_empty());
    assert!(!cons.is_full());
    assert_eq!(cons.pop(&mut rb), Some(7));
    assert_eq!(cons.len(), 1);
}

#[test]
fn local_push_slice_and_pop_slice_wrap_around() {
    let mut rb = LocalRb::<i32>::new(3);
    let (mut prod, mut cons) = rb.split_ref();
    assert_eq!(prod.push_slice(&mut rb, &[1, 2]), 2);
    prod.commit(&mut rb);
    cons.fetch(&rb);
    let mut out = [0; 1];
    assert_eq!(cons.pop_slice(&rb, &mut out), 1);
    assert_eq!(out, [1]);
    cons.commit(&mut rb);
    prod.fetch(&rb);
    // two free places, one at the end of the storage and one at its start
    assert_eq!(prod.push_slice(&mut rb, &[3, 4, 5]), 2);
    prod.commit(&mut rb);
    cons.fetch(&rb);
    let mut out = [0; 4];
    assert_eq!(cons.pop_slice(&rb, &mut out), 3);
    assert_eq!(out, [2, 3, 4, 0]);
    cons.commit(&mut rb);
    assert!(rb.is_empty());
}

#[test]
fn local_push_iter_leaves_the_rest() {
    let mut rb = LocalRb::<i32>::new(3);
    let (mut prod, mut cons) = rb.split_ref();
    let mut items = 1..6;
    assert_eq!(prod.push_iter(&mut rb, &mut items), 3);
    assert_eq!(items.collect::<Vec<i32>>(), vec![4, 5]);
    prod.commit(&mut rb);
    assert_eq!(contents(&rb), vec![1, 2, 3]);
    cons.fetch(&rb);
    assert_eq!(cons.pop(&mut rb), Some(1));
}

#[test]
fn local_skip_and_clear() {
    let mut rb = LocalRb::<i32>::new(5);
    rb.push_slice(&[1, 2, 3, 4, 5]);
    let (_prod, mut cons) = rb.split_ref();
    assert_eq!(cons.skip(&mut rb, 2), 2);
    assert_eq!(cons.len(), 3);
    assert_eq!(cons.pop(&mut rb), Some(3));
    assert_eq!(cons.skip(&mut rb, 10), 2);
    assert!(cons.is_empty());
    cons.commit(&mut rb);
    assert!(rb.is_empty());

    let mut rb = LocalRb::<i32>::new(4);
    rb.push_slice(&[9, 8, 7]);
    let (_prod, mut cons) = rb.split_ref();
    assert_eq!(cons.clear(&mut rb), 3);
    assert_eq!(cons.clear(&mut rb), 0);
    cons.commit(&mut rb);
    assert_eq!(rb.occupied_len(), 0);
}

#[test]
fn local_halves_acquired_separately() {
    let mut rb = LocalRb::<i32>::new(2);
    let mut prod = LocalProducer::acquire(&rb);
    let mut cons = LocalConsumer::acquire(&rb);
    assert_eq!(prod.push(&mut rb, 4), Ok(()));
    prod.commit(&mut rb);
    cons.fetch(&rb);
    assert_eq!(cons.capacity(), 2);
    assert_eq!(cons.remaining(), 1);
    assert_eq!(cons.pop(&mut rb), Some(4));
}

#[test]
fn local_transfer_between_ring_buffers() {
    let mut src = LocalRb::<i32>::new(4);
    src.push_slice(&[1, 2, 3, 4]);
    let mut dst = LocalRb::<i32>::new(3);
    dst.push_slice(&[0]);
    let (_p, mut cons) = src.split_ref();
    let (mut prod, _c) = dst.split_ref();
    assert_eq!(cons.transfer_to(&mut src, &mut prod, &mut dst, Some(1)), 1);
    // limited by the room left in `dst`
    assert_eq!(cons.transfer_to(&mut src, &mut prod, &mut dst, None), 1);
    assert_eq!(cons.len(), 2);
    prod.commit(&mut dst);
    cons.commit(&mut src);
    assert_eq!(contents(&dst), vec![0, 1, 2]);
    assert_eq!(contents(&src), vec![3, 4]);

    let mut out = LocalRb::<i32>::new(8);
    let (mut prod, _c) = out.split_ref();
    assert_eq!(prod.transfer_from(&mut out, &mut cons, &mut src, None), 2);
    assert_eq!(prod.transfer_from(&mut out, &mut cons, &mut src, None), 0);
    prod.commit(&mut out);
    assert_eq!(contents(&out), vec![3, 4]);
}

#[test]
fn local_consumer_slices_follow_the_storage() {
    let mut rb = LocalRb::<i32>::new(3);
    rb.push_slice(&[1, 2, 3]);
    let (mut prod, mut cons) = rb.split_ref();
    assert_eq!(cons.pop(&mut rb), Some(1));
    assert_eq!(cons.pop(&mut rb), Some(2));
    cons.commit(&mut rb);
    prod.fetch(&rb);
    assert_eq!(prod.push_slice(&mut rb, &[4, 5]), 2);
    prod.commit(&mut rb);
    // before fetching, the consumer only sees the item left in the last slot
    assert_eq!(cons.as_slices(&rb), (vec![3], vec![]));
    cons.fetch(&rb);
    assert_eq!(cons.as_slices(&rb), (vec![3], vec![4, 5]));
}

#[test]
fn local_transfer_within_one_ring_buffer() {
    let mut rb = LocalRb::<i32>::new(4);
    rb.push_slice(&[1, 2, 3]);
    let (mut prod, mut cons) = rb.split_ref();
    // the producer sees one free place only
    assert_eq!(cons.transfer_within(&mut prod, &mut rb, None), 1);
    assert_eq!(cons.len(), 2);
    cons.commit(&mut rb);
    prod.commit(&mut rb);
    assert_eq!(contents(&rb), vec![2, 3, 1]);
    prod.fetch(&rb);
    cons.fetch(&rb);
    assert_eq!(cons.transfer_within(&mut prod, &mut rb, Some(1)), 1);
    cons.commit(&mut rb);
    prod.commit(&mut rb);
    assert_eq!(contents(&rb), vec![3, 1, 2]);
}

#[test]
fn local_both_commits_leave_rest_then_pushed() {
    let mut rb = LocalRb::<i32>::new(4);
    rb.push_slice(&[1, 2, 3]);
    let (mut prod, mut cons) = rb.split_ref();
    assert_eq!(cons.pop(&mut rb), Some(1));
    assert_eq!(cons.pop(&mut rb), Some(2));
    assert_eq!(prod.push(&mut rb, 4), Ok(()));
    // consumer first
    cons.commit(&mut rb);
    prod.commit(&mut rb);
    assert_eq!(contents(&rb), vec![3, 4]);

    let mut rb = LocalRb::<i32>::new(3);
    rb.push_slice(&[7, 8]);
    let (mut prod, mut cons) = rb.split_ref();
    assert_eq!(prod.push(&mut rb, 9), Ok(()));
    assert_eq!(cons.pop(&mut rb), Some(7));
    // producer first
    prod.commit(&mut rb);
    cons.commit(&mut rb);
    assert_eq!(contents(&rb), vec![8, 9]);
}
