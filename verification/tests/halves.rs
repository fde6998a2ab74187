use ringbuf::cache::Cache;
use ringbuf::cached::{CachedCons, CachedProd};
use ringbuf::consumer::Consumer;
use ringbuf::direct::{pop, push, Cons, Prod};
use ringbuf::frozen::{FrozenCons, FrozenProd};
use ringbuf::iter::{IntoIter, PopIter};
use ringbuf::observer::Observer;
use ringbuf::producer::Producer;
use ringbuf::rb::LocalRb;
use ringbuf::transfer::{bounded_count, transfer};

fn contents(rb: &LocalRb<i32>) -> Vec<i32> {
    let (a, b) = rb.as_slices();
    a.into_iter().chain(b).collect()
}

#[test]
fn frozen_producer_commits_on_demand() {
    let mut prod = FrozenProd::new(LocalRb::<i32>::new(3));
    prod.try_push(1).unwrap();
    prod.try_push(2).unwrap();
    // not visible in the ring buffer yet
    assert!(prod.rb().is_empty());
    assert_eq!(prod.occupied_len(), 2);
    prod.commit();
    assert_eq!(contents(prod.rb()), vec![1, 2]);
    prod.try_push(3).unwrap();
    assert_eq!(prod.try_push(4), Err(4));
    assert_eq!(prod.rb().occupied_len(), 2);
    let rb = prod.into_rb_ref();
    assert_eq!(contents(&rb), vec![1, 2, 3]);
}

#[test]
fn frozen_producer_discard_drops_pending_items() {
    let mut prod = FrozenProd::new(LocalRb::<i32>::new(4));
    prod.push_slice(&[1, 2]);
    prod.sync();
    prod.push_slice(&[3, 4]);
    assert_eq!(prod.occupied_len(), 4);
    prod.discard();
    assert_eq!(prod.occupied_len(), 2);
    let prod: Prod<i32> = prod.release();
    assert_eq!(contents(prod.base()), vec![1, 2]);
}

#[test]
fn frozen_consumer_returns_places_on_commit() {
    let mut rb = LocalRb::<i32>::new(2);
    rb.push_slice(&[5, 6]);
    let mut cons = FrozenCons::new(rb);
    assert_eq!(cons.try_pop(), Some(5));
    // the ring buffer still counts the removed item
    assert!(cons.rb().is_full());
    cons.fetch();
    assert_eq!(cons.occupied_len(), 1);
    cons.commit();
    assert_eq!(cons.rb().occupied_len(), 1);
    assert_eq!(cons.try_pop(), Some(6));
    assert_eq!(cons.try_pop(), None);
    let cons: Cons<i32> = cons.release();
    assert!(cons.base().is_empty());
}

#[test]
fn frozen_consumer_skip_and_pop_slice() {
    let mut rb = LocalRb::<i32>::new(5);
    rb.push_slice(&[1, 2, 3, 4, 5]);
    let mut cons = FrozenCons::new(rb);
    assert_eq!(cons.skip(2), 2);
    let mut out = [0; 2];
    assert_eq!(cons.pop_slice(&mut out), 2);
    assert_eq!(out, [3, 4]);
    assert_eq!(cons.rb().occupied_len(), 5);
    cons.sync();
    assert_eq!(contents(cons.rb()), vec![5]);
    assert_eq!(cons.clear(), 1);
    let rb = cons.into_rb_ref();
    assert!(rb.is_empty());
}

#[test]
fn caching_ends_commit_every_operation() {
    let mut prod = CachedProd::new(LocalRb::<i32>::new(2));
    assert_eq!(prod.try_push(1), Ok(()));
    assert_eq!(contents(prod.base()), vec![1]);
    assert_eq!(prod.push_slice(&[2, 3]), 1);
    assert_eq!(prod.try_push(4), Err(4));
    prod.fetch();
    prod.sync();
    let mut cons = CachedCons::new(prod.into_rb_ref());
    assert_eq!(cons.try_pop(), Some(1));
    assert_eq!(contents(cons.base()), vec![2]);
    let mut out = [0; 3];
    assert_eq!(cons.pop_slice(&mut out), 1);
    assert_eq!(out, [2, 0, 0]);
    assert_eq!(cons.try_pop(), None);
    assert_eq!(cons.skip(1), 0);
    assert_eq!(cons.clear(), 0);
    let cons = cons.release();
    assert!(cons.base().is_empty());
}

#[test]
fn caching_ends_into_frozen() {
    let mut prod = CachedProd::new(LocalRb::<i32>::new(3));
    prod.try_push(1).unwrap();
    let mut frozen = prod.into_frozen();
    frozen.try_push(2).unwrap();
    assert_eq!(frozen.rb().occupied_len(), 1);
    let mut cons = CachedCons::new(frozen.into_rb_ref());
    cons.sync();
    let mut frozen = cons.into_frozen();
    assert_eq!(frozen.try_pop(), Some(1));
    assert_eq!(frozen.rb().occupied_len(), 2);
    let rb = frozen.into_rb_ref();
    assert_eq!(contents(&rb), vec![2]);
}

#[test]
fn plain_ends_act_at_once() {
    let mut prod = Prod::new(LocalRb::<i32>::new(2));
    assert_eq!(push(&mut prod, 10), Ok(()));
    assert_eq!(push(&mut prod, 11), Ok(()));
    assert_eq!(push(&mut prod, 12), Err(12));
    let mut items = vec![13].into_iter();
    assert_eq!(prod.push_iter(&mut items), 0);
    assert_eq!(items.next(), Some(13));
    let mut cons = Cons::new(prod.into_base());
    assert_eq!(pop(&mut cons), Some(10));
    assert_eq!(cons.capacity(), 2);
    assert_eq!(cons.skip(5), 1);
    assert_eq!(pop(&mut cons), None);
    let frozen = cons.freeze();
    assert!(frozen.is_empty());
    let prod = Prod::new(frozen.into_rb_ref()).freeze();
    assert_eq!(prod.vacant_len(), 2);
}

#[test]
fn pop_iter_removes_items_in_order() {
    let mut rb = LocalRb::<i32>::new(3);
    rb.push_slice(&[1, 2, 3]);
    let mut iter = PopIter::new(rb);
    assert_eq!(iter.len(), 3);
    assert_eq!(iter.next(), Some(1));
    assert_eq!(iter.next(), Some(2));
    assert_eq!(iter.len(), 1);
    let rb = iter.into_rb_ref();
    assert_eq!(contents(&rb), vec![3]);
}

#[test]
fn into_iter_gives_back_its_consumer() {
    let mut rb = LocalRb::<i32>::new(2);
    rb.push_slice(&[4, 5]);
    let mut iter = IntoIter::new(Cons::new(rb));
    assert_eq!(iter.len(), 2);
    assert_eq!(iter.next(), Some(4));
    let cons = iter.into_inner();
    assert_eq!(cons.occupied_len(), 1);
}

#[test]
fn transfer_moves_items_in_order() {
    let mut src = LocalRb::<i32>::new(4);
    src.push_slice(&[1, 2, 3, 4]);
    let mut dst = LocalRb::<i32>::new(3);
    dst.try_push(0).unwrap();
    assert_eq!(transfer(&mut src, &mut dst, Some(1)), 1);
    assert_eq!(transfer(&mut src, &mut dst, None), 1);
    assert_eq!(contents(&dst), vec![0, 1, 2]);
    assert_eq!(contents(&src), vec![3, 4]);
    assert_eq!(transfer(&mut src, &mut dst, None), 0);
    let mut other = LocalRb::<i32>::new(8);
    assert_eq!(transfer(&mut src, &mut other, Some(0)), 0);
    assert_eq!(transfer(&mut src, &mut other, Some(10)), 2);
    assert!(src.is_empty());
}

#[test]
fn frozen_producer_push_iter_stays_pending() {
    let mut prod = FrozenProd::new(LocalRb::<i32>::new(3));
    let mut items = 1..5;
    assert_eq!(prod.push_iter(&mut items), 3);
    assert_eq!(items.collect::<Vec<i32>>(), vec![4]);
    assert!(prod.rb().is_empty());
    prod.commit();
    assert_eq!(contents(prod.rb()), vec![1, 2, 3]);
}

#[test]
fn bounded_count_takes_the_smaller_limit() {
    assert_eq!(bounded_count(Some(3), 5), 3);
    assert_eq!(bounded_count(Some(7), 5), 5);
    assert_eq!(bounded_count(None, 5), 5);
    assert_eq!(bounded_count(Some(0), 5), 0);
}

#[test]
fn cached_ends_fetch_and_sync_keep_their_state() {
    let mut rb = LocalRb::<i32>::new(3);
    rb.push_slice(&[1, 2]);
    let mut cons = CachedCons::new(rb);
    assert_eq!(cons.try_pop(), Some(1));
    cons.fetch();
    cons.sync();
    assert_eq!((cons.read_index(), cons.write_index(), cons.occupied_len()), (1, 2, 1));
    let mut prod = CachedProd::new(LocalRb::<i32>::new(2));
    prod.try_push(5).unwrap();
    prod.fetch();
    prod.sync();
    assert_eq!((prod.read_index(), prod.write_index(), prod.occupied_len()), (0, 1, 1));
}

#[test]
fn into_iter_gives_items_then_none_and_the_rest_back() {
    let mut rb = LocalRb::<i32>::new(4);
    rb.push_slice(&[1, 2, 3]);
    let mut it = IntoIter::new(Cons::new(rb));
    assert_eq!(it.next(), Some(1));
    assert_eq!(it.next(), Some(2));
    let cons = it.into_inner();
    assert_eq!(cons.occupied_len(), 1);
    let mut it = IntoIter::new(cons);
    assert_eq!(it.next(), Some(3));
    assert_eq!(it.next(), None);
    assert_eq!(it.next(), None);
    assert!(it.into_inner().is_empty());
}

#[test]
fn conversions_keep_ring_buffer_and_positions() {
    let mut rb = LocalRb::<i32>::new(4);
    rb.push_slice(&[1, 2, 3]);
    let mut cons = CachedCons::new(rb);
    assert_eq!(cons.try_pop(), Some(1));
    let frozen = cons.into_frozen();
    assert_eq!((frozen.read_index(), frozen.write_index()), (1, 3));
    let plain = frozen.release();
    assert_eq!((plain.read_index(), plain.write_index(), plain.capacity()), (1, 3, 4));
    let mut prod = CachedProd::new(plain.into_base());
    prod.try_push(4).unwrap();
    let frozen = prod.into_frozen();
    assert_eq!((frozen.read_index(), frozen.write_index()), (1, 4));
    let rb = frozen.into_rb_ref();
    assert_eq!((rb.read_index(), rb.write_index()), (1, 4));
    assert_eq!(contents(&rb), vec![2, 3, 4]);
}

#[test]
fn discard_returns_to_the_committed_write_position() {
    let mut prod = FrozenProd::new(LocalRb::<i32>::new(4));
    prod.push_slice(&[1]);
    prod.commit();
    prod.push_slice(&[2, 3]);
    assert_eq!(prod.write_index(), 3);
    prod.discard();
    assert_eq!((prod.read_index(), prod.write_index()), (0, 1));
    assert_eq!((prod.rb().read_index(), prod.rb().write_index()), (0, 1));
}

#[test]
fn would_block_only_when_nothing_moved_of_a_request() {
    assert!(ringbuf::transfer::would_block(0, 3));
    assert!(!ringbuf::transfer::would_block(0, 0));
    assert!(!ringbuf::transfer::would_block(2, 3));
}
