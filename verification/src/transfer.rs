//! Moving items from one ring buffer end to another.
use crate::consumer::Consumer;
use crate::observer::Observer;
use crate::producer::Producer;
use vstd::math::min;
use vstd::prelude::*;

verus! {

/// How many items [`transfer`] moves: `count` at most (no limit for `None`),
/// no more than the consumer holds and no more than the producer has room for.
pub open spec fn transfer_count(count: Option<usize>, available: int, room: int) -> int {
    match count {
        Some(c) => min(c as int, min(available, room)),
        None => min(available, room),
    }
}

/// How many items to move when at most `count` are asked for (as many as
/// possible for `None`) and `available` can be moved: the count that a byte
/// transfer to or from an I/O stream offers it.
pub fn bounded_count(count: Option<usize>, available: usize) -> (n: usize)
    ensures
        n == match count {
            Some(c) => min(c as int, available as int),
            None => available as int,
        },
{
    match count {
        Some(c) => if c < available {
            c
        } else {
            available
        },
        None => available,
    }
}

/// Whether a byte stream call on a ring buffer has to report that it would
/// block: nothing was moved although `requested` bytes were asked for.
pub fn would_block(moved: usize, requested: usize) -> (b: bool)
    ensures
        b == (moved == 0 && requested > 0),
{
    moved == 0 && requested > 0
}

/// Removes at most `count` items from the consumer `src` and appends them to
/// the producer `dst`, oldest first. If `count` is `None` then as many items as
/// possible are moved.
///
/// Returns the number of items moved.
pub fn transfer<C: Consumer, P: Producer<Item = C::Item>>(
    src: &mut C,
    dst: &mut P,
    count: Option<usize>,
) -> (n: usize)
    requires
        old(src).inv(),
        old(dst).inv(),
    ensures
        final(src).inv(),
        final(dst).inv(),
        final(src).capacity_view() == old(src).capacity_view(),
        final(dst).capacity_view() == old(dst).capacity_view(),
        n == transfer_count(
            count,
            old(src).items().len() as int,
            old(dst).capacity_view() - old(dst).items().len(),
        ),
        final(src).items() == old(src).items().skip(n as int),
        final(dst).items() == old(dst).items() + old(src).items().take(n as int),
{
    let ghost s0 = src.items();
    let ghost d0 = dst.items();
    let ghost dcap = dst.capacity_view();
    let ghost scap = src.capacity_view();
    let mut n: usize = 0;
    proof {
        src.lemma_inv();
        dst.lemma_inv();
        assert(s0.skip(0) =~= s0);
        assert(d0 + s0.take(0) =~= d0);
    }
    loop
        invariant
            src.inv(),
            dst.inv(),
            src.capacity_view() == scap,
            dst.capacity_view() == dcap,
            n <= s0.len(),
            d0.len() + n <= dcap,
            src.items() == s0.skip(n as int),
            dst.items() == d0 + s0.take(n as int),
            match count {
                Some(c) => n <= c,
                None => true,
            },
        ensures
            n == transfer_count(count, s0.len() as int, dcap - d0.len()),
            src.inv(),
            dst.inv(),
            src.capacity_view() == scap,
            dst.capacity_view() == dcap,
            src.items() == s0.skip(n as int),
            dst.items() == d0 + s0.take(n as int),
        decreases s0.len() - n,
    {
        proof {
            src.lemma_inv();
            dst.lemma_inv();
        }
        let limit_reached = match count {
            Some(c) => n >= c,
            None => false,
        };
        if limit_reached || src.is_empty() || dst.is_full() {
            break;
        }
        let item = src.try_pop();
        match item {
            Some(x) => {
                let _ = dst.try_push(x);
                proof {
                    assert(s0.take(n + 1) =~= s0.take(n as int).push(x)) by {
                        assert(x == s0.skip(n as int)[0]);
                    }
                    assert(s0.skip(n + 1) =~= s0.skip(n as int).drop_first());
                }
                n = n + 1;
            },
            None => {
                break;
            },
        }
    }
    n
}

} // verus!
