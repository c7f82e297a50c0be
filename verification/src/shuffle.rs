//! Random orders: the heights to try in a cell, and the clue positions to
//! test for removal.

use rand::seq::SliceRandom;
use vstd::prelude::*;
use vstd::seq_lib::{to_multiset_contains, to_multiset_len};

verus! {

/// Shuffles `items` in place with `rand::seq::SliceRandom::shuffle`, drawing
/// from the thread's generator that `rand::rng` hands out.
///
/// Believed, not proved: the shuffle only rearranges. After it the vector
/// holds the same items as before, each as often as before. Nothing is
/// claimed of their order, which differs from call to call.
#[verifier::external_body]
pub(crate) fn shuffle<T>(items: &mut Vec<T>)
    ensures
        final(items)@.to_multiset() == old(items)@.to_multiset(),
{
    items.shuffle(&mut rand::rng());
}

/// The heights `1..=total`, counting up.
pub open spec fn heights_upwards(total: int) -> Seq<u8> {
    Seq::new(total as nat, |j: int| (j + 1) as u8)
}

/// The positions `0..total`, counting up.
pub open spec fn positions_upwards(total: int) -> Seq<usize> {
    Seq::new(total as nat, |j: int| j as usize)
}

/// `order` is a rearrangement of the heights `1..=total`: it has `total`
/// items, and exactly those heights stand in it.
pub open spec fn is_height_order(order: Seq<u8>, total: int) -> bool {
    &&& order.to_multiset() == heights_upwards(total).to_multiset()
    &&& order.len() == total
    &&& forall|v: u8| order.contains(v) <==> 1 <= v <= total
}

/// `order` is a rearrangement of the positions `0..total`: it has `total`
/// items, and exactly those positions stand in it.
pub open spec fn is_position_order(order: Seq<usize>, total: int) -> bool {
    &&& order.to_multiset() == positions_upwards(total).to_multiset()
    &&& order.len() == total
    &&& forall|i: usize| order.contains(i) <==> i < total
}

/// The heights `1..=size` in a random order.
pub fn shuffled_heights(size: usize) -> (order: Vec<u8>)
    requires
        size <= 255,
    ensures
        is_height_order(order@, size as int),
{
    let mut order: Vec<u8> = Vec::with_capacity(size);
    let mut k: usize = 0;
    while k < size
        invariant
            size <= 255,
            k <= size,
            order@.len() == k,
            forall|j: int| 0 <= j < k ==> #[trigger] order@[j] == j + 1,
        decreases size - k,
    {
        order.push((k + 1) as u8);
        k += 1;
    }
    let ghost before = order@;
    assert(before =~= heights_upwards(size as int));
    shuffle(&mut order);
    proof {
        to_multiset_len(before);
        to_multiset_len(order@);
        assert forall|v: u8| order@.contains(v) <==> 1 <= v <= size by {
            to_multiset_contains(before, v);
            to_multiset_contains(order@, v);
            if 1 <= v <= size {
                assert(before[v - 1] == v);
            }
        }
    }
    order
}

/// The positions `0..total` in a random order.
pub fn shuffled_positions(total: usize) -> (order: Vec<usize>)
    ensures
        is_position_order(order@, total as int),
{
    let mut order: Vec<usize> = Vec::with_capacity(total);
    let mut k: usize = 0;
    while k < total
        invariant
            k <= total,
            order@.len() == k,
            forall|j: int| 0 <= j < k ==> #[trigger] order@[j] == j,
        decreases total - k,
    {
        order.push(k);
        k += 1;
    }
    let ghost before = order@;
    assert(before =~= positions_upwards(total as int));
    shuffle(&mut order);
    proof {
        to_multiset_len(before);
        to_multiset_len(order@);
        assert forall|i: usize| order@.contains(i) <==> i < total by {
            to_multiset_contains(before, i);
            to_multiset_contains(order@, i);
            if i < total {
                assert(before[i as int] == i);
            }
        }
    }
    order
}

} // verus!
