//! The frontier of the path search: a priority queue that hands out the cheapest
//! cell first.

use priority_queue::PriorityQueue;
use std::cmp::Reverse;
use std::hash::Hash;
use vstd::prelude::*;

verus! {

/// `priority_queue::PriorityQueue`, carried as a value that is not looked into.
#[verifier::external_type_specification]
#[verifier::external_body]
#[verifier::reject_recursive_types(I)]
#[verifier::reject_recursive_types(P)]
#[verifier::reject_recursive_types(H)]
pub struct ExPriorityQueue<I: Hash + Eq, P: Ord, H>(PriorityQueue<I, P, H>);

/// `std::cmp::Reverse`, which turns the order of the costs round so that the queue
/// hands out the least first.
#[verifier::external_type_specification]
#[verifier::external_body]
#[verifier::reject_recursive_types(T)]
pub struct ExReverse<T>(Reverse<T>);

/// What waits in the queue: each cell, as its `x` and `y`, with the cost it was
/// last queued at.
pub uninterp spec fn waiting(q: PriorityQueue<(i16, i16), Reverse<u64>>) -> Map<(i16, i16), u64>;

/// The queue in which nothing waits.
pub open spec fn no_cells() -> Map<(i16, i16), u64> {
    Map::empty()
}

/// `PriorityQueue::new`: a queue in which nothing waits.
#[verifier::external_body]
pub(crate) fn queue_new() -> (q: PriorityQueue<(i16, i16), Reverse<u64>>)
    ensures
        waiting(q) == no_cells(),
{
    PriorityQueue::new()
}

/// `PriorityQueue::push` with the cost wrapped in `Reverse`: the cell waits at this
/// cost afterwards, whether it was waiting before or not; all else waits as before.
#[verifier::external_body]
pub(crate) fn queue_push(q: &mut PriorityQueue<(i16, i16), Reverse<u64>>, cell: (i16, i16), cost: u64)
    ensures
        waiting(*final(q)) == waiting(*old(q)).insert(cell, cost),
{
    q.push(cell, Reverse(cost));
}

/// `PriorityQueue::pop` on a queue ordered by `Reverse`: takes out a cell that waits
/// at the least cost and returns it with that cost; which one of several at the same
/// cost is left open. `None` means that nothing was waiting.
#[verifier::external_body]
pub(crate) fn queue_pop(q: &mut PriorityQueue<(i16, i16), Reverse<u64>>) -> (front: Option<
    ((i16, i16), u64),
>)
    ensures
        match front {
            Some((cell, cost)) => {
                &&& waiting(*old(q)).contains_key(cell)
                &&& waiting(*old(q))[cell] == cost
                &&& forall|other: (i16, i16)|
                    waiting(*old(q)).contains_key(other) ==> cost <= #[trigger] waiting(
                        *old(q),
                    )[other]
                &&& waiting(*final(q)) == waiting(*old(q)).remove(cell)
            },
            None => {
                &&& forall|other: (i16, i16)| !#[trigger] waiting(*old(q)).contains_key(other)
                &&& waiting(*final(q)) == waiting(*old(q))
            },
        },
{
    match q.pop() {
        Some((cell, Reverse(cost))) => Some((cell, cost)),
        None => None,
    }
}

} // verus!
