//! The ordered frontier of the best-first search: the queue of the
//! `priority_queue` crate, keyed by slot numbers and ordered by score. The
//! queue itself is outside code; what this library relies on is stated here
//! and not proved.
use vstd::prelude::*;
use std::cmp::Reverse;
use priority_queue::PriorityQueue;

verus! {

/// `priority_queue::PriorityQueue`, opaque to the verifier.
#[verifier::external_type_specification]
#[verifier::external_body]
#[verifier::reject_recursive_types(I)]
#[verifier::reject_recursive_types(P)]
#[verifier::reject_recursive_types(H)]
pub struct ExPriorityQueue<I, P, H>(PriorityQueue<I, P, H>);

/// `std::cmp::Reverse`, opaque to the verifier.
#[verifier::external_type_specification]
#[verifier::external_body]
#[verifier::reject_recursive_types(T)]
pub struct ExReverse<T>(Reverse<T>);

/// What a queue holds: each item with its score.
pub uninterp spec fn queue_entries(queue: PriorityQueue<usize, Reverse<u64>>) -> Map<usize, u64>;

/// `PriorityQueue::new`: an empty queue.
#[verifier::external_body]
pub(crate) fn queue_new() -> (queue: PriorityQueue<usize, Reverse<u64>>)
    ensures
        queue_entries(queue) =~= Map::empty(),
{
    PriorityQueue::new()
}

/// `PriorityQueue::push`, with the score wrapped in `Reverse` so that the
/// least score is the greatest priority. An item that the queue holds
/// already takes the new score, and the result is the score it had; any
/// other item is added, and the result is `None`.
#[verifier::external_body]
pub(crate) fn queue_push(queue: &mut PriorityQueue<usize, Reverse<u64>>, item: usize, score: u64) -> (previous: Option<u64>)
    ensures
        queue_entries(*final(queue)) == queue_entries(*old(queue)).insert(item, score),
        previous == (if queue_entries(*old(queue)).contains_key(item) {
            Some(queue_entries(*old(queue))[item])
        } else {
            None
        }),
{
    queue.push(item, Reverse(score)).map(|p| p.0)
}

/// `PriorityQueue::pop`: takes out an item of the greatest priority, which
/// under `Reverse` is one of the least score, and returns it with its score;
/// `None` from an empty queue. Which of several items of the least score
/// leaves is not said.
#[verifier::external_body]
pub(crate) fn queue_pop(queue: &mut PriorityQueue<usize, Reverse<u64>>) -> (least: Option<(usize, u64)>)
    ensures
        match least {
            None => {
                &&& queue_entries(*old(queue)) =~= Map::empty()
                &&& queue_entries(*final(queue)) == queue_entries(*old(queue))
            },
            Some((item, score)) => {
                &&& queue_entries(*old(queue)).contains_key(item)
                &&& queue_entries(*old(queue))[item] == score
                &&& forall|other: usize| #[trigger]
                    queue_entries(*old(queue)).contains_key(other) ==> score <= queue_entries(
                        *old(queue),
                    )[other]
                &&& queue_entries(*final(queue)) == queue_entries(*old(queue)).remove(item)
            },
        },
{
    queue.pop().map(|(item, p)| (item, p.0))
}

/// `PriorityQueue::remove`: takes the given item out, wherever it stands in
/// the order, and returns its score; `None`, and nothing changes, if the
/// queue does not hold it.
#[verifier::external_body]
pub(crate) fn queue_remove(queue: &mut PriorityQueue<usize, Reverse<u64>>, item: usize) -> (removed: Option<u64>)
    ensures
        queue_entries(*final(queue)) == queue_entries(*old(queue)).remove(item),
        removed == (if queue_entries(*old(queue)).contains_key(item) {
            Some(queue_entries(*old(queue))[item])
        } else {
            None
        }),
{
    queue.remove(&item).map(|(_, p)| p.0)
}

} // verus!
