//! The priority queue in which the Huffman tree is assembled.

use priority_queue::PriorityQueue;
use vstd::prelude::*;

verus! {

/// `priority_queue::PriorityQueue`: items with priorities, the item of the greatest
/// priority leaving first. Nothing of its inside is known here; what it holds is
/// told by `pq_contents`.
#[verifier::external_type_specification]
#[verifier::external_body]
#[verifier::reject_recursive_types(I)]
#[verifier::reject_recursive_types(P)]
#[verifier::reject_recursive_types(H)]
pub struct ExPriorityQueue<I, P, H>(PriorityQueue<I, P, H>);

/// What a queue holds: each item with its priority.
pub uninterp spec fn pq_contents(q: PriorityQueue<usize, usize>) -> Map<usize, usize>;

/// `PriorityQueue::new`: an empty queue.
#[verifier::external_body]
pub(crate) fn pq_new() -> (r: PriorityQueue<usize, usize>)
    ensures
        pq_contents(r).dom() == Set::<usize>::empty(),
{
    PriorityQueue::new()
}

/// `PriorityQueue::len`: the number of items in the queue.
#[verifier::external_body]
pub(crate) fn pq_len(q: &PriorityQueue<usize, usize>) -> (n: usize)
    ensures
        n == pq_contents(*q).dom().len(),
{
    q.len()
}

/// `PriorityQueue::push`: the item is in the queue with the given priority; an
/// item that was there before has its priority replaced.
#[verifier::external_body]
pub(crate) fn pq_push(q: &mut PriorityQueue<usize, usize>, item: usize, priority: usize)
    ensures
        pq_contents(*final(q)) == pq_contents(*old(q)).insert(item, priority),
{
    q.push(item, priority);
}

/// `PriorityQueue::pop`: `None` on an empty queue; else an item whose priority no
/// other item exceeds leaves the queue and is returned with that priority. Which
/// of several items of the greatest priority leaves is not stated.
#[verifier::external_body]
pub(crate) fn pq_pop(q: &mut PriorityQueue<usize, usize>) -> (r: Option<(usize, usize)>)
    ensures
        match r {
            None => pq_contents(*old(q)).dom() =~= Set::<usize>::empty() && pq_contents(
                *final(q),
            ) == pq_contents(*old(q)),
            Some((item, priority)) => {
                &&& pq_contents(*old(q)).contains_key(item)
                &&& pq_contents(*old(q))[item] == priority
                &&& forall|other: usize| #[trigger]
                    pq_contents(*old(q)).contains_key(other) ==> pq_contents(*old(q))[other]
                        <= priority
                &&& pq_contents(*final(q)) == pq_contents(*old(q)).remove(item)
            },
        },
{
    q.pop()
}

} // verus!
