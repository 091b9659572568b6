//! The queue in which packed entries wait for their archive.

use queues::{IsQueue, Queue};
use vstd::prelude::*;

verus! {

/// `queues::Queue`: a first-in, first-out queue. Nothing of its inside is known
/// here; what it holds is told by `queue_items`.
#[verifier::external_type_specification]
#[verifier::external_body]
#[verifier::reject_recursive_types(T)]
pub struct ExQueue<T: Clone>(Queue<T>);

/// What a queue holds, the entry that leaves next first.
pub uninterp spec fn queue_items(q: Queue<(String, Vec<u8>)>) -> Seq<(String, Vec<u8>)>;

/// `Queue::new`: an empty queue.
#[verifier::external_body]
pub(crate) fn queue_new() -> (q: Queue<(String, Vec<u8>)>)
    ensures
        queue_items(q).len() == 0,
{
    Queue::new()
}

/// `Queue::size`: the number of entries in the queue.
#[verifier::external_body]
pub(crate) fn queue_size(q: &Queue<(String, Vec<u8>)>) -> (n: usize)
    ensures
        n == queue_items(*q).len(),
{
    q.size()
}

/// `Queue::add`: the entry is put at the end of the queue. On this kind of queue
/// the call does not fail.
#[verifier::external_body]
pub(crate) fn queue_add(q: &mut Queue<(String, Vec<u8>)>, path: String, body: Vec<u8>)
    ensures
        queue_items(*final(q)) == queue_items(*old(q)).push((path, body)),
{
    let _ = q.add((path, body));
}

/// `Queue::remove`: the first entry leaves the queue and is returned; nothing is
/// returned from an empty queue, which stays empty.
#[verifier::external_body]
pub(crate) fn queue_remove(q: &mut Queue<(String, Vec<u8>)>) -> (r: Option<(String, Vec<u8>)>)
    ensures
        match r {
            None => queue_items(*old(q)).len() == 0 && queue_items(*final(q)) == queue_items(
                *old(q),
            ),
            Some(entry) => queue_items(*old(q)).len() > 0 && entry == queue_items(*old(q))[0]
                && queue_items(*final(q)) == queue_items(*old(q)).skip(1),
        },
{
    q.remove().ok()
}

} // verus!
