//! Trusted interface to the `priority_queue` crate.
//!
//! The scheduler keeps three kinds of priority queues (per-processor ready
//! queues, per-processor receive queues, and the global queue of processors),
//! all of them `PriorityQueue<usize, u64>`: an integer item keyed by an
//! integer priority, the greatest priority popped first.
//!
//! The queue is modelled by [`pq_model`]: the map from each stored item to
//! its priority. `push` has map semantics (an existing item has its priority
//! replaced), and `pop` removes an entry of greatest priority.

use vstd::prelude::*;

verus! {

/// `priority_queue::PriorityQueue`, declared so that it can stand in fields
/// and signatures. Values of it are read only through the wrappers below.
#[verifier::external_type_specification]
#[verifier::external_body]
#[verifier::reject_recursive_types(I)]
#[verifier::reject_recursive_types(P)]
#[verifier::reject_recursive_types(H)]
pub struct ExPriorityQueue<I, P, H>(priority_queue::PriorityQueue<I, P, H>);

/// A priority queue of integer items keyed by integer priorities.
pub type IntQueue = priority_queue::PriorityQueue<usize, u64>;

/// What an [`IntQueue`] holds: each item, mapped to its priority.
pub uninterp spec fn pq_model(q: IntQueue) -> Map<usize, u64>;

/// The model of a queue with nothing in it.
pub open spec fn pq_empty() -> Map<usize, u64> {
    Map::empty()
}

/// Relies on `PriorityQueue::new`. Nothing is claimed of the fresh queue
/// here; [`pq_clear`] is what establishes emptiness.
#[verifier::external_body]
pub fn pq_raw_new() -> IntQueue {
    priority_queue::PriorityQueue::new()
}

/// Relies on `PriorityQueue::clear`: removes every item.
#[verifier::external_body]
pub fn pq_clear(q: &mut IntQueue)
    ensures
        pq_model(*final(q)) == pq_empty(),
{
    q.clear()
}

/// An empty queue.
pub fn pq_new() -> (r: IntQueue)
    ensures
        pq_model(r) == pq_empty(),
{
    let mut q = pq_raw_new();
    pq_clear(&mut q);
    q
}

/// Relies on `PriorityQueue::push`: inserts the pair, replacing (and
/// returning) the priority of an item already present.
#[verifier::external_body]
pub fn pq_push(q: &mut IntQueue, item: usize, priority: u64) -> (r: Option<u64>)
    ensures
        pq_model(*final(q)) == pq_model(*old(q)).insert(item, priority),
        r == (if pq_model(*old(q)).dom().contains(item) {
            Some(pq_model(*old(q))[item])
        } else {
            Option::<u64>::None
        }),
{
    q.push(item, priority)
}

/// Relies on `PriorityQueue::pop`: removes and returns a pair of greatest
/// priority, or `None` from an empty queue. Which of several items of equal
/// greatest priority leaves is not specified.
#[verifier::external_body]
pub fn pq_pop(q: &mut IntQueue) -> (r: Option<(usize, u64)>)
    ensures
        match r {
            None => pq_model(*old(q)) == pq_empty() && pq_model(*final(q)) == pq_model(*old(q)),
            Some((item, priority)) => pq_model(*old(q)).dom().contains(item) && pq_model(
                *old(q),
            )[item] == priority && (forall|other: usize|
                pq_model(*old(q)).dom().contains(other) ==> pq_model(*old(q))[other] <= priority)
                && pq_model(*final(q)) == pq_model(*old(q)).remove(item),
        },
{
    q.pop()
}

/// Relies on `PriorityQueue::len`: the number of stored items.
#[verifier::external_body]
pub fn pq_len(q: &IntQueue) -> (r: usize)
    ensures
        r == pq_model(*q).dom().len(),
{
    q.len()
}

} // verus!
