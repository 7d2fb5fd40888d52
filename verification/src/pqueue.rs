use priority_queue::PriorityQueue;
use vstd::prelude::*;

verus! {

#[verifier::external_type_specification]
#[verifier::external_body]
#[verifier::reject_recursive_types(I)]
#[verifier::reject_recursive_types(P)]
#[verifier::reject_recursive_types(H)]
pub struct ExPriorityQueue<I, P, H>(PriorityQueue<I, P, H>);

/// A max-priority queue of nodes keyed by `u32` priorities.
pub type NodeQueue = PriorityQueue<u32, u32>;

/// The empty contents map.
pub open spec fn pq_empty() -> Map<u32, u32> {
    Map::empty()
}

/// What the priority queue holds: each item mapped to its current
/// priority. Items are unique keys in `priority_queue::PriorityQueue`.
pub uninterp spec fn pq_contents(q: NodeQueue) -> Map<u32, u32>;

/// Relies on priority_queue::PriorityQueue::new: creates an empty queue.
#[verifier::external_body]
pub(crate) fn pq_new() -> (queue: NodeQueue)
    ensures
        pq_contents(queue) == pq_empty(),
{
    PriorityQueue::new()
}

/// Relies on priority_queue::PriorityQueue::len: the number of items held.
#[verifier::external_body]
pub(crate) fn pq_len(q: &NodeQueue) -> (n: usize)
    ensures
        n == pq_contents(*q).dom().len(),
{
    q.len()
}

/// Relies on priority_queue::PriorityQueue::push: inserts the item with
/// the given priority, replacing the item's old priority if it was
/// already present.
#[verifier::external_body]
pub(crate) fn pq_push(q: &mut NodeQueue, item: u32, prio: u32)
    ensures
        pq_contents(*final(q)) == pq_contents(*old(q)).insert(item, prio),
{
    q.push(item, prio);
}

/// Relies on priority_queue::PriorityQueue::pop: removes and returns an
/// item of greatest priority, or nothing when the queue is empty.
#[verifier::external_body]
pub(crate) fn pq_pop(q: &mut NodeQueue) -> (r: Option<(u32, u32)>)
    ensures
        match r {
            Some(pair) => {
                &&& pq_contents(*old(q)).dom().contains(pair.0)
                &&& pq_contents(*old(q))[pair.0] == pair.1
                &&& forall|k: u32|
                    #[trigger] pq_contents(*old(q)).dom().contains(k) ==> pq_contents(*old(q))[k]
                        <= pair.1
                &&& pq_contents(*final(q)) == pq_contents(*old(q)).remove(pair.0)
            },
            None => {
                &&& pq_contents(*old(q)) == Map::<u32, u32>::empty()
                &&& pq_contents(*final(q)) == pq_contents(*old(q))
            },
        },
{
    q.pop()
}

/// Relies on priority_queue::PriorityQueue::get_priority: the priority
/// of the item, or nothing when the item is absent.
#[verifier::external_body]
pub(crate) fn pq_get_priority(q: &NodeQueue, item: u32) -> (r: Option<
    u32,
>)
    ensures
        match r {
            Some(p) => pq_contents(*q).dom().contains(item) && pq_contents(*q)[item] == p,
            None => !pq_contents(*q).dom().contains(item),
        },
{
    q.get_priority(&item).copied()
}

/// Relies on priority_queue::PriorityQueue::change_priority: sets the
/// priority of an item already in the queue; does nothing otherwise.
#[verifier::external_body]
pub(crate) fn pq_change_priority(
    q: &mut NodeQueue,
    item: u32,
    prio: u32,
)
    ensures
        pq_contents(*old(q)).dom().contains(item) ==> pq_contents(*final(q)) == pq_contents(
            *old(q),
        ).insert(item, prio),
        !pq_contents(*old(q)).dom().contains(item) ==> pq_contents(*final(q)) == pq_contents(
            *old(q),
        ),
{
    q.change_priority(&item, prio);
}

} // verus!
