//! The queue of edges that wait to be collapsed.
//!
//! The queue is the `PriorityQueue` of the `priority-queue` crate, with an
//! edge's key as the item. Verus does not look inside it: each operation is
//! a small function whose contract states, over the queue's entries, what
//! the crate's documentation says of it.

use vstd::prelude::*;
use super::edge_hasher::EdgeHasher;

verus! {

/// `priority_queue::PriorityQueue`, a queue of items of type `I` with
/// priorities of type `P`. What it holds is named by [`queue_entries`].
#[verifier::external_type_specification]
#[verifier::external_body]
#[verifier::reject_recursive_types(I)]
#[verifier::reject_recursive_types(P)]
#[verifier::reject_recursive_types(H)]
pub struct ExPriorityQueue<I, P, H>(priority_queue::PriorityQueue<I, P, H>);

/// The entries of a queue: the priority of each item in it.
pub uninterp spec fn queue_entries(
    q: priority_queue::PriorityQueue<u64, u64, std::hash::BuildHasherDefault<EdgeHasher>>,
) -> Map<u64, u64>;

/// `PriorityQueue::with_default_hasher`: a queue without entries.
#[verifier::external_body]
pub(crate) fn queue_new() -> (q: priority_queue::PriorityQueue<
    u64,
    u64,
    std::hash::BuildHasherDefault<EdgeHasher>,
>)
    ensures
        queue_entries(q) =~= Map::empty(),
{
    priority_queue::PriorityQueue::with_default_hasher()
}

/// `PriorityQueue::push`: the queue then holds `item` with `priority`,
/// whether or not it held the item before; its other entries are unchanged,
/// and the priority that the item had before is returned.
#[verifier::external_body]
pub(crate) fn queue_push(
    q: &mut priority_queue::PriorityQueue<u64, u64, std::hash::BuildHasherDefault<EdgeHasher>>,
    item: u64,
    priority: u64,
) -> (r: Option<u64>)
    ensures
        queue_entries(*final(q)) == queue_entries(*old(q)).insert(item, priority),
        r == (if queue_entries(*old(q)).contains_key(item) {
            Some(queue_entries(*old(q))[item])
        } else {
            None
        }),
{
    q.push(item, priority)
}

/// `PriorityQueue::change_priority`: where the queue holds `item`, the item
/// gets the new priority and the old one is returned; where it does not,
/// nothing changes and `None` is returned.
#[verifier::external_body]
pub(crate) fn queue_change_priority(
    q: &mut priority_queue::PriorityQueue<u64, u64, std::hash::BuildHasherDefault<EdgeHasher>>,
    item: u64,
    priority: u64,
) -> (r: Option<u64>)
    ensures
        queue_entries(*final(q)) == (if queue_entries(*old(q)).contains_key(item) {
            queue_entries(*old(q)).insert(item, priority)
        } else {
            queue_entries(*old(q))
        }),
        r == (if queue_entries(*old(q)).contains_key(item) {
            Some(queue_entries(*old(q))[item])
        } else {
            None
        }),
{
    q.change_priority(&item, priority)
}

/// `PriorityQueue::get_priority`: the priority of `item`, if the queue
/// holds it.
#[verifier::external_body]
pub(crate) fn queue_get_priority(
    q: &priority_queue::PriorityQueue<u64, u64, std::hash::BuildHasherDefault<EdgeHasher>>,
    item: u64,
) -> (r: Option<u64>)
    ensures
        r == (if queue_entries(*q).contains_key(item) {
            Some(queue_entries(*q)[item])
        } else {
            None
        }),
{
    q.get_priority(&item).copied()
}

/// `PriorityQueue::pop`: takes out an entry with the greatest priority and
/// returns it, or returns `None` where the queue has no entry. Which of
/// several entries with the greatest priority leaves is not said.
#[verifier::external_body]
pub(crate) fn queue_pop(
    q: &mut priority_queue::PriorityQueue<u64, u64, std::hash::BuildHasherDefault<EdgeHasher>>,
) -> (r: Option<(u64, u64)>)
    ensures
        r is None <==> queue_entries(*old(q)).dom() =~= Set::empty(),
        r is None ==> queue_entries(*final(q)) == queue_entries(*old(q)),
        r matches Some(top) ==> is_top(queue_entries(*old(q)), top.0, top.1) && queue_entries(
            *final(q),
        ) == queue_entries(*old(q)).remove(top.0),
{
    q.pop()
}

/// `item` is in the queue with `priority`, and nothing in the queue has a
/// greater priority.
pub open spec fn is_top(entries: Map<u64, u64>, item: u64, priority: u64) -> bool {
    &&& entries.contains_key(item)
    &&& entries[item] == priority
    &&& forall|other: u64| #[trigger] entries.contains_key(other) ==> entries[other] <= priority
}

} // verus!
