//! The first-in first-out queue of the `queues` crate, as the breadth-first
//! traversal uses it: what it holds, and what each call does to that.

use vstd::prelude::*;
use queues::IsQueue;
use queues::Queue;

verus! {

/// `queues::Queue`, known to the verifier by name only.
#[verifier::external_type_specification]
#[verifier::external_body]
#[verifier::reject_recursive_types(T)]
pub struct ExQueue<T: Clone>(Queue<T>);

/// The elements waiting in a queue, oldest first.
pub uninterp spec fn queue_items(q: Queue<u16>) -> Seq<u16>;

/// `Queue::new` makes a queue that holds nothing.
#[verifier::external_body]
pub(crate) fn queue_new() -> (q: Queue<u16>)
    ensures
        queue_items(q) == Seq::<u16>::empty(),
{
    Queue::new()
}

/// `IsQueue::add` on a `Queue` puts the value behind all that wait; on this
/// kind of queue it cannot fail.
#[verifier::external_body]
pub(crate) fn queue_add(q: &mut Queue<u16>, val: u16)
    ensures
        queue_items(*final(q)) == queue_items(*old(q)).push(val),
{
    let _ = q.add(val);
}

/// `IsQueue::remove` on a `Queue` takes out the oldest element and returns
/// it, or reports that the queue is empty and leaves it so.
#[verifier::external_body]
pub(crate) fn queue_remove(q: &mut Queue<u16>) -> (oldest: Option<u16>)
    ensures
        match oldest {
            Some(x) => queue_items(*old(q)).len() > 0 && x == queue_items(*old(q))[0]
                && queue_items(*final(q)) == queue_items(*old(q)).drop_first(),
            None => queue_items(*old(q)).len() == 0 && queue_items(*final(q)) == queue_items(
                *old(q),
            ),
        },
{
    q.remove().ok()
}

/// `IsQueue::size` on a `Queue` is the number of elements that wait.
#[verifier::external_body]
pub(crate) fn queue_size(q: &Queue<u16>) -> (n: usize)
    ensures
        n == queue_items(*q).len(),
{
    q.size()
}

} // verus!
