//! Task queues: thin verified interface over crossbeam's `SegQueue`,
//! the unbounded lock-free FIFO the dispatcher and its workers share.
//!
//! A task is carried here as a plain `u64` handle; whoever runs the
//! dispatcher maps handles to the actual units of work.

use vstd::prelude::*;

verus! {

#[verifier::external_type_specification]
#[verifier::external_body]
#[verifier::reject_recursive_types(T)]
pub struct ExSegQueue<T>(crossbeam::queue::SegQueue<T>);

/// The task handles a queue currently holds, oldest first.
pub uninterp spec fn queue_tasks(q: crossbeam::queue::SegQueue<u64>) -> Seq<u64>;

/// Relies on crossbeam's `SegQueue::new`: creates a new, empty queue.
#[verifier::external_body]
pub(crate) fn task_queue_new() -> (q: crossbeam::queue::SegQueue<u64>)
    ensures
        queue_tasks(q) == Seq::<u64>::empty(),
{
    crossbeam::queue::SegQueue::new()
}

/// Relies on crossbeam's `SegQueue::push`: appends the element at the
/// tail of the queue.
#[verifier::external_body]
pub(crate) fn task_queue_push(q: &mut crossbeam::queue::SegQueue<u64>, task: u64)
    ensures
        queue_tasks(*final(q)) == queue_tasks(*old(q)).push(task),
{
    q.push(task);
}

/// Relies on crossbeam's `SegQueue::pop`: removes and returns the
/// element at the head of the queue, or returns nothing when the queue
/// is empty.
#[verifier::external_body]
pub(crate) fn task_queue_pop(q: &mut crossbeam::queue::SegQueue<u64>) -> (task: Option<u64>)
    ensures
        queue_tasks(*old(q)).len() == 0 ==> task is None && queue_tasks(*final(q))
            == queue_tasks(*old(q)),
        queue_tasks(*old(q)).len() > 0 ==> task == Some(queue_tasks(*old(q))[0]) && queue_tasks(
            *final(q),
        ) == queue_tasks(*old(q)).drop_first(),
{
    q.pop()
}

/// Relies on crossbeam's `SegQueue::len`: the number of elements the
/// queue currently holds.
#[verifier::external_body]
pub(crate) fn task_queue_len(q: &crossbeam::queue::SegQueue<u64>) -> (n: usize)
    ensures
        n == queue_tasks(*q).len(),
{
    q.len()
}

} // verus!
