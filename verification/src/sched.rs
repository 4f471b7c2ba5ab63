//! The dispatcher: two shared task queues, the decision system that
//! picks which of them to service, and least-loaded routing to workers.
//!
//! The scheduling loop itself — seed the normal queue with the
//! value-iteration task, then repeatedly take one `step` and hand the
//! routed task to its worker — is driven from outside; everything the
//! loop decides is here.

pub mod queue;
pub mod system;

use crate::model::{
    backup_seq, sum_abs_diff, sum_abs_diff_spec, values_of, wf_rewards, SCALE,
};
use crate::sched::queue::{
    queue_tasks, task_queue_len, task_queue_new, task_queue_pop, task_queue_push,
};
use crate::sched::system::{standard_probs, Action, System};
use vstd::prelude::*;

verus! {

/// The discount factor of the scheduler's own value iteration: 0.9.
pub const DISCOUNT_FACTOR: u64 = 900_000_000;

/// The convergence threshold of the background value-iteration task:
/// it resubmits itself while the mean absolute difference of one
/// backup still exceeds 0.1.
pub const CONVERGENCE_THRESHOLD: u64 = 100_000_000;

/// The external load signal handed to the policy: the lengths of the
/// normal and the immediate queue at the moment of the decision.
pub struct ExtState(pub usize, pub usize);

/// The reward vector the dispatcher's decision system is built with:
/// nothing for going idle, one unit for servicing either queue.
pub open spec fn standard_rewards() -> Seq<u64> {
    seq![0u64, SCALE, SCALE]
}

/// The fixed reward vector of the dispatcher, scaled.
pub fn default_rewards() -> (r: [u64; 3])
    ensures
        r@ =~= standard_rewards(),
        wf_rewards(r),
{
    [0, 1_000_000_000, 1_000_000_000]
}

/// Index `i` holds the least load, and every earlier index holds a
/// strictly greater one: the first minimum under encounter order.
pub open spec fn is_first_min(loads: Seq<usize>, i: int) -> bool {
    &&& 0 <= i < loads.len()
    &&& forall|j: int| 0 <= j < loads.len() ==> loads[i] <= #[trigger] loads[j]
    &&& forall|j: int| 0 <= j < i ==> #[trigger] loads[j] > loads[i]
}

/// Least-loaded selection: the index of the worker with the fewest
/// pending tasks, ties broken by the worker encountered first.
pub fn least_loaded(loads: &Vec<usize>) -> (idx: usize)
    requires
        loads.len() > 0,
    ensures
        is_first_min(loads@, idx as int),
{
    let mut best: usize = 0;
    let mut i: usize = 1;
    while i < loads.len()
        invariant
            1 <= i <= loads.len(),
            best < i,
            forall|j: int| 0 <= j < i ==> loads@[best as int] <= #[trigger] loads@[j],
            forall|j: int| 0 <= j < best ==> #[trigger] loads@[j] > loads@[best as int],
        decreases loads.len() - i,
    {
        if loads[i] < loads[best] {
            best = i;
        }
        i = i + 1;
    }
    best
}

/// The dispatcher core: the decision system and the two input queues
/// it chooses between. Worker pools live outside; the dispatcher sees
/// them only as a vector of queue lengths.
pub struct MarkovScheduler {
    /// The Markov decision system steering the choice of queue.
    pub sys: System,
    /// The normal task queue (serviced when the policy picks state 1).
    pub q: crossbeam::queue::SegQueue<u64>,
    /// The immediate task queue (serviced when the policy picks state 2).
    pub im: crossbeam::queue::SegQueue<u64>,
    /// The size of the worker pool this dispatcher routes to.
    pub workers: usize,
}

impl MarkovScheduler {
    pub open spec fn wf(self) -> bool {
        self.sys.wf()
    }

    /// A dispatcher for `num_workers` workers: both queues empty, the
    /// decision system built with the standard rewards and transition
    /// matrix and seeded with one value-iteration pass at the standard
    /// discount factor.
    pub fn new(num_workers: usize) -> (s: MarkovScheduler)
        ensures
            s.wf(),
            s.workers == num_workers,
            s.sys.state == 0,
            s.sys.rewards@ == standard_rewards(),
            s.sys.probs@ == standard_probs(),
            values_of(s.sys.values) == backup_seq(
                s.sys.probs,
                s.sys.rewards,
                DISCOUNT_FACTOR,
                seq![0, 0, 0],
            ),
            queue_tasks(s.q).len() == 0,
            queue_tasks(s.im).len() == 0,
    {
        MarkovScheduler {
            sys: System::new(default_rewards()).init(DISCOUNT_FACTOR),
            q: task_queue_new(),
            im: task_queue_new(),
            workers: num_workers,
        }
    }

    /// Enqueues a task on the normal queue.
    pub fn submit(&mut self, task: u64)
        ensures
            queue_tasks(final(self).q) == queue_tasks(old(self).q).push(task),
            queue_tasks(final(self).im) == queue_tasks(old(self).im),
            final(self).sys == old(self).sys,
            final(self).workers == old(self).workers,
    {
        task_queue_push(&mut self.q, task);
    }

    /// Enqueues a task on the immediate queue.
    pub fn submit_immediate(&mut self, task: u64)
        ensures
            queue_tasks(final(self).im) == queue_tasks(old(self).im).push(task),
            queue_tasks(final(self).q) == queue_tasks(old(self).q),
            final(self).sys == old(self).sys,
            final(self).workers == old(self).workers,
    {
        task_queue_push(&mut self.im, task);
    }

    /// One iteration of the scheduling loop: snapshot the queue
    /// lengths, ask the policy for an action, pop from the queue the
    /// action selects, record the action as the new state, and name
    /// the least-loaded worker the task should go to.
    ///
    /// Returns the task and its worker, or nothing when the action was
    /// to stay idle or the selected queue was empty; in that case
    /// nothing changes and the caller simply retries.
    pub fn step(&mut self, worker_loads: &Vec<usize>) -> (routed: Option<(u64, usize)>)
        requires
            old(self).wf(),
            worker_loads@.len() == old(self).workers,
            worker_loads@.len() > 0,
        ensures
            final(self).wf(),
            final(self).workers == old(self).workers,
            final(self).sys.values == old(self).sys.values,
            final(self).sys.rewards == old(self).sys.rewards,
            final(self).sys.probs == old(self).sys.probs,
            ({
                let a = old(self).sys.chosen_action();
                let picked = if a == 1 {
                    queue_tasks(old(self).q)
                } else {
                    queue_tasks(old(self).im)
                };
                if a != 1 && a != 2 {
                    &&& routed is None
                    &&& final(self).sys == old(self).sys
                    &&& queue_tasks(final(self).q) == queue_tasks(old(self).q)
                    &&& queue_tasks(final(self).im) == queue_tasks(old(self).im)
                } else if picked.len() == 0 {
                    &&& routed is None
                    &&& final(self).sys == old(self).sys
                    &&& queue_tasks(final(self).q) == queue_tasks(old(self).q)
                    &&& queue_tasks(final(self).im) == queue_tasks(old(self).im)
                } else {
                    &&& routed matches Some(r) && r.0 == picked[0] && is_first_min(
                        worker_loads@,
                        r.1 as int,
                    )
                    &&& final(self).sys.state == a
                    &&& (a == 1 ==> queue_tasks(final(self).q) == queue_tasks(
                        old(self).q,
                    ).drop_first() && queue_tasks(final(self).im) == queue_tasks(old(self).im))
                    &&& (a == 2 ==> queue_tasks(final(self).im) == queue_tasks(
                        old(self).im,
                    ).drop_first() && queue_tasks(final(self).q) == queue_tasks(old(self).q))
                }
            }),
    {
        let ext = ExtState(task_queue_len(&self.q), task_queue_len(&self.im));
        let action: Action = self.sys.decide(ext);
        let task_res: Option<u64> = if action.0 == 1 {
            task_queue_pop(&mut self.q)
        } else if action.0 == 2 {
            task_queue_pop(&mut self.im)
        } else {
            return None;
        };
        match task_res {
            Some(task) => {
                self.sys.state = action.0;
                let worker = least_loaded(worker_loads);
                Some((task, worker))
            },
            None => None,
        }
    }

    /// The body of the self-resubmitting value-iteration task: one
    /// Bellman backup of the value table, committed, and the task
    /// handle pushed back onto the normal queue exactly when the mean
    /// absolute difference of the backup still exceeds the convergence
    /// threshold (the sums compare scaled by three, so the test on the
    /// mean is exact).
    pub fn value_iteration_step(&mut self, task: u64) -> (resubmitted: bool)
        requires
            old(self).wf(),
        ensures
            final(self).wf(),
            final(self).workers == old(self).workers,
            final(self).sys.state == old(self).sys.state,
            final(self).sys.rewards == old(self).sys.rewards,
            final(self).sys.probs == old(self).sys.probs,
            values_of(final(self).sys.values) == backup_seq(
                old(self).sys.probs,
                old(self).sys.rewards,
                DISCOUNT_FACTOR,
                values_of(old(self).sys.values),
            ),
            resubmitted == (sum_abs_diff_spec(
                values_of(final(self).sys.values),
                values_of(old(self).sys.values),
            ) > 3 * CONVERGENCE_THRESHOLD),
            queue_tasks(final(self).im) == queue_tasks(old(self).im),
            resubmitted ==> queue_tasks(final(self).q) == queue_tasks(old(self).q).push(task),
            !resubmitted ==> queue_tasks(final(self).q) == queue_tasks(old(self).q),
    {
        let new_values = self.sys.calculate_values(DISCOUNT_FACTOR);
        let diff = sum_abs_diff(&new_values, &self.sys.values);
        self.sys.values = new_values;
        if diff > 3 * (CONVERGENCE_THRESHOLD as u128) {
            task_queue_push(&mut self.q, task);
            true
        } else {
            false
        }
    }

    /// Empties the normal queue, returning its tasks oldest first: the
    /// order they come out is exactly the order they were pushed.
    pub fn drain(&mut self) -> (tasks: Vec<u64>)
        ensures
            tasks@ == queue_tasks(old(self).q),
            queue_tasks(final(self).q).len() == 0,
            queue_tasks(final(self).im) == queue_tasks(old(self).im),
            final(self).sys == old(self).sys,
            final(self).workers == old(self).workers,
    {
        let mut tasks: Vec<u64> = Vec::new();
        loop
            invariant
                tasks@ + queue_tasks(self.q) == queue_tasks(old(self).q),
                queue_tasks(self.im) == queue_tasks(old(self).im),
                self.sys == old(self).sys,
                self.workers == old(self).workers,
            decreases queue_tasks(self.q).len(),
        {
            let ghost pre = queue_tasks(self.q);
            match task_queue_pop(&mut self.q) {
                Some(task) => {
                    tasks.push(task);
                    proof {
                        assert(pre =~= seq![task] + queue_tasks(self.q));
                        assert(tasks@ + queue_tasks(self.q) =~= queue_tasks(old(self).q));
                    }
                },
                None => {
                    proof {
                        assert(tasks@ =~= queue_tasks(old(self).q));
                    }
                    return tasks;
                },
            }
        }
    }
}

} // verus!
