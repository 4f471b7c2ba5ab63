//! The decision system: a three-state Markov decision process whose
//! value table is re-estimated by value iteration, and whose policy
//! picks the best destination state other than the current one.

use crate::model::{
    backup_seq, value_iter_pass, values_of, wf_discount, wf_probs, wf_rewards, wf_values, SCALE,
    VALUE_MAX,
};
use crate::sched::ExtState;
use vstd::prelude::*;

verus! {

/// The action chosen by the policy: the destination state to service
/// next (1 selects the normal queue, 2 the immediate queue).
pub struct Action(pub usize);

/// The Markov decision process: current state, value table, reward
/// vector and transition matrix, all in fixed-point representation.
pub struct System {
    /// The last action taken: 0 (idle), 1 (prefer the normal queue) or
    /// 2 (prefer the immediate queue).
    pub state: usize,
    /// The current value-function estimate, one entry per state.
    pub values: [u128; 3],
    /// Immediate reward for transitioning into each state; fixed at
    /// construction.
    pub rewards: [u64; 3],
    /// Row-major transition matrix: entry `3 * i + d` is the
    /// probability of moving from state `i` to state `d`.
    pub probs: [u64; 9],
}

impl System {
    /// Every reachable `System` keeps its state in range, its table
    /// bounded and its transition rows summing to exactly one.
    pub open spec fn wf(self) -> bool {
        &&& self.state < 3
        &&& wf_values(values_of(self.values))
        &&& wf_rewards(self.rewards)
        &&& wf_probs(self.probs)
    }

    /// The score the policy assigns to destination `d`: the probability
    /// of reaching `d` from the current state times the value of `d`.
    pub open spec fn score(self, d: int) -> int {
        self.probs@[3 * self.state + d] * values_of(self.values)[d]
    }

    /// The destination the policy chooses: of the two states other than
    /// the current one, the first (in state order) with maximal score.
    pub open spec fn chosen_action(self) -> int {
        let c1: int = if self.state == 0 {
            1
        } else {
            0
        };
        let c2: int = if self.state == 2 {
            1
        } else {
            2
        };
        if self.score(c2) > self.score(c1) {
            c2
        } else {
            c1
        }
    }

    /// A fresh system: state 0, an all-zero value table, the given
    /// rewards and the standard transition matrix.
    pub fn new(rewards: [u64; 3]) -> (s: System)
        requires
            wf_rewards(rewards),
        ensures
            s.state == 0,
            values_of(s.values) == seq![0int, 0int, 0int],
            s.rewards == rewards,
            s.probs@ == standard_probs(),
            s.wf(),
    {
        let s = System { state: 0, values: [0, 0, 0], rewards, probs: default_transition() };
        proof {
            assert(values_of(s.values) =~= seq![0int, 0int, 0int]);
        }
        s
    }

    /// Seeds the value table with a single value-iteration pass, so the
    /// policy never runs on an all-zero table.
    pub fn init(self, discount_factor: u64) -> (s: System)
        requires
            self.wf(),
            wf_discount(discount_factor),
        ensures
            s.state == self.state,
            s.rewards == self.rewards,
            s.probs == self.probs,
            values_of(s.values) == backup_seq(
                self.probs,
                self.rewards,
                discount_factor,
                values_of(self.values),
            ),
            s.wf(),
    {
        let new_vals = self.calculate_values(discount_factor);
        System { state: self.state, values: new_vals, rewards: self.rewards, probs: self.probs }
    }

    /// One Bellman backup of the current table: for each state, the
    /// best destination's probability-weighted discounted payoff.
    /// Reads the table and returns the new one; the caller commits it.
    pub fn calculate_values(&self, discount_factor: u64) -> (new_values: [u128; 3])
        requires
            self.wf(),
            wf_discount(discount_factor),
        ensures
            values_of(new_values) == backup_seq(
                self.probs,
                self.rewards,
                discount_factor,
                values_of(self.values),
            ),
            wf_values(values_of(new_values)),
    {
        value_iter_pass(&self.values, &self.probs, &self.rewards, discount_factor)
    }

    /// The policy: picks the destination state, other than the current
    /// one, with the highest probability-weighted value; ties go to the
    /// candidate encountered first in state order. The chosen action is
    /// never the current state.
    ///
    /// The external load signal is accepted but not yet folded into the
    /// objective: it is the extension point for a backpressure-aware
    /// policy.
    pub fn decide(&self, ext: ExtState) -> (action: Action)
        requires
            self.wf(),
        ensures
            action.0 == self.chosen_action(),
            action.0 != self.state,
            action.0 < 3,
    {
        let _ = ext;
        let c1: usize = if self.state == 0 {
            1
        } else {
            0
        };
        let c2: usize = if self.state == 2 {
            1
        } else {
            2
        };
        proof {
            lemma_score_fits(*self, c1 as int);
            lemma_score_fits(*self, c2 as int);
        }
        let score1: u128 = (self.probs[3 * self.state + c1] as u128) * self.values[c1];
        let score2: u128 = (self.probs[3 * self.state + c2] as u128) * self.values[c2];
        if score2 > score1 {
            Action(c2)
        } else {
            Action(c1)
        }
    }
}

/// A policy score fits in `u128`: a probability is at most `SCALE` and
/// a value at most `VALUE_MAX`.
proof fn lemma_score_fits(s: System, d: int)
    requires
        s.wf(),
        0 <= d < 3,
    ensures
        0 <= s.probs@[3 * s.state + d] * values_of(s.values)[d] <= (SCALE as int) * (
        VALUE_MAX as int),
{
    vstd::arithmetic::mul::lemma_mul_nonnegative(
        s.probs@[3 * s.state + d] as int,
        values_of(s.values)[d],
    );
    vstd::arithmetic::mul::lemma_mul_upper_bound(
        s.probs@[3 * s.state + d] as int,
        SCALE as int,
        values_of(s.values)[d],
        VALUE_MAX as int,
    );
}

/// The standard transition matrix of the dispatcher, row-major.
pub open spec fn standard_probs() -> Seq<u64> {
    seq![
        100_000_000u64,
        500_000_000u64,
        400_000_000u64,
        200_000_000u64,
        400_000_000u64,
        400_000_000u64,
        200_000_000u64,
        400_000_000u64,
        400_000_000u64,
    ]
}

/// The standard transition matrix of the dispatcher, row-major; each
/// row sums to exactly one.
pub fn default_transition() -> (p: [u64; 9])
    ensures
        p@ =~= standard_probs(),
        wf_probs(p),
{
    [
        100_000_000,
        500_000_000,
        400_000_000,
        200_000_000,
        400_000_000,
        400_000_000,
        200_000_000,
        400_000_000,
        400_000_000,
    ]
}

} // verus!
