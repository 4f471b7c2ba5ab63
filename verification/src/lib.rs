//! A self-tuning task dispatcher built around a small Markov decision
//! process: a three-state value table is re-estimated by value iteration,
//! and a policy derived from it chooses which of two task queues the
//! dispatcher services next.
//!
//! All numeric quantities (probabilities, rewards, discount factors,
//! values) are decimal fixed-point integers with nine fractional digits,
//! so every computation here is exact integer arithmetic.

pub mod model;
pub mod parse;
pub mod sched;
