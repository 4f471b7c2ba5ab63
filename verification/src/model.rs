//! The mathematical core: a greedy Bellman backup over three states in
//! decimal fixed-point arithmetic, and value iteration built from it.
//!
//! A quantity `x` in real units is stored as the integer `x * SCALE`
//! (nine fractional decimal digits). Probabilities lie in `[0, SCALE]`
//! with each row of the transition matrix summing to exactly `SCALE`;
//! a discount factor lies in `[0, SCALE)`; rewards are bounded by
//! `REWARD_MAX`. Values then stay within `VALUE_MAX = REWARD_MAX * SCALE`,
//! which keeps every intermediate product inside `u128`.

use vstd::prelude::*;

verus! {

/// One unit, in fixed-point representation: nine fractional digits.
pub const SCALE: u64 = 1_000_000_000;

/// Largest admissible reward, scaled: one million in real units.
pub const REWARD_MAX: u64 = 1_000_000_000_000_000;

/// Bound kept on every entry of a value table: `REWARD_MAX * SCALE`.
/// It absorbs one Bellman backup: for any discount below one,
/// `p * (r + g * v / SCALE) / SCALE` stays below it again.
pub const VALUE_MAX: u128 = 1_000_000_000_000_000_000_000_000;

/// A transition matrix is stored row-major as nine scaled entries;
/// it is well formed when every row sums to exactly one.
pub open spec fn wf_probs(probs: [u64; 9]) -> bool {
    &&& probs@[0] + probs@[1] + probs@[2] == SCALE
    &&& probs@[3] + probs@[4] + probs@[5] == SCALE
    &&& probs@[6] + probs@[7] + probs@[8] == SCALE
}

pub open spec fn wf_rewards(rewards: [u64; 3]) -> bool {
    &&& rewards@[0] <= REWARD_MAX
    &&& rewards@[1] <= REWARD_MAX
    &&& rewards@[2] <= REWARD_MAX
}

pub open spec fn wf_discount(discount: u64) -> bool {
    discount < SCALE
}

/// A value table as carried between iterations: three scaled entries,
/// each within `VALUE_MAX`.
pub open spec fn wf_values(values: Seq<int>) -> bool {
    &&& values.len() == 3
    &&& forall|i: int| 0 <= i < 3 ==> 0 <= #[trigger] values[i] <= VALUE_MAX
}

/// The value table a `[u128; 3]` holds, as mathematical integers.
pub open spec fn values_of(values: [u128; 3]) -> Seq<int> {
    seq![values@[0] as int, values@[1] as int, values@[2] as int]
}

/// The expected discounted payoff of moving along one edge:
/// probability `p` times (reward `r` plus discount `g` times value `v`),
/// in fixed-point arithmetic (each product is rescaled by one division).
pub open spec fn term_spec(p: int, r: int, g: int, v: int) -> int {
    (p * (r + (g * v) / (SCALE as int))) / (SCALE as int)
}

pub open spec fn max2(a: int, b: int) -> int {
    if b > a {
        b
    } else {
        a
    }
}

/// One Bellman backup for state `i`: the best destination's payoff,
/// taken over the three entries of row `i` of the transition matrix.
pub open spec fn state_backup(
    probs: [u64; 9],
    rewards: [u64; 3],
    discount: u64,
    values: Seq<int>,
    i: int,
) -> int {
    max2(
        max2(
            term_spec(probs@[3 * i] as int, rewards@[0] as int, discount as int, values[0]),
            term_spec(probs@[3 * i + 1] as int, rewards@[1] as int, discount as int, values[1]),
        ),
        term_spec(probs@[3 * i + 2] as int, rewards@[2] as int, discount as int, values[2]),
    )
}

/// One Bellman backup of the whole table.
pub open spec fn backup_seq(
    probs: [u64; 9],
    rewards: [u64; 3],
    discount: u64,
    values: Seq<int>,
) -> Seq<int> {
    seq![
        state_backup(probs, rewards, discount, values, 0),
        state_backup(probs, rewards, discount, values, 1),
        state_backup(probs, rewards, discount, values, 2),
    ]
}

/// A single backup term stays within the value bound.
pub proof fn lemma_term_bounded(p: int, r: int, g: int, v: int)
    requires
        0 <= p <= SCALE,
        0 <= r <= REWARD_MAX,
        0 <= g < SCALE,
        0 <= v <= VALUE_MAX,
    ensures
        0 <= term_spec(p, r, g, v) <= VALUE_MAX,
{
    let s = SCALE as int;
    vstd::arithmetic::mul::lemma_mul_nonnegative(g, v);
    vstd::arithmetic::div_mod::lemma_div_pos_is_pos(g * v, s);
    vstd::arithmetic::mul::lemma_mul_nonnegative(p, r + (g * v) / s);
    vstd::arithmetic::div_mod::lemma_div_pos_is_pos(p * (r + (g * v) / s), s);
    // g * v <= (SCALE - 1) * VALUE_MAX, so (g * v) / SCALE <= VALUE_MAX - REWARD_MAX.
    vstd::arithmetic::mul::lemma_mul_upper_bound(g, s - 1, v, VALUE_MAX as int);
    vstd::arithmetic::div_mod::lemma_div_is_ordered(g * v, (s - 1) * (VALUE_MAX as int), s);
    assert((s - 1) * (VALUE_MAX as int) == s * (VALUE_MAX - REWARD_MAX));
    vstd::arithmetic::div_mod::lemma_div_multiples_vanish(VALUE_MAX - REWARD_MAX, s);
    assert(((s - 1) * (VALUE_MAX as int)) / s == VALUE_MAX - REWARD_MAX);
    let inner = r + (g * v) / s;
    assert(inner <= VALUE_MAX);
    // p * inner <= SCALE * inner, so the rescaled term is at most inner.
    vstd::arithmetic::mul::lemma_mul_inequality(p, s, inner);
    vstd::arithmetic::div_mod::lemma_div_is_ordered(p * inner, s * inner, s);
    vstd::arithmetic::div_mod::lemma_div_multiples_vanish(inner, s);
    assert((s * inner) / s == inner);
}

/// A backup of a well-formed table is again well formed.
pub proof fn lemma_backup_bounded(
    probs: [u64; 9],
    rewards: [u64; 3],
    discount: u64,
    values: Seq<int>,
)
    requires
        wf_probs(probs),
        wf_rewards(rewards),
        wf_discount(discount),
        wf_values(values),
    ensures
        wf_values(backup_seq(probs, rewards, discount, values)),
{
    let b = backup_seq(probs, rewards, discount, values);
    assert forall|i: int| 0 <= i < 3 implies 0 <= #[trigger] b[i] <= VALUE_MAX by {
        lemma_term_bounded(
            probs@[3 * i] as int,
            rewards@[0] as int,
            discount as int,
            values[0],
        );
        lemma_term_bounded(
            probs@[3 * i + 1] as int,
            rewards@[1] as int,
            discount as int,
            values[1],
        );
        lemma_term_bounded(
            probs@[3 * i + 2] as int,
            rewards@[2] as int,
            discount as int,
            values[2],
        );
    }
}

/// One edge's payoff, computed exactly as `term_spec` states it.
fn term_exec(p: u64, r: u64, discount: u64, v: u128) -> (t: u128)
    requires
        p <= SCALE,
        r <= REWARD_MAX,
        wf_discount(discount),
        v <= VALUE_MAX,
    ensures
        t == term_spec(p as int, r as int, discount as int, v as int),
        t <= VALUE_MAX,
{
    proof {
        lemma_term_bounded(p as int, r as int, discount as int, v as int);
        vstd::arithmetic::mul::lemma_mul_upper_bound(
            discount as int,
            SCALE as int,
            v as int,
            VALUE_MAX as int,
        );
        vstd::arithmetic::div_mod::lemma_div_pos_is_pos(
            (discount as int) * (v as int),
            SCALE as int,
        );
        vstd::arithmetic::mul::lemma_mul_nonnegative(discount as int, v as int);
    }
    let gv: u128 = (discount as u128) * v;
    let inner: u128 = (r as u128) + gv / (SCALE as u128);
    proof {
        vstd::arithmetic::div_mod::lemma_div_is_ordered(
            (discount as int) * (v as int),
            (SCALE as int) * (VALUE_MAX as int),
            SCALE as int,
        );
        vstd::arithmetic::div_mod::lemma_div_multiples_vanish(VALUE_MAX as int, SCALE as int);
        vstd::arithmetic::mul::lemma_mul_upper_bound(
            p as int,
            SCALE as int,
            inner as int,
            (REWARD_MAX + VALUE_MAX) as int,
        );
    }
    ((p as u128) * inner) / (SCALE as u128)
}

pub fn max2_exec(a: u128, b: u128) -> (m: u128)
    ensures
        m == max2(a as int, b as int),
{
    if b > a {
        b
    } else {
        a
    }
}

/// One Bellman backup of the whole table, exactly `backup_seq`.
pub fn value_iter_pass(
    values: &[u128; 3],
    probs: &[u64; 9],
    rewards: &[u64; 3],
    discount: u64,
) -> (new_values: [u128; 3])
    requires
        wf_probs(*probs),
        wf_rewards(*rewards),
        wf_discount(discount),
        wf_values(values_of(*values)),
    ensures
        values_of(new_values) == backup_seq(*probs, *rewards, discount, values_of(*values)),
        wf_values(values_of(new_values)),
{
    let b0 = max2_exec(
        max2_exec(
            term_exec(probs[0], rewards[0], discount, values[0]),
            term_exec(probs[1], rewards[1], discount, values[1]),
        ),
        term_exec(probs[2], rewards[2], discount, values[2]),
    );
    let b1 = max2_exec(
        max2_exec(
            term_exec(probs[3], rewards[0], discount, values[0]),
            term_exec(probs[4], rewards[1], discount, values[1]),
        ),
        term_exec(probs[5], rewards[2], discount, values[2]),
    );
    let b2 = max2_exec(
        max2_exec(
            term_exec(probs[6], rewards[0], discount, values[0]),
            term_exec(probs[7], rewards[1], discount, values[1]),
        ),
        term_exec(probs[8], rewards[2], discount, values[2]),
    );
    let out = [b0, b1, b2];
    proof {
        assert(values_of(out) =~= backup_seq(*probs, *rewards, discount, values_of(*values)));
    }
    out
}

/// The value table after `n` backups, starting from the all-zero table.
pub open spec fn iterate_spec(probs: [u64; 9], rewards: [u64; 3], discount: u64, n: nat) -> Seq<
    int,
>
    decreases n,
{
    if n == 0 {
        seq![0, 0, 0]
    } else {
        backup_seq(probs, rewards, discount, iterate_spec(probs, rewards, discount, (n - 1) as nat))
    }
}

pub proof fn lemma_iterate_bounded(probs: [u64; 9], rewards: [u64; 3], discount: u64, n: nat)
    requires
        wf_probs(probs),
        wf_rewards(rewards),
        wf_discount(discount),
    ensures
        wf_values(iterate_spec(probs, rewards, discount, n)),
    decreases n,
{
    if n == 0 {
    } else {
        lemma_iterate_bounded(probs, rewards, discount, (n - 1) as nat);
        lemma_backup_bounded(
            probs,
            rewards,
            discount,
            iterate_spec(probs, rewards, discount, (n - 1) as nat),
        );
    }
}

/// A single backup term never decreases when the value it reads grows.
proof fn lemma_term_mono(p: int, r: int, g: int, v1: int, v2: int)
    requires
        0 <= p,
        0 <= r,
        0 <= g,
        0 <= v1 <= v2,
    ensures
        term_spec(p, r, g, v1) <= term_spec(p, r, g, v2),
{
    let s = SCALE as int;
    vstd::arithmetic::mul::lemma_mul_inequality(v1, v2, g);
    vstd::arithmetic::mul::lemma_mul_is_commutative(v1, g);
    vstd::arithmetic::mul::lemma_mul_is_commutative(v2, g);
    vstd::arithmetic::div_mod::lemma_div_is_ordered(g * v1, g * v2, s);
    let i1 = r + (g * v1) / s;
    let i2 = r + (g * v2) / s;
    vstd::arithmetic::mul::lemma_mul_inequality(i1, i2, p);
    vstd::arithmetic::mul::lemma_mul_is_commutative(i1, p);
    vstd::arithmetic::mul::lemma_mul_is_commutative(i2, p);
    vstd::arithmetic::div_mod::lemma_div_is_ordered(p * i1, p * i2, s);
}

/// One backup applied to two pointwise-ordered tables keeps the order.
proof fn lemma_backup_mono(
    probs: [u64; 9],
    rewards: [u64; 3],
    discount: u64,
    v1: Seq<int>,
    v2: Seq<int>,
)
    requires
        v1.len() == 3,
        v2.len() == 3,
        forall|i: int| 0 <= i < 3 ==> 0 <= #[trigger] v1[i] <= v2[i],
    ensures
        forall|i: int|
            0 <= i < 3 ==> #[trigger] backup_seq(probs, rewards, discount, v1)[i] <= backup_seq(
                probs,
                rewards,
                discount,
                v2,
            )[i],
{
    assert forall|i: int|
        0 <= i < 3 implies #[trigger] backup_seq(probs, rewards, discount, v1)[i] <= backup_seq(
        probs,
        rewards,
        discount,
        v2,
    )[i] by {
        let g = discount as int;
        lemma_term_mono(probs@[3 * i] as int, rewards@[0] as int, g, v1[0], v2[0]);
        lemma_term_mono(probs@[3 * i + 1] as int, rewards@[1] as int, g, v1[1], v2[1]);
        lemma_term_mono(probs@[3 * i + 2] as int, rewards@[2] as int, g, v1[2], v2[2]);
    }
}

/// The shape of the convergence claim that holds exactly in this
/// arithmetic: starting from the all-zero table, value iteration never
/// decreases any entry, and every entry stays within `VALUE_MAX`. A
/// nondecreasing, bounded integer sequence cannot move forever, so the
/// iteration reaches a table one more backup leaves unchanged.
pub proof fn lemma_iterate_monotone(probs: [u64; 9], rewards: [u64; 3], discount: u64, n: nat)
    requires
        wf_probs(probs),
        wf_rewards(rewards),
        wf_discount(discount),
    ensures
        wf_values(iterate_spec(probs, rewards, discount, n)),
        forall|i: int|
            0 <= i < 3 ==> #[trigger] iterate_spec(probs, rewards, discount, n)[i] <= iterate_spec(
                probs,
                rewards,
                discount,
                n + 1,
            )[i],
    decreases n,
{
    lemma_iterate_bounded(probs, rewards, discount, n);
    lemma_iterate_bounded(probs, rewards, discount, n + 1);
    if n == 0 {
    } else {
        let prev = iterate_spec(probs, rewards, discount, (n - 1) as nat);
        let cur = iterate_spec(probs, rewards, discount, n);
        lemma_iterate_monotone(probs, rewards, discount, (n - 1) as nat);
        lemma_backup_mono(probs, rewards, discount, prev, cur);
    }
}

pub open spec fn abs_diff(a: int, b: int) -> int {
    if a >= b {
        a - b
    } else {
        b - a
    }
}

/// Sum of the entries of a three-entry table.
pub open spec fn sum3(values: Seq<int>) -> int {
    values[0] + values[1] + values[2]
}

/// The sum of componentwise absolute differences between two tables:
/// three times the mean absolute difference.
pub open spec fn sum_abs_diff_spec(a: Seq<int>, b: Seq<int>) -> int {
    abs_diff(a[0], b[0]) + abs_diff(a[1], b[1]) + abs_diff(a[2], b[2])
}

pub fn abs_diff_exec(a: u128, b: u128) -> (d: u128)
    ensures
        d == abs_diff(a as int, b as int),
{
    if a >= b {
        a - b
    } else {
        b - a
    }
}

/// Sum of componentwise absolute differences of two value tables.
pub fn sum_abs_diff(a: &[u128; 3], b: &[u128; 3]) -> (d: u128)
    requires
        wf_values(values_of(*a)),
        wf_values(values_of(*b)),
    ensures
        d == sum_abs_diff_spec(values_of(*a), values_of(*b)),
{
    abs_diff_exec(a[0], b[0]) + abs_diff_exec(a[1], b[1]) + abs_diff_exec(a[2], b[2])
}

/// The convergence test of the standalone calculator: the absolute
/// mean signed difference between consecutive tables, compared against
/// a threshold. Both sides are scaled by three so the comparison of the
/// mean against `threshold` is exact: `|sum(new) - sum(old)| / 3 < t`
/// if and only if `|sum(new) - sum(old)| < 3 * t`.
pub open spec fn settled(old_values: Seq<int>, new_values: Seq<int>, threshold: u64) -> bool {
    abs_diff(sum3(new_values), sum3(old_values)) < 3 * threshold
}

/// Whether the iteration from the zero table has settled after
/// backup number `n` (for `n >= 1`, comparing table `n` with `n - 1`).
pub open spec fn settled_at(
    probs: [u64; 9],
    rewards: [u64; 3],
    discount: u64,
    threshold: u64,
    n: nat,
) -> bool {
    settled(
        iterate_spec(probs, rewards, discount, (n - 1) as nat),
        iterate_spec(probs, rewards, discount, n),
        threshold,
    )
}

/// Runs value iteration from the all-zero table until the mean signed
/// difference of one step falls below `threshold`, or `max_iters`
/// backups have been applied. Returns the final table, the number of
/// backups applied, and whether the threshold was reached.
///
/// The result is exactly backup number `count` of the spec iteration;
/// `count` is the first step at which the run settled, and only a run
/// that exhausted `max_iters` reports not having settled.
pub fn value_iterate(
    probs: &[u64; 9],
    rewards: &[u64; 3],
    discount: u64,
    threshold: u64,
    max_iters: u64,
) -> (res: ([u128; 3], u64, bool))
    requires
        wf_probs(*probs),
        wf_rewards(*rewards),
        wf_discount(discount),
        max_iters >= 1,
    ensures
        values_of(res.0) == iterate_spec(*probs, *rewards, discount, res.1 as nat),
        1 <= res.1 <= max_iters,
        res.2 == settled_at(*probs, *rewards, discount, threshold, res.1 as nat),
        forall|m: nat|
            1 <= m < res.1 ==> !#[trigger] settled_at(*probs, *rewards, discount, threshold, m),
        !res.2 ==> res.1 == max_iters,
{
    let mut values: [u128; 3] = [0, 0, 0];
    let mut count: u64 = 0;
    proof {
        assert(values_of(values) =~= iterate_spec(*probs, *rewards, discount, 0));
    }
    loop
        invariant
            wf_probs(*probs),
            wf_rewards(*rewards),
            wf_discount(discount),
            1 <= max_iters,
            0 <= count < max_iters,
            values_of(values) == iterate_spec(*probs, *rewards, discount, count as nat),
            wf_values(values_of(values)),
            forall|m: nat|
                1 <= m <= count ==> !#[trigger] settled_at(
                    *probs,
                    *rewards,
                    discount,
                    threshold,
                    m,
                ),
        decreases max_iters - count,
    {
        let new_values = value_iter_pass(&values, probs, rewards, discount);
        let step_diff = abs_diff_exec(
            new_values[0] + new_values[1] + new_values[2],
            values[0] + values[1] + values[2],
        );
        values = new_values;
        count = count + 1;
        if step_diff < 3 * (threshold as u128) {
            return (values, count, true);
        }
        if count == max_iters {
            return (values, count, false);
        }
    }
}

} // verus!
