use markov_sched::model::{sum_abs_diff, value_iter_pass, value_iterate};

const FIXTURE_PROBS: [u64; 9] = [
    100_000_000,
    500_000_000,
    400_000_000,
    200_000_000,
    400_000_000,
    400_000_000,
    200_000_000,
    400_000_000,
    400_000_000,
];
const FIXTURE_REWARDS: [u64; 3] = [5_000_000_000, 2_500_000_000, 2_500_000_000];
const DISCOUNT: u64 = 900_000_000;

#[test]
fn reference_fixture_reaches_bellman_fixed_point() {
    // Rewards (5.0, 2.5, 2.5), the standard matrix, discount 0.9.
    // Run well past the calculator's 1e-6 mean-difference threshold.
    let (values, iters, converged) =
        value_iterate(&FIXTURE_PROBS, &FIXTURE_REWARDS, DISCOUNT, 1, 10_000);
    assert!(converged, "fixture should converge, ran {} backups", iters);

    // The exact fixed point: v0 = 0.5 * (2.5 + 0.9 * v1) and
    // v1 = v2 = 0.4 * (2.5 + 0.9 * v1), so v1 = 1.5625 and
    // v0 = 1.953125; both are exact in nine fractional digits.
    let expected: [u128; 3] = [1_953_125_000, 1_562_500_000, 1_562_500_000];
    for i in 0..3 {
        let diff = values[i].abs_diff(expected[i]);
        assert!(diff <= 2, "value {} is {} vs {}", i, values[i], expected[i]);
    }

    // The table satisfies the Bellman equation to well within 1e-6
    // (1000 scaled units) per component.
    let next = value_iter_pass(&values, &FIXTURE_PROBS, &FIXTURE_REWARDS, DISCOUNT);
    for i in 0..3 {
        assert!(values[i].abs_diff(next[i]) < 1000);
    }
}

#[test]
fn convergence_within_bound_at_high_discount() {
    // Mean absolute step difference falls below 1e-6 within 10,000
    // backups for discounts up to 0.95.
    for (probs, rewards, discount) in [
        (FIXTURE_PROBS, FIXTURE_REWARDS, 950_000_000),
        (
            [200_000_000, 300_000_000, 500_000_000, 900_000_000, 50_000_000, 50_000_000,
             1_000_000_000, 0, 0],
            [1_000_000_000, 0, 3_500_000_000],
            950_000_000,
        ),
        (
            [0, 1_000_000_000, 0, 0, 0, 1_000_000_000, 1_000_000_000, 0, 0],
            [2_000_000_000, 2_000_000_000, 2_000_000_000],
            500_000_000,
        ),
    ] {
        let (values, iters, converged) = value_iterate(&probs, &rewards, discount, 1_000, 10_000);
        assert!(converged, "expected convergence, ran {} backups", iters);
        assert!(iters < 10_000);
        // The settled table moves by less than the threshold under one
        // more backup.
        let next = value_iter_pass(&values, &probs, &rewards, discount);
        assert!(sum_abs_diff(&next, &values) < 3_000_000);
    }
}

#[test]
fn symmetric_rewards_settle_quickly() {
    // A symmetric reward vector with the scheduler's 0.1 threshold:
    // the step differences shrink geometrically and drop below the
    // threshold within a bounded number of backups.
    let rewards: [u64; 3] = [1_000_000_000, 1_000_000_000, 1_000_000_000];
    let (_, iters, converged) =
        value_iterate(&FIXTURE_PROBS, &rewards, DISCOUNT, 100_000_000, 1_000);
    assert!(converged);
    assert!(iters <= 50);
}

#[test]
fn one_backup_from_zero_takes_best_immediate_reward() {
    let (values, iters, _) = value_iterate(&FIXTURE_PROBS, &FIXTURE_REWARDS, DISCOUNT, u64::MAX, 1);
    assert_eq!(iters, 1);
    assert_eq!(values, [1_250_000_000, 1_000_000_000, 1_000_000_000]);
}
