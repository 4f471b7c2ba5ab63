use markov_sched::sched::system::{default_transition, System};
use markov_sched::sched::ExtState;

fn fixture(state: usize, values: [u128; 3]) -> System {
    System {
        state,
        values,
        rewards: [0, 1_000_000_000, 1_000_000_000],
        probs: default_transition(),
    }
}

#[test]
fn decide_never_returns_current_state() {
    for state in 0..3usize {
        for v in [
            [0u128, 0, 0],
            [500_000_000, 400_000_000, 400_000_000],
            [1, 2, 3],
            [7, 7, 7],
        ] {
            let sys = fixture(state, v);
            let action = sys.decide(ExtState(0, 0));
            assert_ne!(action.0, state);
            assert!(action.0 < 3);
        }
    }
}

#[test]
fn decide_picks_highest_weighted_value() {
    // From state 0 the candidates are 1 and 2: probabilities 0.5 and
    // 0.4, so equal values favour state 1.
    let sys = fixture(0, [500_000_000, 400_000_000, 400_000_000]);
    assert_eq!(sys.decide(ExtState(0, 0)).0, 1);

    // A much higher value on state 2 outweighs its lower probability.
    let sys = fixture(0, [0, 400_000_000, 900_000_000]);
    assert_eq!(sys.decide(ExtState(0, 0)).0, 2);

    // From state 1 the candidates are 0 and 2 (0.2 and 0.4).
    let sys = fixture(1, [500_000_000, 400_000_000, 400_000_000]);
    assert_eq!(sys.decide(ExtState(0, 0)).0, 2);
}

#[test]
fn decide_breaks_ties_toward_first_candidate() {
    // All scores are zero: the first candidate in state order wins.
    let sys = fixture(1, [0, 0, 0]);
    assert_eq!(sys.decide(ExtState(0, 0)).0, 0);
    let sys = fixture(0, [0, 0, 0]);
    assert_eq!(sys.decide(ExtState(0, 0)).0, 1);
    // Exactly equal nonzero scores: 0.2 * 1000 == 0.4 * 500.
    let sys = fixture(1, [1_000, 0, 500]);
    assert_eq!(sys.decide(ExtState(0, 0)).0, 0);
}

#[test]
fn system_new_and_init_shape_the_table() {
    let sys = System::new([5_000_000_000, 2_500_000_000, 2_500_000_000]);
    assert_eq!(sys.state, 0);
    assert_eq!(sys.values, [0, 0, 0]);
    let sys = sys.init(900_000_000);
    // One backup from zero: state 0 takes 0.5 * 2.5, states 1 and 2
    // take 0.4 * 2.5 over 0.2 * 5.0 (tie resolved by magnitude: both
    // products equal 1.0, and the maximum is the value either way).
    assert_eq!(
        sys.values,
        [1_250_000_000, 1_000_000_000, 1_000_000_000]
    );
}
