use markov_sched::sched::MarkovScheduler;

#[test]
fn it_works() {
    assert_eq!(2 + 2, 4);
}

#[test]
fn new_scheduler_starts_idle_with_empty_queues() {
    let mut core = MarkovScheduler::new(4);
    assert_eq!(core.workers, 4);
    assert_eq!(core.sys.state, 0);
    assert_eq!(core.drain(), Vec::<u64>::new());
}

#[test]
fn scheduler_seeds_values_with_one_pass() {
    // Rewards (0, 1, 1), discount 0.9, all-zero initial table: one
    // backup gives each state the best single-step reward available
    // from it, scaled by the transition probability.
    let core = MarkovScheduler::new(1);
    assert_eq!(
        core.sys.values,
        [500_000_000, 400_000_000, 400_000_000]
    );
}
