use markov_sched::sched::{least_loaded, MarkovScheduler};

#[test]
fn least_loaded_picks_minimum() {
    // The reference scenario: queue lengths (3, 1, 5) route to the
    // worker with length 1.
    assert_eq!(least_loaded(&vec![3, 1, 5]), 1);
    assert_eq!(least_loaded(&vec![0]), 0);
    assert_eq!(least_loaded(&vec![9, 8, 7, 6]), 3);
}

#[test]
fn least_loaded_breaks_ties_toward_first() {
    assert_eq!(least_loaded(&vec![2, 2, 1, 1]), 2);
    assert_eq!(least_loaded(&vec![4, 4, 4]), 0);
}

#[test]
fn queue_is_fifo() {
    // Tasks come back out of a queue in the order they were pushed.
    let mut core = MarkovScheduler::new(1);
    core.submit(11);
    core.submit(22);
    core.submit(33);
    assert_eq!(core.drain(), vec![11, 22, 33]);
    assert_eq!(core.drain(), Vec::<u64>::new());
}

#[test]
fn step_pops_head_of_chosen_queue_and_routes_least_loaded() {
    let mut core = MarkovScheduler::new(3);
    core.submit(10);
    core.submit(20);
    core.submit_immediate(30);

    // Seeded values are (0.5, 0.4, 0.4). From state 0 the policy
    // scores 0.5 * 0.4 against 0.4 * 0.4 and picks the normal queue.
    let routed = core.step(&vec![3, 1, 5]);
    assert_eq!(routed, Some((10, 1)));
    assert_eq!(core.sys.state, 1);

    // From state 1 it scores 0.2 * 0.5 against 0.4 * 0.4 and picks
    // the immediate queue.
    let routed = core.step(&vec![0, 2, 2]);
    assert_eq!(routed, Some((30, 0)));
    assert_eq!(core.sys.state, 2);

    // From state 2 it scores 0.2 * 0.5 against 0.4 * 0.4 and picks
    // the normal queue again: the task submitted second comes second.
    let routed = core.step(&vec![4, 4, 4]);
    assert_eq!(routed, Some((20, 0)));
    assert_eq!(core.sys.state, 1);

    // The immediate queue is now preferred but empty: the step is a
    // no-op and the state stays put.
    let routed = core.step(&vec![1, 1, 1]);
    assert_eq!(routed, None);
    assert_eq!(core.sys.state, 1);
}

#[test]
fn value_iteration_task_stops_resubmitting() {
    // The background task keeps resubmitting its handle while one
    // backup still moves the table by more than the threshold, and
    // stops within a handful of iterations once it no longer does.
    let mut core = MarkovScheduler::new(1);
    let mut rounds = 0;
    while core.value_iteration_step(7) {
        rounds += 1;
        // The resubmitted handle sits on the normal queue again.
        assert_eq!(core.drain(), vec![7]);
        assert!(rounds < 100, "value iteration should settle quickly");
    }
    // Once settled, nothing is resubmitted.
    assert_eq!(core.drain(), Vec::<u64>::new());
    assert!(!core.value_iteration_step(7));
    assert_eq!(core.drain(), Vec::<u64>::new());
}
