use rcore_os::task::deadlock_detector::DeadlockDetector;

#[test]
fn granted_request_is_safe() {
    let mut d = DeadlockDetector::new();
    d.add_resource(1);
    assert!(d.request_resources(0, 0));
}

#[test]
fn waiting_for_a_holder_that_can_finish_is_safe() {
    let mut d = DeadlockDetector::new();
    d.add_thread();
    d.add_resource(1);
    assert!(d.request_resources(0, 0));
    // thread 1 waits for the unit that thread 0 holds; thread 0 can finish
    assert!(d.request_resources(1, 0));
}

#[test]
fn crossed_waits_are_a_deadlock() {
    let mut d = DeadlockDetector::new();
    d.add_thread();
    d.add_resource(1);
    d.add_resource(1);
    assert!(d.request_resources(0, 0));
    assert!(d.request_resources(1, 1));
    assert!(d.request_resources(0, 1));
    assert!(!d.request_resources(1, 0));
}

#[test]
fn releasing_breaks_the_deadlock() {
    let mut d = DeadlockDetector::new();
    d.add_thread();
    d.add_thread();
    d.add_resource(1);
    d.add_resource(1);
    assert!(d.request_resources(1, 0));
    assert!(d.request_resources(2, 1));
    assert!(d.request_resources(1, 1));
    assert!(!d.request_resources(2, 0));
    // thread 1 gives back resource 0: thread 2 can now finish
    d.release_resources(1, 0);
    assert!(d.request_resources(0, 0));
}

#[test]
fn a_waiting_thread_that_holds_nothing_counts_as_finished() {
    let mut d = DeadlockDetector::new();
    d.add_thread();
    d.add_resource(0);
    // nothing is available: thread 1 waits, but holds nothing
    assert!(d.request_resources(1, 0));
    assert!(d.request_resources(0, 0));
}

#[test]
fn release_without_holding_adds_a_unit() {
    let mut d = DeadlockDetector::new();
    d.add_resource(0);
    d.release_resources(0, 0);
    assert!(d.request_resources(0, 0));
    d.add_thread();
    // the unit was granted to thread 0, none is left for thread 1
    assert!(d.request_resources(1, 0));
}

#[test]
fn releasing_a_granted_unit_makes_it_available_again() {
    let mut d = DeadlockDetector::new();
    d.add_thread();
    d.add_resource(1);
    assert!(d.request_resources(0, 0));
    d.release_resources(0, 0);
    // the unit is available again: thread 1 gets it, and thread 0 then waits
    assert!(d.request_resources(1, 0));
    assert!(d.request_resources(0, 0));
    d.release_resources(1, 0);
    assert!(d.request_resources(1, 0));
}
