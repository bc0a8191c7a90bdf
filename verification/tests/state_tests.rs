//! State manager tests: admission, draining, parking capacity.

use photon::state::{barrier_outcome, Barrier, BarrierError, State, StateMananger,
    RESUME_QUEUE_SIZE};

#[test]
fn initial_state_rejects_as_syncing() {
    let mut mgr = StateMananger::default();
    assert_eq!(mgr.state(), State::Syncing);
    let (barrier, expelled) = mgr.try_barrier();
    assert!(matches!(barrier, Some(Barrier::Syncing)));
    assert!(expelled.is_none());
    assert!(matches!(barrier_outcome(barrier, false), Err(BarrierError::Syncing)));
}

#[test]
fn active_admits_and_drains_into_reorg() {
    let mut mgr = StateMananger::default();
    let released = mgr.transition(State::Active);
    assert!(released.is_empty());
    // Three in-flight requests.
    for _ in 0..3 {
        let (barrier, expelled) = mgr.try_barrier();
        assert!(barrier.is_none());
        assert!(expelled.is_none());
    }
    let released = mgr.transition(State::ReOrgPending);
    assert!(released.is_empty());
    // New arrivals park while draining.
    let (barrier, expelled) = mgr.try_barrier();
    let parked = match barrier {
        Some(Barrier::ReOrging(t)) => t,
        _ => panic!("expected a parked ticket"),
    };
    assert!(expelled.is_none());
    // Completions drain the three in-flight requests; the state
    // advances to the reorganisation only at zero.
    mgr.signal_completion();
    assert_eq!(mgr.state(), State::ReOrgPending);
    mgr.signal_completion();
    assert_eq!(mgr.state(), State::ReOrgPending);
    mgr.signal_completion();
    assert_eq!(mgr.state(), State::ReOrg);
    // Ending the reorganisation releases every parked ticket with
    // admit.
    let released = mgr.transition(State::Active);
    assert_eq!(released, vec![parked]);
    assert!(matches!(
        barrier_outcome(Some(Barrier::ReOrging(parked)), true),
        Ok(())
    ));
}

#[test]
fn full_park_queue_expels_exactly_the_oldest() {
    let mut mgr = StateMananger::default();
    let _ = mgr.transition(State::Active);
    let _ = mgr.transition(State::ReOrgPending);
    let mut tickets = Vec::new();
    for _ in 0..RESUME_QUEUE_SIZE {
        let (barrier, expelled) = mgr.try_barrier();
        assert!(expelled.is_none());
        match barrier {
            Some(Barrier::ReOrging(t)) => tickets.push(t),
            _ => panic!("expected parking"),
        }
    }
    // The queue is full: the next arrival parks, and exactly the
    // oldest ticket is expelled with reject-overflow.
    let (barrier, expelled) = mgr.try_barrier();
    assert!(matches!(barrier, Some(Barrier::ReOrging(_))));
    assert_eq!(expelled, Some(tickets[0]));
    assert!(matches!(
        barrier_outcome(Some(Barrier::ReOrging(tickets[0])), false),
        Err(BarrierError::ReOrgOverflow)
    ));
}

#[test]
fn completion_is_ignored_outside_request_states() {
    let mut mgr = StateMananger::default();
    mgr.signal_completion();
    assert_eq!(mgr.state(), State::Syncing);
}

#[test]
fn sync_position_counter() {
    let mut mgr = StateMananger::default();
    assert_eq!(mgr.sync_position(), 0);
    assert_eq!(mgr.increment_sync_position(), 0);
    assert_eq!(mgr.increment_sync_position(), 1);
    assert_eq!(mgr.sync_position(), 2);
    mgr.set_sync_position(100);
    assert_eq!(mgr.sync_position(), 100);
}
