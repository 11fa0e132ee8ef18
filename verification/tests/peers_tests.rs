use rtbit::peers::{AggregatePeerStats, PeerState, PeerStates, PeerStatesError};
use rtbit::super_seed::PeerAddr;

fn zero() -> AggregatePeerStats {
    AggregatePeerStats { queued: 0, connecting: 0, live: 0, dead: 0, not_needed: 0, seen: 0 }
}

fn make_peer_states() -> PeerStates {
    PeerStates::new(zero())
}

fn addr(port: u16) -> PeerAddr {
    (false, u32::from_be_bytes([127, 0, 0, 1]) as u128, port)
}

#[test]
fn test_dead_peer_pruning_removes_stale_dead_peers() {
    let mut ps = make_peer_states();
    for port in 1..=5 {
        let a = addr(port);
        ps.add_if_not_seen(a, 0);
        ps.set_state(a, PeerState::Dead, 0);
    }
    assert_eq!(ps.len(), 5);
    // A moment later, with a retention of 0, all dead peers are pruned.
    let pruned = ps.prune_dead_peers(0, 1);
    assert_eq!(pruned, 5);
    assert_eq!(ps.len(), 0);
}

#[test]
fn test_dead_peer_pruning_removes_stale_not_needed_peers() {
    let mut ps = make_peer_states();
    for port in 1..=3 {
        let a = addr(port);
        ps.add_if_not_seen(a, 0);
        ps.mark_peer_not_needed(a, 0);
    }
    assert_eq!(ps.len(), 3);
    let pruned = ps.prune_dead_peers(0, 1);
    assert_eq!(pruned, 3);
    assert_eq!(ps.len(), 0);
}

#[test]
fn test_dead_peer_pruning_preserves_recent_peers() {
    let mut ps = make_peer_states();
    for port in 1..=5 {
        let a = addr(port);
        ps.add_if_not_seen(a, 0);
        ps.set_state(a, PeerState::Dead, 0);
    }
    // With one hour of retention, nothing is pruned a moment later.
    let pruned = ps.prune_dead_peers(3_600_000, 1);
    assert_eq!(pruned, 0);
    assert_eq!(ps.len(), 5);
}

#[test]
fn test_dead_peer_pruning_preserves_queued_and_connecting() {
    let mut ps = make_peer_states();
    let queued_addr = addr(1);
    ps.add_if_not_seen(queued_addr, 0);
    let dead_addr = addr(2);
    ps.add_if_not_seen(dead_addr, 0);
    ps.set_state(dead_addr, PeerState::Dead, 0);
    assert_eq!(ps.len(), 2);
    let pruned = ps.prune_dead_peers(0, 1);
    assert_eq!(pruned, 1);
    assert_eq!(ps.len(), 1);
    assert!(ps.get(queued_addr).is_some());
    assert!(ps.get(dead_addr).is_none());
}

#[test]
fn test_dead_peer_pruning_counters_are_decremented() {
    let mut ps = make_peer_states();
    for port in 1..=3 {
        let a = addr(port);
        ps.add_if_not_seen(a, 0);
        ps.set_state(a, PeerState::Dead, 0);
    }
    let stats_before = ps.stats();
    assert_eq!(stats_before.dead, 3);
    ps.prune_dead_peers(0, 1);
    let stats_after = ps.stats();
    assert_eq!(stats_after.dead, 0);
}

#[test]
fn peer_table_counters_follow_states() {
    let mut ps = PeerStates::new(AggregatePeerStats { queued: 10, ..zero() });
    assert_eq!(ps.add_if_not_seen(addr(7), 5), Some(addr(7)));
    assert_eq!(ps.add_if_not_seen(addr(7), 6), None);
    assert_eq!(ps.stats().queued, 1);
    assert_eq!(ps.stats().seen, 1);
    assert_eq!(ps.session_stats().queued, 11);
    assert_eq!(ps.set_state(addr(7), PeerState::Live, 9), Some(PeerState::Queued));
    assert_eq!(ps.stats().queued, 0);
    assert_eq!(ps.stats().live, 1);
    assert_eq!(ps.get(addr(7)).unwrap().last_state_change_ms, 9);
    assert_eq!(ps.set_state(addr(8), PeerState::Live, 9), None);
    let dropped = ps.drop_peer(addr(7)).unwrap();
    assert_eq!(dropped.state, PeerState::Live);
    assert_eq!(ps.stats().live, 0);
    assert_eq!(ps.session_stats().live, 0);
    assert!(ps.drop_peer(addr(7)).is_none());
}

#[test]
fn connecting_only_from_queued() {
    let mut ps = make_peer_states();
    let a = addr(1);
    assert_eq!(ps.mark_peer_connecting(a, 5), Err(PeerStatesError::PeerNotFound));
    ps.add_if_not_seen(a, 0);
    assert_eq!(ps.mark_peer_connecting(a, 5), Ok(()));
    assert_eq!(ps.get(a).unwrap().state, PeerState::Connecting);
    assert_eq!(ps.stats().queued, 0);
    assert_eq!(ps.stats().connecting, 1);
    assert_eq!(ps.session_stats().connecting, 1);
    assert_eq!(ps.mark_peer_connecting(a, 6), Err(PeerStatesError::InvalidPeerState));
    assert_eq!(ps.get(a).unwrap().last_state_change_ms, 5);
}

#[test]
fn test_semaphore_permit_returned_on_drop() {
    // Verify that OwnedSemaphorePermit releases on drop (RAII behavior).
    // This confirms our _permit_guard pattern works correctly.
    let sem = std::sync::Arc::new(tokio::sync::Semaphore::new(2));

    // Acquire 2 permits
    let p1 = sem.clone().try_acquire_owned().unwrap();
    let p2 = sem.clone().try_acquire_owned().unwrap();
    assert!(sem.clone().try_acquire_owned().is_err());

    // Drop one - should free a slot
    drop(p1);
    assert!(sem.clone().try_acquire_owned().is_ok());

    // Rename to _guard (simulating our pattern) and let it drop naturally
    let _guard = p2;
    // p2 is moved into _guard, will be dropped at end of scope

    drop(_guard);
    assert_eq!(sem.available_permits(), 2);
}

#[test]
fn handshake_slots_are_returned() {
    let mut slots = rtbit::incoming::HandshakeSlots::new(2);
    assert!(slots.try_acquire());
    assert!(slots.try_acquire());
    assert!(!slots.try_acquire());
    assert_eq!(slots.available(), 0);
    slots.release();
    assert_eq!(slots.available(), 1);
    assert!(slots.try_acquire());
    slots.release();
    slots.release();
    assert_eq!(slots.available(), 2);
    assert_eq!(rtbit::incoming::MAX_CONCURRENT_HANDSHAKES, 64);
}
