use rtbit::peer_store::{Id20, PeerStore, StoredPeer, StoredToken, Want};
use rtbit::super_seed::PeerAddr;

const MINUTE: i64 = 60 * 1000;

fn v4(last: u8, port: u16) -> PeerAddr {
    (false, u32::from_be_bytes([10, 0, 0, last]) as u128, port)
}

fn v6(port: u16) -> PeerAddr {
    (true, 0x2001_0db8_0000_0000_0000_0000_0000_0001u128, port)
}

fn node(n: u8) -> Id20 {
    let mut id = [0u8; 20];
    id[19] = n;
    id
}

/// Hands a token to `addr` and announces it for `ih`.
fn announce(store: &mut PeerStore, ih: &Id20, addr: PeerAddr, port: u16, now: i64) -> bool {
    let n = node(7);
    let token = store.gen_token_for(n, addr, now);
    store.store_peer(ih, &token, &n, port, false, addr, now)
}

#[test]
fn stored_peer_is_found_with_announced_port() {
    let mut store = PeerStore::new([0u8; 20]);
    let ih = [0u8; 20];
    let a = v4(1, 5000);
    assert!(announce(&mut store, &ih, a, 6881, 0));
    assert_eq!(store.get_for_info_hash(&ih, Want::Both), vec![v4(1, 6881)]);
    assert_eq!(store.get_for_info_hash(&ih, Want::V4), vec![v4(1, 6881)]);
    assert!(store.get_for_info_hash(&ih, Want::V6).is_empty());
}

#[test]
fn implied_port_keeps_source_port() {
    let mut store = PeerStore::new([0u8; 20]);
    let ih = [1u8; 20];
    let mut near = ih;
    near[0] = 0;
    near[1] = 0;
    near[2] = 0;
    let a = v4(2, 5000);
    let n = node(3);
    let token = store.gen_token_for(n, a, 0);
    assert!(store.store_peer(&near, &token, &n, 6881, true, a, 0));
    assert_eq!(store.get_for_info_hash(&near, Want::Both), vec![a]);
}

#[test]
fn unknown_token_is_refused() {
    let mut store = PeerStore::new([0u8; 20]);
    let ih = [0u8; 20];
    let a = v4(1, 5000);
    let n = node(1);
    let token = store.gen_token_for(n, a, 0);
    let other = [token[0] ^ 1, token[1], token[2], token[3]];
    assert!(!store.store_peer(&ih, &other, &n, 6881, false, a, 0));
    // The token only admits the node and the address it was handed to.
    assert!(!store.store_peer(&ih, &token, &node(2), 6881, false, a, 0));
    assert!(!store.store_peer(&ih, &token, &n, 6881, false, v4(9, 5000), 0));
    assert!(store.get_for_info_hash(&ih, Want::Both).is_empty());
}

#[test]
fn far_info_hash_is_refused() {
    let mut store = PeerStore::new([0u8; 20]);
    let far = [0xffu8; 20];
    assert!(!announce(&mut store, &far, v4(1, 5000), 6881, 0));
    assert!(store.get_for_info_hash(&far, Want::Both).is_empty());
    // Exactly at the maximum distance is still close enough.
    let mut edge = [0xffu8; 20];
    edge[0] = 0;
    edge[1] = 0;
    edge[2] = 0x0f;
    assert!(announce(&mut store, &edge, v4(1, 5000), 6881, 0));
}

#[test]
fn reannounce_does_not_duplicate() {
    let mut store = PeerStore::new([0u8; 20]);
    let ih = [0u8; 20];
    assert!(announce(&mut store, &ih, v4(1, 5000), 6881, 0));
    assert!(announce(&mut store, &ih, v4(1, 5000), 6881, MINUTE));
    assert!(announce(&mut store, &ih, v6(5000), 6881, MINUTE));
    assert_eq!(store.get_for_info_hash(&ih, Want::Both), vec![v4(1, 6881), v6(6881)]);
    assert_eq!(store.get_for_info_hash(&ih, Want::V6), vec![v6(6881)]);
}

#[test]
fn gc_expires_old_peers() {
    let mut store = PeerStore::new([0u8; 20]);
    let ih = [0u8; 20];
    assert!(announce(&mut store, &ih, v4(1, 5000), 6881, 0));
    assert!(announce(&mut store, &ih, v4(2, 5000), 6881, 10 * MINUTE));
    store.garbage_collect_peers(14 * MINUTE);
    assert_eq!(store.get_for_info_hash(&ih, Want::Both), vec![v4(1, 6881), v4(2, 6881)]);
    store.garbage_collect_peers(16 * MINUTE);
    assert_eq!(store.get_for_info_hash(&ih, Want::Both), vec![v4(2, 6881)]);
    store.garbage_collect_peers(30 * MINUTE);
    assert!(store.get_for_info_hash(&ih, Want::Both).is_empty());
}

#[test]
fn gc_expires_old_tokens() {
    let mut store = PeerStore::new([0u8; 20]);
    let ih = [0u8; 20];
    let a = v4(1, 5000);
    let n = node(1);
    let token = store.gen_token_for(n, a, 0);
    store.garbage_collect_peers(11 * MINUTE);
    assert!(!store.store_peer(&ih, &token, &n, 6881, false, a, 11 * MINUTE));
    let fresh = store.gen_token_for(n, a, 11 * MINUTE);
    store.garbage_collect_peers(12 * MINUTE);
    assert!(store.store_peer(&ih, &fresh, &n, 6881, false, a, 12 * MINUTE));
}

#[test]
fn gc_keeps_newest_hundred_per_info_hash() {
    let mut store = PeerStore::new([0u8; 20]);
    let ih = [0u8; 20];
    for k in 0..150u16 {
        let a = (false, 0x0a00_0000u128 + k as u128, 5000);
        assert!(announce(&mut store, &ih, a, 6000 + k, k as i64));
    }
    assert_eq!(store.get_for_info_hash(&ih, Want::Both).len(), 150);
    store.garbage_collect_peers(1000);
    let kept = store.get_for_info_hash(&ih, Want::Both);
    assert_eq!(kept.len(), 100);
    // The hundred most recent, newest first.
    assert_eq!(kept[0], (false, 0x0a00_0000u128 + 149, 6149));
    assert_eq!(kept[99], (false, 0x0a00_0000u128 + 50, 6050));
}

#[test]
fn tokens_are_random() {
    let mut store = PeerStore::new([0u8; 20]);
    let a = v4(1, 5000);
    let t1 = store.gen_token_for(node(1), a, 0);
    let t2 = store.gen_token_for(node(1), a, 0);
    let t3 = store.gen_token_for(node(1), a, 0);
    assert!(t1 != t2 || t2 != t3);
}

#[test]
fn store_read_back_from_parts() {
    let ih = [0u8; 20];
    let peers = vec![(ih, vec![StoredPeer { addr: v4(1, 6881), time_ms: 0 }, StoredPeer { addr: v4(2, 6881), time_ms: 0 }])];
    let tokens = vec![StoredToken { token: [1, 2, 3, 4], node_id: node(7), addr: v4(1, 5000), time_ms: 0 }];
    let mut max_distance = [0xffu8; 20];
    max_distance[0] = 0;
    max_distance[1] = 0;
    max_distance[2] = 0x0f;
    let mut store = PeerStore::from_parts([0u8; 20], 1000, 2, max_distance, tokens, peers);
    assert_eq!(store.get_for_info_hash(&ih, Want::V4), vec![v4(1, 6881), v4(2, 6881)]);
    // The count comes from the entries: the store is full at two peers.
    let mut other = [0u8; 20];
    other[19] = 1;
    assert!(!store.store_peer(&other, &[1, 2, 3, 4], &node(7), 6881, true, v4(1, 5000), 1));
    // A stored peer that announces again is still taken, full or not.
    assert!(store.store_peer(&ih, &[1, 2, 3, 4], &node(7), 6881, false, v4(1, 5000), 1));
}

fn hash(n: u8) -> Id20 {
    let mut h = [0u8; 20];
    h[19] = n;
    h
}

fn store_with(max_peers: u32, peers: Vec<(Id20, Vec<StoredPeer>)>) -> PeerStore {
    let mut max_distance = [0xffu8; 20];
    max_distance[0] = 0;
    max_distance[1] = 0;
    max_distance[2] = 0x0f;
    PeerStore::from_parts([0u8; 20], 1000, max_peers, max_distance, Vec::new(), peers)
}

#[test]
fn gc_evicts_the_oldest_peers_across_info_hashes() {
    // A holds peers seen at t1 and t3, B one seen at t2; one peer may stay.
    let (t1, t2, t3) = (MINUTE, 2 * MINUTE, 3 * MINUTE);
    let a = vec![StoredPeer { addr: v4(1, 1), time_ms: t1 }, StoredPeer { addr: v4(3, 3), time_ms: t3 }];
    let b = vec![StoredPeer { addr: v4(2, 2), time_ms: t2 }];
    let mut store = store_with(1, vec![(hash(1), a), (hash(2), b)]);
    store.garbage_collect_peers(4 * MINUTE);
    assert_eq!(store.get_for_info_hash(&hash(1), Want::Both), vec![v4(3, 3)]);
    assert!(store.get_for_info_hash(&hash(2), Want::Both).is_empty());
}

#[test]
fn gc_evicts_exactly_the_excess() {
    let ps = |base: u8, times: &[i64]| -> Vec<StoredPeer> {
        times.iter().enumerate().map(|(k, t)| StoredPeer { addr: v4(base + k as u8, 1), time_ms: *t }).collect()
    };
    let mut store = store_with(3, vec![
        (hash(1), ps(10, &[5 * MINUTE, MINUTE])),
        (hash(2), ps(20, &[2 * MINUTE, 6 * MINUTE])),
        (hash(3), ps(30, &[4 * MINUTE])),
    ]);
    store.garbage_collect_peers(7 * MINUTE);
    // Five peers, three remembered: those seen at minutes 1 and 2 go.
    assert_eq!(store.get_for_info_hash(&hash(1), Want::Both), vec![v4(10, 1)]);
    assert_eq!(store.get_for_info_hash(&hash(2), Want::Both), vec![v4(21, 1)]);
    assert_eq!(store.get_for_info_hash(&hash(3), Want::Both), vec![v4(30, 1)]);
}

#[test]
fn gc_evicts_ties_in_entry_order() {
    let t = MINUTE;
    let a = vec![StoredPeer { addr: v4(1, 1), time_ms: t }, StoredPeer { addr: v4(2, 2), time_ms: t }];
    let b = vec![StoredPeer { addr: v4(3, 3), time_ms: t }];
    let mut store = store_with(1, vec![(hash(1), a), (hash(2), b)]);
    store.garbage_collect_peers(2 * MINUTE);
    assert!(store.get_for_info_hash(&hash(1), Want::Both).is_empty());
    assert_eq!(store.get_for_info_hash(&hash(2), Want::Both), vec![v4(3, 3)]);
}
