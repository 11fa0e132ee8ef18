use rtbit::super_seed::{PeerAddr, SuperSeedState};

fn v4(a: u8, b: u8, c: u8, d: u8, port: u16) -> PeerAddr {
    (false, u32::from_be_bytes([a, b, c, d]) as u128, port)
}

fn bits(byte: u8, n_bytes: usize) -> Vec<bool> {
    let mut out = Vec::new();
    for _ in 0..n_bytes {
        for k in 0..8 {
            out.push(byte & (0x80 >> k) != 0);
        }
    }
    out
}

#[test]
fn test_basic_super_seed_flow() {
    let mut ss = SuperSeedState::new(10, true);
    let peer_a = v4(1, 2, 3, 4, 1000);
    let peer_b = v4(5, 6, 7, 8, 2000);

    ss.on_peer_connected(peer_a);
    ss.on_peer_connected(peer_b);

    let our_bf = bits(0xFF, 2);
    let peer_bf = bits(0x00, 2);

    let p1 = ss.select_piece_for_peer(peer_a, &peer_bf, &our_bf);
    assert!(p1.is_some());

    let p1_again = ss.select_piece_for_peer(peer_a, &peer_bf, &our_bf);
    assert!(p1_again.is_none());

    let confirmed = ss.on_have_received(peer_b, p1.unwrap());
    assert_eq!(confirmed.len(), 1);
    assert_eq!(confirmed[0], peer_a);

    let p2 = ss.select_piece_for_peer(peer_a, &peer_bf, &our_bf);
    assert!(p2.is_some());
    assert_ne!(p1, p2);
}

#[test]
fn test_disabled_super_seed() {
    let mut ss = SuperSeedState::new(10, false);
    let peer = v4(1, 2, 3, 4, 1000);
    ss.on_peer_connected(peer);

    let our_bf = bits(0xFF, 2);
    let peer_bf = bits(0x00, 2);

    assert!(ss.select_piece_for_peer(peer, &peer_bf, &our_bf).is_none());
}

#[test]
fn test_toggle_super_seed() {
    let mut ss = SuperSeedState::new(10, false);
    assert!(!ss.is_enabled());

    ss.set_enabled(true);
    assert!(ss.is_enabled());

    let peer = v4(1, 2, 3, 4, 1000);
    ss.on_peer_connected(peer);

    let our_bf = bits(0xFF, 2);
    let peer_bf = bits(0x00, 2);

    assert!(ss.select_piece_for_peer(peer, &peer_bf, &our_bf).is_some());

    ss.set_enabled(false);
    assert!(!ss.is_enabled());
    assert!(ss.select_piece_for_peer(peer, &peer_bf, &our_bf).is_none());
}

#[test]
fn super_seed_offers_least_distributed_piece_peer_lacks() {
    let mut ss = SuperSeedState::new(4, true);
    let a = v4(10, 0, 0, 1, 1);
    let b = v4(10, 0, 0, 2, 2);
    ss.on_peer_connected(a);
    ss.on_peer_connected(b);
    let ours = vec![true; 4];
    // a has pieces 0 and 1 already
    let a_has = vec![true, true, false, false];
    assert_eq!(ss.select_piece_for_peer(a, &a_has, &ours), Some(2));
    // b has nothing; piece 2 was offered once, so b gets piece 0
    assert_eq!(ss.select_piece_for_peer(b, &[false; 4], &ours), Some(0));
    // a disconnected peer leaves nothing behind to confirm
    ss.on_peer_disconnected(a);
    assert!(ss.on_have_received(b, 2).is_empty());
}

#[test]
fn super_seed_unknown_peer_gets_nothing() {
    let mut ss = SuperSeedState::new(4, true);
    let ours = vec![true; 4];
    assert_eq!(ss.select_piece_for_peer(v4(9, 9, 9, 9, 9), &[false; 4], &ours), None);
}
