use rtbit::incoming::{event_fits, incoming_step, IncomingAction, IncomingEvent, IncomingRefusal, IncomingStage};
use rtbit::mse::EncryptionMode;

const OURS: [u8; 20] = [9u8; 20];

fn torrents() -> Vec<[u8; 20]> {
    vec![[1u8; 20], [2u8; 20]]
}

/// Runs the events through the checks; gives the last action and the count
/// of blocked connections.
fn run(mode: EncryptionMode, events: &[IncomingEvent]) -> (IncomingAction, u64) {
    let mut stage = IncomingStage::Address;
    let mut blocked = 0u64;
    let mut last = IncomingAction::ReadFirstByte;
    for e in events {
        assert!(event_fits(&stage, e));
        let (next, action) = incoming_step(stage, *e, &OURS, mode, &torrents(), &mut blocked);
        stage = next;
        last = action;
    }
    (last, blocked)
}

fn address_ok() -> IncomingEvent {
    IncomingEvent::Address { blocklisted: false, allowlisted: None }
}

#[test]
fn blocked_addresses_are_counted_and_refused() {
    let (a, n) = run(EncryptionMode::Enabled, &[IncomingEvent::Address { blocklisted: true, allowlisted: Some(true) }]);
    assert!(matches!(a, IncomingAction::Refuse(IncomingRefusal::Blocked)));
    assert_eq!(n, 1);
    let (a, n) = run(EncryptionMode::Enabled, &[IncomingEvent::Address { blocklisted: false, allowlisted: Some(false) }]);
    assert!(matches!(a, IncomingAction::Refuse(IncomingRefusal::NotAllowed)));
    assert_eq!(n, 1);
    let (a, n) = run(EncryptionMode::Enabled, &[IncomingEvent::Address { blocklisted: false, allowlisted: Some(true) }]);
    assert!(matches!(a, IncomingAction::ReadFirstByte));
    assert_eq!(n, 0);
}

#[test]
fn blocked_counter_wraps() {
    let mut blocked = u64::MAX;
    let ev = IncomingEvent::Address { blocklisted: true, allowlisted: None };
    incoming_step(IncomingStage::Address, ev, &OURS, EncryptionMode::Enabled, &torrents(), &mut blocked);
    assert_eq!(blocked, 0);
}

#[test]
fn plain_handshake_for_a_session_torrent_is_accepted() {
    let hs = IncomingEvent::Handshake { peer_id: [5u8; 20], info_hash: [2u8; 20] };
    let (a, n) = run(EncryptionMode::Enabled, &[address_ok(), IncomingEvent::FirstByte(0x13), hs]);
    assert!(matches!(a, IncomingAction::Accept(h) if h == [2u8; 20]));
    assert_eq!(n, 0);
}

#[test]
fn protocol_must_suit_the_encryption_mode() {
    let (a, _) = run(EncryptionMode::Forced, &[address_ok(), IncomingEvent::FirstByte(0x13)]);
    assert!(matches!(a, IncomingAction::Refuse(IncomingRefusal::EncryptionForced)));
    let (a, _) = run(EncryptionMode::Disabled, &[address_ok(), IncomingEvent::FirstByte(0x42)]);
    assert!(matches!(a, IncomingAction::Refuse(IncomingRefusal::EncryptionDisabled)));
    let (a, _) = run(EncryptionMode::Forced, &[address_ok(), IncomingEvent::FirstByte(0x42)]);
    assert!(matches!(a, IncomingAction::RunMse));
}

#[test]
fn handshake_after_mse_must_match_and_name_a_torrent() {
    let mse = [address_ok(), IncomingEvent::FirstByte(0x42), IncomingEvent::MseMatched([1u8; 20])];
    let mut evs = mse.to_vec();
    evs.push(IncomingEvent::Handshake { peer_id: [5u8; 20], info_hash: [2u8; 20] });
    let (a, _) = run(EncryptionMode::Enabled, &evs);
    assert!(matches!(a, IncomingAction::Refuse(IncomingRefusal::InfoHashMismatch)));
    let mut evs = mse.to_vec();
    evs.push(IncomingEvent::Handshake { peer_id: [5u8; 20], info_hash: [1u8; 20] });
    let (a, _) = run(EncryptionMode::Enabled, &evs);
    assert!(matches!(a, IncomingAction::Accept(h) if h == [1u8; 20]));
}

#[test]
fn self_connection_and_unknown_torrent_are_refused() {
    let hs = IncomingEvent::Handshake { peer_id: OURS, info_hash: [1u8; 20] };
    let (a, _) = run(EncryptionMode::Enabled, &[address_ok(), IncomingEvent::FirstByte(0x13), hs]);
    assert!(matches!(a, IncomingAction::Refuse(IncomingRefusal::SelfConnection)));
    let hs = IncomingEvent::Handshake { peer_id: [5u8; 20], info_hash: [7u8; 20] };
    let (a, _) = run(EncryptionMode::Enabled, &[address_ok(), IncomingEvent::FirstByte(0x13), hs]);
    assert!(matches!(a, IncomingAction::Refuse(IncomingRefusal::UnknownTorrent)));
}

#[test]
fn events_out_of_order_do_not_fit() {
    assert!(!event_fits(&IncomingStage::Address, &IncomingEvent::FirstByte(0x13)));
    assert!(!event_fits(&IncomingStage::Done, &address_ok()));
}
