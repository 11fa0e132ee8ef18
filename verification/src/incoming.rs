//! The checks an incoming peer connection passes before it is handed to a
//! torrent: the address lists, the choice between an MSE and a plain
//! handshake under the encryption mode, and the peer's BitTorrent handshake.
use vstd::prelude::*;
use crate::mse::EncryptionMode;

verus! {

/// Why an incoming connection is refused.
#[derive(Debug, Clone, Copy, PartialEq, Eq, Structural)]
pub enum IncomingRefusal {
    /// The address is on the blocklist.
    Blocked,
    /// There is an allowlist and the address is not on it.
    NotAllowed,
    /// The peer speaks MSE but encryption is disabled.
    EncryptionDisabled,
    /// The peer speaks plain BitTorrent but encryption is forced.
    EncryptionForced,
    /// The peer id is our own: we connected to ourselves.
    SelfConnection,
    /// The handshake's info hash is not the one MSE negotiated.
    InfoHashMismatch,
    /// The handshake's info hash names no torrent of the session.
    UnknownTorrent,
}

/// The address check: refused when blocklisted, or when an allowlist exists
/// (`allowlisted` is `Some`) and does not hold the address.
pub fn check_address(blocklisted: bool, allowlisted: Option<bool>) -> (r: Result<(), IncomingRefusal>)
    ensures
        r == (if blocklisted {
            Err(IncomingRefusal::Blocked)
        } else if allowlisted == Some(false) {
            Err(IncomingRefusal::NotAllowed)
        } else {
            Ok(())
        }),
{
    if blocklisted {
        return Err(IncomingRefusal::Blocked);
    }
    match allowlisted {
        Some(false) => Err(IncomingRefusal::NotAllowed),
        _ => Ok(()),
    }
}

/// Whether the connection speaks MSE, from its first byte, and whether the
/// mode lets it: MSE needs encryption not disabled, a plain handshake needs
/// it not forced.
pub open spec fn protocol_choice(first_byte: u8, mode: EncryptionMode) -> Result<bool, IncomingRefusal> {
    let is_mse = first_byte != crate::mse::BT_HANDSHAKE_FIRST_BYTE;
    if is_mse && mode == EncryptionMode::Disabled {
        Err(IncomingRefusal::EncryptionDisabled)
    } else if !is_mse && mode == EncryptionMode::Forced {
        Err(IncomingRefusal::EncryptionForced)
    } else {
        Ok(is_mse)
    }
}

/// Decides between an MSE and a plain handshake.
pub fn choose_protocol(first_byte: u8, mode: EncryptionMode) -> (r: Result<bool, IncomingRefusal>)
    ensures
        r == protocol_choice(first_byte, mode),
{
    let is_mse = crate::mse::handshake::detect_mse(first_byte);
    match mode {
        EncryptionMode::Disabled => {
            if is_mse {
                return Err(IncomingRefusal::EncryptionDisabled);
            }
        },
        EncryptionMode::Forced => {
            if !is_mse {
                return Err(IncomingRefusal::EncryptionForced);
            }
        },
        EncryptionMode::Enabled => {},
    }
    Ok(is_mse)
}

/// The check of the peer's BitTorrent handshake: its peer id must not be
/// ours, and after MSE its info hash must be the negotiated one.
pub fn check_peer_handshake(
    peer_id: &[u8; 20],
    our_id: &[u8; 20],
    info_hash: &[u8; 20],
    negotiated: Option<&[u8; 20]>,
) -> (r: Result<(), IncomingRefusal>)
    ensures
        r == (if peer_id@ == our_id@ {
            Err(IncomingRefusal::SelfConnection)
        } else if negotiated matches Some(n) && n@ != info_hash@ {
            Err(IncomingRefusal::InfoHashMismatch)
        } else {
            Ok(())
        }),
{
    if crate::bencode::bytes_equal(peer_id.as_slice(), our_id.as_slice()) {
        return Err(IncomingRefusal::SelfConnection);
    }
    match negotiated {
        Some(n) => {
            if !crate::bencode::bytes_equal(n.as_slice(), info_hash.as_slice()) {
                return Err(IncomingRefusal::InfoHashMismatch);
            }
            Ok(())
        },
        None => Ok(()),
    }
}

/// Where the checks of an incoming connection stand.
#[derive(Debug, Clone, Copy)]
pub enum IncomingStage {
    /// The peer's address is to be checked.
    Address,
    /// The connection's first byte is to be read.
    FirstByte,
    /// The MSE responder handshake runs, over the session's info hashes.
    Mse,
    /// The peer's BitTorrent handshake is to be read; after MSE, with the
    /// info hash that MSE matched.
    Handshake(Option<[u8; 20]>),
    /// The connection was accepted or refused.
    Done,
}

/// What happened on an incoming connection.
#[derive(Debug, Clone, Copy)]
pub enum IncomingEvent {
    /// The peer's address was looked up in the blocklist and, when there is
    /// one, in the allowlist.
    Address { blocklisted: bool, allowlisted: Option<bool> },
    /// The connection's first byte arrived.
    FirstByte(u8),
    /// The MSE responder handshake succeeded for this info hash.
    MseMatched([u8; 20]),
    /// The peer's BitTorrent handshake arrived.
    Handshake { peer_id: [u8; 20], info_hash: [u8; 20] },
}

/// What to do next with an incoming connection.
#[derive(Debug, Clone, Copy)]
pub enum IncomingAction {
    /// Read the first byte.
    ReadFirstByte,
    /// Run the MSE responder handshake, the first byte put back in front.
    RunMse,
    /// Read the peer's BitTorrent handshake (plain, the first byte put back
    /// in front, or inside the MSE stream).
    ReadHandshake,
    /// Hand the connection to the session's torrent with this info hash.
    Accept([u8; 20]),
    /// Close the connection.
    Refuse(IncomingRefusal),
}

/// The event is the one the stage waits for.
pub open spec fn fits(stage: IncomingStage, event: IncomingEvent) -> bool {
    match (stage, event) {
        (IncomingStage::Address, IncomingEvent::Address { .. }) => true,
        (IncomingStage::FirstByte, IncomingEvent::FirstByte(_)) => true,
        (IncomingStage::Mse, IncomingEvent::MseMatched(_)) => true,
        (IncomingStage::Handshake(_), IncomingEvent::Handshake { .. }) => true,
        _ => false,
    }
}

/// Some torrent of the session has the info hash `h`.
pub open spec fn names_torrent(torrents: Seq<[u8; 20]>, h: Seq<u8>) -> bool {
    exists|k: int| 0 <= k < torrents.len() && #[trigger] torrents[k]@ == h
}

/// The next stage and action of an incoming connection, in the order the
/// checks run: the address lists, then the protocol the first byte shows
/// under the encryption mode, then (after MSE) the matched info hash, and
/// last the peer's handshake: not our own peer id, after MSE the matched
/// info hash, and an info hash of one of the session's torrents.
pub open spec fn incoming_next(
    stage: IncomingStage,
    event: IncomingEvent,
    our_id: Seq<u8>,
    mode: EncryptionMode,
    torrents: Seq<[u8; 20]>,
) -> (IncomingStage, IncomingAction) {
    match event {
        IncomingEvent::Address { blocklisted, allowlisted } => if blocklisted {
            (IncomingStage::Done, IncomingAction::Refuse(IncomingRefusal::Blocked))
        } else if allowlisted == Some(false) {
            (IncomingStage::Done, IncomingAction::Refuse(IncomingRefusal::NotAllowed))
        } else {
            (IncomingStage::FirstByte, IncomingAction::ReadFirstByte)
        },
        IncomingEvent::FirstByte(b) => match protocol_choice(b, mode) {
            Err(e) => (IncomingStage::Done, IncomingAction::Refuse(e)),
            Ok(is_mse) => if is_mse {
                (IncomingStage::Mse, IncomingAction::RunMse)
            } else {
                (IncomingStage::Handshake(None), IncomingAction::ReadHandshake)
            },
        },
        IncomingEvent::MseMatched(h) => (IncomingStage::Handshake(Some(h)), IncomingAction::ReadHandshake),
        IncomingEvent::Handshake { peer_id, info_hash } => {
            let negotiated = match stage {
                IncomingStage::Handshake(n) => n,
                _ => None,
            };
            if peer_id@ == our_id {
                (IncomingStage::Done, IncomingAction::Refuse(IncomingRefusal::SelfConnection))
            } else if negotiated matches Some(n) && n@ != info_hash@ {
                (IncomingStage::Done, IncomingAction::Refuse(IncomingRefusal::InfoHashMismatch))
            } else if !names_torrent(torrents, info_hash@) {
                (IncomingStage::Done, IncomingAction::Refuse(IncomingRefusal::UnknownTorrent))
            } else {
                (IncomingStage::Done, IncomingAction::Accept(info_hash))
            }
        },
    }
}

/// A refusal by the address lists, which the session counts as a blocked
/// incoming connection.
pub open spec fn counted_as_blocked(a: IncomingAction) -> bool {
    a matches IncomingAction::Refuse(e) && (e == IncomingRefusal::Blocked || e == IncomingRefusal::NotAllowed)
}

/// A counter one up, wrapping around at the top.
pub open spec fn count_up(c: u64) -> u64 {
    if c == u64::MAX {
        0
    } else {
        (c + 1) as u64
    }
}

/// Whether the event is the one the stage waits for.
pub fn event_fits(stage: &IncomingStage, event: &IncomingEvent) -> (r: bool)
    ensures
        r == fits(*stage, *event),
{
    match (stage, event) {
        (IncomingStage::Address, IncomingEvent::Address { .. }) => true,
        (IncomingStage::FirstByte, IncomingEvent::FirstByte(_)) => true,
        (IncomingStage::Mse, IncomingEvent::MseMatched(_)) => true,
        (IncomingStage::Handshake(_), IncomingEvent::Handshake { .. }) => true,
        _ => false,
    }
}

fn find_torrent(torrents: &Vec<[u8; 20]>, h: &[u8; 20]) -> (r: bool)
    ensures
        r == names_torrent(torrents@, h@),
{
    let mut k: usize = 0;
    while k < torrents.len()
        invariant
            0 <= k <= torrents@.len(),
            forall|m: int| 0 <= m < k ==> torrents@[m]@ != h@,
        decreases torrents@.len() - k,
    {
        if crate::bencode::bytes_equal(torrents[k].as_slice(), h.as_slice()) {
            assert(torrents@[k as int]@ == h@);
            return true;
        }
        k = k + 1;
    }
    false
}

/// One step of the checks of an incoming connection: from where they stand
/// and what happened, the next stage and what to do. A refusal by the
/// address lists counts one more blocked incoming connection.
pub fn incoming_step(
    stage: IncomingStage,
    event: IncomingEvent,
    our_id: &[u8; 20],
    mode: EncryptionMode,
    torrents: &Vec<[u8; 20]>,
    blocked_incoming: &mut u64,
) -> (r: (IncomingStage, IncomingAction))
    requires
        fits(stage, event),
    ensures
        r == incoming_next(stage, event, our_id@, mode, torrents@),
        *final(blocked_incoming) == if counted_as_blocked(r.1) {
            count_up(*old(blocked_incoming))
        } else {
            *old(blocked_incoming)
        },
{
    match event {
        IncomingEvent::Address { blocklisted, allowlisted } => {
            match check_address(blocklisted, allowlisted) {
                Err(e) => {
                    *blocked_incoming = if *blocked_incoming == u64::MAX { 0 } else { *blocked_incoming + 1 };
                    (IncomingStage::Done, IncomingAction::Refuse(e))
                },
                Ok(()) => (IncomingStage::FirstByte, IncomingAction::ReadFirstByte),
            }
        },
        IncomingEvent::FirstByte(b) => match choose_protocol(b, mode) {
            Err(e) => (IncomingStage::Done, IncomingAction::Refuse(e)),
            Ok(is_mse) => if is_mse {
                (IncomingStage::Mse, IncomingAction::RunMse)
            } else {
                (IncomingStage::Handshake(None), IncomingAction::ReadHandshake)
            },
        },
        IncomingEvent::MseMatched(h) => (IncomingStage::Handshake(Some(h)), IncomingAction::ReadHandshake),
        IncomingEvent::Handshake { peer_id, info_hash } => {
            let negotiated = match stage {
                IncomingStage::Handshake(n) => n,
                _ => None,
            };
            let checked = match &negotiated {
                Some(n) => check_peer_handshake(&peer_id, our_id, &info_hash, Some(n)),
                None => check_peer_handshake(&peer_id, our_id, &info_hash, None),
            };
            match checked {
                Err(e) => (IncomingStage::Done, IncomingAction::Refuse(e)),
                Ok(()) => if find_torrent(torrents, &info_hash) {
                    (IncomingStage::Done, IncomingAction::Accept(info_hash))
                } else {
                    (IncomingStage::Done, IncomingAction::Refuse(IncomingRefusal::UnknownTorrent))
                },
            }
        },
    }
}

/// An accepted connection passed every check: the peer is not ourselves, its
/// handshake names a torrent of the session, and after MSE that torrent's
/// info hash is the one MSE matched.
pub proof fn lemma_accepted_is_checked(
    negotiated: Option<[u8; 20]>,
    peer_id: [u8; 20],
    info_hash: [u8; 20],
    our_id: Seq<u8>,
    mode: EncryptionMode,
    torrents: Seq<[u8; 20]>,
    h: [u8; 20],
)
    requires
        incoming_next(IncomingStage::Handshake(negotiated), IncomingEvent::Handshake { peer_id, info_hash }, our_id, mode, torrents).1
            == IncomingAction::Accept(h),
    ensures
        h == info_hash,
        peer_id@ != our_id,
        names_torrent(torrents, h@),
        negotiated matches Some(n) ==> n@ == h@,
{
}

/// Only the address lists refuse a connection at its first step, and a
/// connection they let through goes on to its first byte.
pub proof fn lemma_address_first(blocklisted: bool, allowlisted: Option<bool>, our_id: Seq<u8>, mode: EncryptionMode, torrents: Seq<[u8; 20]>)
    ensures
        ({
            let r = incoming_next(IncomingStage::Address, IncomingEvent::Address { blocklisted, allowlisted }, our_id, mode, torrents);
            &&& (blocklisted || allowlisted == Some(false)) <==> counted_as_blocked(r.1)
            &&& !counted_as_blocked(r.1) ==> r == (IncomingStage::FirstByte, IncomingAction::ReadFirstByte)
        }),
{
}

/// The most incoming handshakes that run at once.
pub const MAX_CONCURRENT_HANDSHAKES: usize = 64;

/// The slots for incoming handshakes: a connection is taken only while a
/// slot is free, and its slot is given back when its handshake ends.
pub struct HandshakeSlots {
    in_use: usize,
    max: usize,
}

impl View for HandshakeSlots {
    type V = (nat, nat);

    /// The slots in use and the number of slots.
    closed spec fn view(&self) -> (nat, nat) {
        (self.in_use as nat, self.max as nat)
    }
}

/// The slots after a connection takes a free slot.
pub open spec fn after_acquire(v: (nat, nat)) -> (nat, nat) {
    (v.0 + 1, v.1)
}

/// The slots after a slot is given back.
pub open spec fn after_release(v: (nat, nat)) -> (nat, nat) {
    ((v.0 - 1) as nat, v.1)
}

impl HandshakeSlots {
    /// No more slots are in use than there are.
    pub closed spec fn wf(&self) -> bool {
        self.in_use <= self.max
    }

    /// `max` free slots.
    pub fn new(max: usize) -> (s: HandshakeSlots)
        ensures
            s.wf(),
            s@ == (0nat, max as nat),
    {
        HandshakeSlots { in_use: 0, max }
    }

    /// Takes a slot for a new connection, if one is free; a connection that
    /// gets none is dropped.
    pub fn try_acquire(&mut self) -> (taken: bool)
        requires
            old(self).wf(),
        ensures
            final(self).wf(),
            taken == (old(self)@.0 < old(self)@.1),
            final(self)@ == if taken { after_acquire(old(self)@) } else { old(self)@ },
    {
        if self.in_use < self.max {
            self.in_use = self.in_use + 1;
            true
        } else {
            false
        }
    }

    /// Gives a slot back when a handshake has ended.
    pub fn release(&mut self)
        requires
            old(self).wf(),
            old(self)@.0 > 0,
        ensures
            final(self).wf(),
            final(self)@ == after_release(old(self)@),
    {
        self.in_use = self.in_use - 1;
    }

    /// The slots free now.
    pub fn available(&self) -> (n: usize)
        requires
            self.wf(),
        ensures
            n == self@.1 - self@.0,
    {
        self.max - self.in_use
    }
}

/// A slot given back is free again: when a connection takes a free slot
/// and its handshake ends, the slots are as they were.
pub proof fn lemma_release_restores(v: (nat, nat))
    requires
        v.0 < v.1,
    ensures
        after_release(after_acquire(v)) == v,
        after_acquire(v).0 <= after_acquire(v).1,
{
}

} // verus!
