//! Super-seeding (BEP 16).
//!
//! In super-seed mode, the seeder pretends to have no pieces and selectively
//! reveals one piece at a time to each peer via HAVE messages. A new piece is
//! only revealed after the previously-offered piece has been observed at another
//! peer (confirming propagation).
use vstd::prelude::*;

verus! {

/// A peer's socket address: whether it is IPv6, the address bits (an IPv4
/// address in its low 32 bits) and the port.
pub type PeerAddr = (bool, u128, u16);

/// Tracks per-peer state for super-seeding.
#[derive(Debug, Clone, Copy)]
pub struct PeerSuperSeedState {
    /// The raw piece index we last offered to this peer (via HAVE).
    pub last_offered_piece: Option<u32>,
    /// Whether the peer's last offered piece has been confirmed as
    /// propagated (seen at another peer).
    pub piece_propagated: bool,
}

/// The abstract super-seed state.
pub struct SuperSeedView {
    pub enabled: bool,
    /// Per-peer tracking, each address once.
    pub peers: Seq<(PeerAddr, PeerSuperSeedState)>,
    /// How many distinct peers have received each piece via super-seed HAVE.
    pub piece_distribution_count: Seq<u32>,
}

/// Global super-seed state shared across all peers for one torrent.
pub struct SuperSeedState {
    enabled: bool,
    peers: Vec<(PeerAddr, PeerSuperSeedState)>,
    piece_distribution_count: Vec<u32>,
}

impl View for SuperSeedState {
    type V = SuperSeedView;

    closed spec fn view(&self) -> SuperSeedView {
        SuperSeedView {
            enabled: self.enabled,
            peers: self.peers@,
            piece_distribution_count: self.piece_distribution_count@,
        }
    }
}

/// Each address at most once.
pub open spec fn addrs_unique(peers: Seq<(PeerAddr, PeerSuperSeedState)>) -> bool {
    forall|i: int, j: int| 0 <= i < j < peers.len() ==> #[trigger] peers[i].0 != #[trigger] peers[j].0
}

/// The index of the entry for `addr`.
pub open spec fn peer_index(peers: Seq<(PeerAddr, PeerSuperSeedState)>, addr: PeerAddr) -> Option<int>
    decreases peers.len(),
{
    if peers.len() == 0 {
        None
    } else if peers.last().0 == addr {
        Some(peers.len() - 1)
    } else {
        peer_index(peers.drop_last(), addr)
    }
}

/// The peers with `addr` tracked afresh: nothing offered yet, and the first
/// piece may be offered at once.
pub open spec fn with_peer(peers: Seq<(PeerAddr, PeerSuperSeedState)>, addr: PeerAddr) -> Seq<(PeerAddr, PeerSuperSeedState)> {
    let fresh = PeerSuperSeedState { last_offered_piece: None, piece_propagated: true };
    match peer_index(peers, addr) {
        Some(i) => peers.update(i, (addr, fresh)),
        None => peers.push((addr, fresh)),
    }
}

/// The peers without `addr`.
pub open spec fn without_peer(peers: Seq<(PeerAddr, PeerSuperSeedState)>, addr: PeerAddr) -> Seq<(PeerAddr, PeerSuperSeedState)> {
    match peer_index(peers, addr) {
        Some(i) => peers.remove(i),
        None => peers,
    }
}

/// A peer other than `from` waiting for confirmation of `piece`.
pub open spec fn confirmed_by(e: (PeerAddr, PeerSuperSeedState), from: PeerAddr, piece: u32) -> bool {
    e.0 != from && e.1.last_offered_piece == Some(piece) && !e.1.piece_propagated
}

/// What a HAVE of `piece` from `from` does to the first `k` peers: those
/// confirmed by it are marked propagated and listed.
pub open spec fn confirm(peers: Seq<(PeerAddr, PeerSuperSeedState)>, from: PeerAddr, piece: u32, k: nat) -> (Seq<(PeerAddr, PeerSuperSeedState)>, Seq<PeerAddr>)
    decreases k,
{
    if k == 0 {
        (peers, Seq::empty())
    } else {
        let r = confirm(peers, from, piece, (k - 1) as nat);
        let e = peers[k - 1];
        if confirmed_by(e, from, piece) {
            (r.0.update(k - 1, (e.0, PeerSuperSeedState { last_offered_piece: e.1.last_offered_piece, piece_propagated: true })), r.1.push(e.0))
        } else {
            r
        }
    }
}

/// A piece we have and the peer lacks.
pub open spec fn eligible(peer_bf: Seq<bool>, our_bf: Seq<bool>, i: int) -> bool {
    &&& i < our_bf.len() && our_bf[i]
    &&& !(i < peer_bf.len() && peer_bf[i])
}

/// Among pieces below `k`, the eligible one with the lowest distribution
/// count (the lowest index among equal counts).
pub open spec fn best_piece(counts: Seq<u32>, peer_bf: Seq<bool>, our_bf: Seq<bool>, k: nat) -> Option<int>
    decreases k,
{
    if k == 0 {
        None
    } else {
        let r = best_piece(counts, peer_bf, our_bf, (k - 1) as nat);
        let i = k - 1;
        if eligible(peer_bf, our_bf, i) && (r is None || counts[i] < counts[r->0]) {
            Some(i)
        } else {
            r
        }
    }
}

/// The piece `select_piece_for_peer` reveals to `addr`, if any.
pub open spec fn piece_choice(v: SuperSeedView, addr: PeerAddr, peer_bf: Seq<bool>, our_bf: Seq<bool>) -> Option<int> {
    if !v.enabled {
        None
    } else {
        match peer_index(v.peers, addr) {
            None => None,
            Some(i) => if !v.peers[i].1.piece_propagated {
                None
            } else {
                best_piece(v.piece_distribution_count, peer_bf, our_bf, v.piece_distribution_count.len())
            },
        }
    }
}

/// The state after revealing piece `p` to `addr`.
pub open spec fn after_offer(v: SuperSeedView, addr: PeerAddr, p: int) -> SuperSeedView {
    let i = peer_index(v.peers, addr)->0;
    SuperSeedView {
        enabled: v.enabled,
        peers: v.peers.update(i, (addr, PeerSuperSeedState { last_offered_piece: Some(p as u32), piece_propagated: false })),
        piece_distribution_count: v.piece_distribution_count.update(p, (v.piece_distribution_count[p] + 1) as u32),
    }
}

pub proof fn lemma_peer_index(peers: Seq<(PeerAddr, PeerSuperSeedState)>, addr: PeerAddr)
    ensures
        match peer_index(peers, addr) {
            Some(i) => 0 <= i < peers.len() && peers[i].0 == addr,
            None => forall|j: int| 0 <= j < peers.len() ==> (#[trigger] peers[j]).0 != addr,
        },
    decreases peers.len(),
{
    if peers.len() > 0 {
        lemma_peer_index(peers.drop_last(), addr);
        if peer_index(peers, addr) is None {
            assert forall|j: int| 0 <= j < peers.len() implies (#[trigger] peers[j]).0 != addr by {
                if j < peers.len() - 1 {
                    assert(peers[j] == peers.drop_last()[j]);
                }
            }
        }
    }
}

pub proof fn lemma_best_piece(counts: Seq<u32>, peer_bf: Seq<bool>, our_bf: Seq<bool>, k: nat)
    requires
        k <= counts.len(),
    ensures
        match best_piece(counts, peer_bf, our_bf, k) {
            Some(b) => 0 <= b < k && eligible(peer_bf, our_bf, b)
                && forall|j: int| 0 <= j < k && #[trigger] eligible(peer_bf, our_bf, j) ==> counts[b] <= counts[j],
            None => forall|j: int| 0 <= j < k ==> !#[trigger] eligible(peer_bf, our_bf, j),
        },
    decreases k,
{
    if k > 0 {
        lemma_best_piece(counts, peer_bf, our_bf, (k - 1) as nat);
    }
}

} // verus!

verus! {

fn find_peer(peers: &Vec<(PeerAddr, PeerSuperSeedState)>, addr: PeerAddr) -> (r: Option<usize>)
    ensures
        match r {
            Some(i) => peer_index(peers@, addr) == Some(i as int),
            None => peer_index(peers@, addr) is None,
        },
{
    proof {
        lemma_peer_index(peers@, addr);
    }
    let mut k = peers.len();
    assert(peers@.take(k as int) =~= peers@);
    while k > 0
        invariant
            0 <= k <= peers@.len(),
            peer_index(peers@, addr) == peer_index(peers@.take(k as int), addr),
        decreases k,
    {
        let e = peers[k - 1];
        assert(peers@.take(k as int).last() == peers@[k - 1]);
        if e.0.0 == addr.0 && e.0.1 == addr.1 && e.0.2 == addr.2 {
            return Some(k - 1);
        }
        assert(peers@.take(k as int).drop_last() =~= peers@.take(k - 1));
        k = k - 1;
    }
    proof {
        assert(peers@.take(0) =~= Seq::<(PeerAddr, PeerSuperSeedState)>::empty());
    }
    None
}

impl SuperSeedState {
    pub fn new(total_pieces: u32, enabled: bool) -> (s: SuperSeedState)
        ensures
            s@.enabled == enabled,
            s@.peers == Seq::<(PeerAddr, PeerSuperSeedState)>::empty(),
            s@.piece_distribution_count == Seq::new(total_pieces as nat, |i: int| 0u32),
    {
        let mut counts: Vec<u32> = Vec::new();
        let mut k: u32 = 0;
        while k < total_pieces
            invariant
                0 <= k <= total_pieces,
                counts@ == Seq::new(k as nat, |i: int| 0u32),
            decreases total_pieces - k,
        {
            counts.push(0);
            k = k + 1;
            assert(counts@ =~= Seq::new(k as nat, |i: int| 0u32));
        }
        SuperSeedState { enabled, peers: Vec::new(), piece_distribution_count: counts }
    }

    pub fn is_enabled(&self) -> (r: bool)
        ensures
            r == self@.enabled,
    {
        self.enabled
    }

    pub fn set_enabled(&mut self, enabled: bool)
        ensures
            final(self)@.enabled == enabled,
            final(self)@.piece_distribution_count == old(self)@.piece_distribution_count,
            final(self)@.peers == if enabled { old(self)@.peers } else { Seq::empty() },
    {
        self.enabled = enabled;
        if !enabled {
            // Clear per-peer state when disabling so we start fresh if re-enabled.
            self.peers = Vec::new();
        }
    }

    /// Called when a new peer connects. Initializes per-peer tracking.
    pub fn on_peer_connected(&mut self, addr: PeerAddr)
        ensures
            final(self)@ == if old(self)@.enabled {
                SuperSeedView { peers: with_peer(old(self)@.peers, addr), ..old(self)@ }
            } else {
                old(self)@
            },
    {
        if !self.enabled {
            return;
        }
        let fresh = PeerSuperSeedState { last_offered_piece: None, piece_propagated: true };
        match find_peer(&self.peers, addr) {
            Some(i) => {
                proof {
                    lemma_peer_index(self@.peers, addr);
                }
                self.peers.set(i, (addr, fresh));
            },
            None => {
                self.peers.push((addr, fresh));
            },
        }
    }

    /// Called when a peer disconnects.
    pub fn on_peer_disconnected(&mut self, addr: PeerAddr)
        ensures
            final(self)@ == (SuperSeedView { peers: without_peer(old(self)@.peers, addr), ..old(self)@ }),
    {
        if let Some(i) = find_peer(&self.peers, addr) {
            proof {
                lemma_peer_index(self@.peers, addr);
            }
            self.peers.remove(i);
        }
    }

    /// Called when we see a HAVE message from a peer for a given piece.
    /// This is how we detect that a piece has propagated -- when a *different*
    /// peer than the one we offered it to reports having it.
    ///
    /// Returns the list of peer addresses whose propagation was just confirmed,
    /// so the caller can send them new super-seed HAVEs.
    pub fn on_have_received(&mut self, from_addr: PeerAddr, piece_index: u32) -> (confirmed: Vec<PeerAddr>)
        ensures
            old(self)@.enabled ==> {
                &&& final(self)@ == (SuperSeedView {
                    peers: confirm(old(self)@.peers, from_addr, piece_index, old(self)@.peers.len()).0,
                    ..old(self)@
                })
                &&& confirmed@ == confirm(old(self)@.peers, from_addr, piece_index, old(self)@.peers.len()).1
            },
            !old(self)@.enabled ==> final(self)@ == old(self)@ && confirmed@ == Seq::<PeerAddr>::empty(),
    {
        let mut confirmed: Vec<PeerAddr> = Vec::new();
        if !self.enabled {
            return confirmed;
        }
        let n = self.peers.len();
        let mut k: usize = 0;
        while k < n
            invariant
                0 <= k <= n,
                n == old(self)@.peers.len(),
                self@.enabled == old(self)@.enabled,
                self@.piece_distribution_count == old(self)@.piece_distribution_count,
                self@.peers == confirm(old(self)@.peers, from_addr, piece_index, k as nat).0,
                confirmed@ == confirm(old(self)@.peers, from_addr, piece_index, k as nat).1,
                forall|m: int| k <= m < n ==> self@.peers[m] == old(self)@.peers[m],
                self@.peers.len() == n,
            decreases n - k,
        {
            proof {
                lemma_confirm_len(old(self)@.peers, from_addr, piece_index, k as nat);
            }
            let (addr, state) = self.peers[k];
            let same = addr.0 == from_addr.0 && addr.1 == from_addr.1 && addr.2 == from_addr.2;
            let waiting = match state.last_offered_piece {
                Some(p) => p == piece_index,
                None => false,
            };
            if !same && waiting && !state.piece_propagated {
                self.peers.set(k, (addr, PeerSuperSeedState { last_offered_piece: state.last_offered_piece, piece_propagated: true }));
                confirmed.push(addr);
            }
            k = k + 1;
        }
        confirmed
    }

    /// Select the next piece to reveal to this peer. Returns the raw piece
    /// index, or `None` if we should not reveal a new piece yet (the previous
    /// one hasn't propagated, or no suitable piece exists).
    ///
    /// `peer_bitfield`: the remote peer's bitfield (what they already have).
    /// `our_bitfield`: our own bitfield (what we have -- should be all 1s for a seeder).
    pub fn select_piece_for_peer(&mut self, addr: PeerAddr, peer_bitfield: &[bool], our_bitfield: &[bool]) -> (r: Option<u32>)
        requires
            old(self)@.piece_distribution_count.len() <= u32::MAX,
            piece_choice(old(self)@, addr, peer_bitfield@, our_bitfield@) matches Some(p)
                ==> old(self)@.piece_distribution_count[p] < u32::MAX,
        ensures
            match piece_choice(old(self)@, addr, peer_bitfield@, our_bitfield@) {
                Some(p) => r == Some(p as u32) && final(self)@ == after_offer(old(self)@, addr, p),
                None => r is None && final(self)@ == old(self)@,
            },
    {
        if !self.enabled {
            return None;
        }
        let total = self.piece_distribution_count.len();
        let i = match find_peer(&self.peers, addr) {
            Some(i) => i,
            None => {
                return None;
            },
        };
        proof {
            lemma_peer_index(self@.peers, addr);
        }
        // Only reveal a new piece if the previous one propagated (or this is the first).
        if !self.peers[i].1.piece_propagated {
            return None;
        }
        let mut best: Option<usize> = None;
        let mut idx: usize = 0;
        while idx < total
            invariant
                0 <= idx <= total,
                total == self@.piece_distribution_count.len(),
                best == match best_piece(self@.piece_distribution_count, peer_bitfield@, our_bitfield@, idx as nat) {
                    Some(b) => Some(b as usize),
                    None => None::<usize>,
                },
                best matches Some(b) ==> b < idx,
            decreases total - idx,
        {
            proof {
                lemma_best_piece(self@.piece_distribution_count, peer_bitfield@, our_bitfield@, idx as nat);
            }
            // We must have this piece, and the peer must not have it.
            let ours = idx < our_bitfield.len() && our_bitfield[idx];
            let theirs = idx < peer_bitfield.len() && peer_bitfield[idx];
            if ours && !theirs {
                let dist = self.piece_distribution_count[idx];
                let better = match best {
                    None => true,
                    Some(b) => dist < self.piece_distribution_count[b],
                };
                if better {
                    best = Some(idx);
                }
            }
            idx = idx + 1;
        }
        proof {
            lemma_best_piece(self@.piece_distribution_count, peer_bitfield@, our_bitfield@, total as nat);
        }
        let piece_idx = match best {
            Some(b) => b,
            None => {
                return None;
            },
        };
        let c = self.piece_distribution_count[piece_idx];
        self.piece_distribution_count.set(piece_idx, c + 1);
        self.peers.set(i, (addr, PeerSuperSeedState { last_offered_piece: Some(piece_idx as u32), piece_propagated: false }));
        Some(piece_idx as u32)
    }
}

pub proof fn lemma_confirm_len(peers: Seq<(PeerAddr, PeerSuperSeedState)>, from: PeerAddr, piece: u32, k: nat)
    requires
        k <= peers.len(),
    ensures
        confirm(peers, from, piece, k).0.len() == peers.len(),
        forall|m: int| k <= m < peers.len() ==> #[trigger] confirm(peers, from, piece, k).0[m] == peers[m],
    decreases k,
{
    if k > 0 {
        lemma_confirm_len(peers, from, piece, (k - 1) as nat);
    }
}

} // verus!

verus! {

// ----- laws -----

proof fn lemma_peer_index_same_keys(a: Seq<(PeerAddr, PeerSuperSeedState)>, b: Seq<(PeerAddr, PeerSuperSeedState)>, addr: PeerAddr)
    requires
        a.len() == b.len(),
        forall|m: int| 0 <= m < a.len() ==> (#[trigger] a[m]).0 == b[m].0,
    ensures
        peer_index(a, addr) == peer_index(b, addr),
    decreases a.len(),
{
    if a.len() > 0 {
        assert(a.last().0 == b.last().0);
        lemma_peer_index_same_keys(a.drop_last(), b.drop_last(), addr);
    }
}

/// What `confirm` does to each entry.
pub proof fn lemma_confirm_entries(peers: Seq<(PeerAddr, PeerSuperSeedState)>, from: PeerAddr, piece: u32, k: nat)
    requires
        k <= peers.len(),
    ensures
        confirm(peers, from, piece, k).0.len() == peers.len(),
        forall|m: int| 0 <= m < k ==> #[trigger] confirm(peers, from, piece, k).0[m] == if confirmed_by(peers[m], from, piece) {
            (peers[m].0, PeerSuperSeedState { last_offered_piece: peers[m].1.last_offered_piece, piece_propagated: true })
        } else {
            peers[m]
        },
        forall|m: int| k <= m < peers.len() ==> #[trigger] confirm(peers, from, piece, k).0[m] == peers[m],
    decreases k,
{
    if k > 0 {
        lemma_confirm_entries(peers, from, piece, (k - 1) as nat);
    }
}

/// Once a piece is revealed to a peer, no further piece is revealed to it,
/// whatever the bitfields, until that piece is confirmed.
pub proof fn lemma_offer_blocks_peer(v: SuperSeedView, addr: PeerAddr, peer_bf: Seq<bool>, our_bf: Seq<bool>,
    p: int, peer_bf2: Seq<bool>, our_bf2: Seq<bool>)
    requires
        piece_choice(v, addr, peer_bf, our_bf) == Some(p),
    ensures
        piece_choice(after_offer(v, addr, p), addr, peer_bf2, our_bf2) is None,
{
    lemma_peer_index(v.peers, addr);
    let v2 = after_offer(v, addr, p);
    lemma_peer_index_same_keys(v.peers, v2.peers, addr);
}

/// A HAVE of the offered piece from another peer confirms the peer that was
/// waiting for it, which may then be offered a new piece; a HAVE from that
/// peer itself confirms nothing for it.
pub proof fn lemma_have_confirms(v: SuperSeedView, addr: PeerAddr, from: PeerAddr, piece: u32)
    requires
        v.enabled,
        peer_index(v.peers, addr) matches Some(i) && v.peers[i].1.last_offered_piece == Some(piece)
            && !v.peers[i].1.piece_propagated,
    ensures
        ({
            let r = confirm(v.peers, from, piece, v.peers.len());
            let i = peer_index(v.peers, addr)->0;
            &&& from != addr ==> r.0[i].1.piece_propagated && r.1.contains(addr)
            &&& from == addr ==> !r.0[i].1.piece_propagated
            &&& peer_index(r.0, addr) == Some(i)
        }),
{
    lemma_peer_index(v.peers, addr);
    let i = peer_index(v.peers, addr)->0;
    lemma_confirm_entries(v.peers, from, piece, v.peers.len());
    let r = confirm(v.peers, from, piece, v.peers.len());
    lemma_peer_index_same_keys(v.peers, r.0, addr);
    if from != addr {
        lemma_confirm_lists(v.peers, from, piece, v.peers.len(), i);
    }
}

proof fn lemma_confirm_lists(peers: Seq<(PeerAddr, PeerSuperSeedState)>, from: PeerAddr, piece: u32, k: nat, i: int)
    requires
        k <= peers.len(),
        0 <= i < k,
        confirmed_by(peers[i], from, piece),
    ensures
        confirm(peers, from, piece, k).1.contains(peers[i].0),
    decreases k,
{
    if i < k - 1 {
        lemma_confirm_lists(peers, from, piece, (k - 1) as nat, i);
        let r = confirm(peers, from, piece, (k - 1) as nat);
        let j = choose|j: int| 0 <= j < r.1.len() && r.1[j] == peers[i].0;
        if confirmed_by(peers[k - 1], from, piece) {
            assert(r.1.push(peers[k - 1].0)[j] == peers[i].0);
        }
    } else {
        let r = confirm(peers, from, piece, (k - 1) as nat);
        assert(r.1.push(peers[i].0)[r.1.len() as int] == peers[i].0);
    }
}

/// The piece revealed is one we have and the peer lacks, and no such piece
/// has been revealed to fewer peers.
pub proof fn lemma_choice_is_least_distributed(v: SuperSeedView, addr: PeerAddr, peer_bf: Seq<bool>, our_bf: Seq<bool>)
    ensures
        piece_choice(v, addr, peer_bf, our_bf) matches Some(p) ==> {
            &&& 0 <= p < v.piece_distribution_count.len()
            &&& p < our_bf.len() && our_bf[p]
            &&& !(p < peer_bf.len() && peer_bf[p])
            &&& forall|j: int| 0 <= j < v.piece_distribution_count.len() && #[trigger] eligible(peer_bf, our_bf, j)
                ==> v.piece_distribution_count[p] <= v.piece_distribution_count[j]
        },
{
    lemma_best_piece(v.piece_distribution_count, peer_bf, our_bf, v.piece_distribution_count.len());
}

/// A super-seeding torrent after a sequence of piece selections, each for a
/// peer with its bitfield and ours, and the pieces revealed, in order.
pub open spec fn selections(v: SuperSeedView, calls: Seq<(PeerAddr, Seq<bool>, Seq<bool>)>) -> (SuperSeedView, Seq<int>)
    decreases calls.len(),
{
    if calls.len() == 0 {
        (v, Seq::empty())
    } else {
        let (a, pbf, obf) = calls[0];
        match piece_choice(v, a, pbf, obf) {
            Some(p) => {
                let r = selections(after_offer(v, a, p), calls.skip(1));
                (r.0, seq![p] + r.1)
            },
            None => selections(v, calls.skip(1)),
        }
    }
}

/// How often `p` occurs in `s`.
pub open spec fn occurrences(s: Seq<int>, p: int) -> nat
    decreases s.len(),
{
    if s.len() == 0 {
        0
    } else {
        (if s[0] == p { 1nat } else { 0nat }) + occurrences(s.skip(1), p)
    }
}

/// Over any sequence of piece selections, each piece's distribution count
/// grows by exactly the number of times the piece was revealed, as long as
/// no count reaches the top of `u32`.
pub proof fn lemma_selections_count_offers(v: SuperSeedView, calls: Seq<(PeerAddr, Seq<bool>, Seq<bool>)>)
    requires
        forall|j: int| 0 <= j < v.piece_distribution_count.len() ==> #[trigger] v.piece_distribution_count[j] + calls.len() <= u32::MAX,
    ensures
        selections(v, calls).0.piece_distribution_count.len() == v.piece_distribution_count.len(),
        forall|j: int| 0 <= j < v.piece_distribution_count.len() ==> #[trigger] selections(v, calls).0.piece_distribution_count[j]
            == v.piece_distribution_count[j] + occurrences(selections(v, calls).1, j),
    decreases calls.len(),
{
    if calls.len() > 0 {
        let (a, pbf, obf) = calls[0];
        let rest = calls.skip(1);
        match piece_choice(v, a, pbf, obf) {
            Some(p) => {
                lemma_choice_is_least_distributed(v, a, pbf, obf);
                let v2 = after_offer(v, a, p);
                assert forall|j: int| 0 <= j < v2.piece_distribution_count.len() implies #[trigger] v2.piece_distribution_count[j]
                    + rest.len() <= u32::MAX by {
                    assert(v.piece_distribution_count[j] + calls.len() <= u32::MAX);
                }
                lemma_selections_count_offers(v2, rest);
                let r = selections(v2, rest);
                let offers = seq![p] + r.1;
                assert forall|j: int| 0 <= j < v.piece_distribution_count.len() implies #[trigger] selections(v, calls).0.piece_distribution_count[j]
                    == v.piece_distribution_count[j] + occurrences(selections(v, calls).1, j) by {
                    assert(offers.skip(1) =~= r.1);
                    assert(offers[0] == p);
                    assert(v.piece_distribution_count[j] + calls.len() <= u32::MAX);
                    assert(r.0.piece_distribution_count[j] == v2.piece_distribution_count[j] + occurrences(r.1, j));
                }
            },
            None => {
                lemma_selections_count_offers(v, rest);
            },
        }
    }
}

} // verus!
