//! The DHT's store of announced peers: the tokens handed to querying nodes,
//! the peers stored per info hash when a node announces with a valid token,
//! the lookup of stored peers, and the garbage collection that expires old
//! tokens and peers and keeps the store within its caps. Time is passed in as
//! milliseconds since the epoch.
use vstd::prelude::*;
use crate::super_seed::PeerAddr;
use crate::bencode::{bytes_equal, bytes_less};
use std::collections::VecDeque;

verus! {

/// A 20-byte DHT id.
pub type Id20 = [u8; 20];

/// A token handed to a node, with whom it was handed to and when.
#[derive(Debug, Clone, Copy)]
pub struct StoredToken {
    pub token: [u8; 4],
    pub node_id: Id20,
    pub addr: PeerAddr,
    pub time_ms: i64,
}

/// A stored peer and when it last announced.
#[derive(Debug, Clone, Copy)]
pub struct StoredPeer {
    pub addr: PeerAddr,
    pub time_ms: i64,
}

/// Which address families a lookup wants.
#[derive(Debug, Clone, Copy, PartialEq, Eq, Structural)]
pub enum Want {
    V4,
    V6,
    Both,
}

/// How long a token stays valid: ten minutes.
pub const TOKEN_TTL_MS: i64 = 10 * 60 * 1000;

/// How long a peer stays stored without announcing: fifteen minutes.
pub const PEER_TTL_MS: i64 = 15 * 60 * 1000;

/// The most peers kept per info hash.
pub const MAX_PEERS_PER_INFO_HASH: usize = 100;

/// The store as plain values.
pub struct PeerStoreView {
    pub self_id: Seq<u8>,
    pub max_remembered_tokens: u32,
    pub max_remembered_peers: u32,
    pub max_distance: Seq<u8>,
    pub tokens: Seq<StoredToken>,
    pub peers: Seq<(Seq<u8>, Seq<StoredPeer>)>,
    pub peers_len: u32,
}

/// The DHT's peer store.
pub struct PeerStore {
    self_id: Id20,
    max_remembered_tokens: u32,
    max_remembered_peers: u32,
    max_distance: Id20,
    tokens: VecDeque<StoredToken>,
    peers: Vec<(Id20, Vec<StoredPeer>)>,
    peers_len: u32,
}

/// The entries of the store as plain values.
pub open spec fn entries_view(v: Seq<(Id20, Vec<StoredPeer>)>) -> Seq<(Seq<u8>, Seq<StoredPeer>)> {
    Seq::new(v.len(), |k: int| (v[k].0@, v[k].1@))
}

impl View for PeerStore {
    type V = PeerStoreView;

    closed spec fn view(&self) -> PeerStoreView {
        PeerStoreView {
            self_id: self.self_id@,
            max_remembered_tokens: self.max_remembered_tokens,
            max_remembered_peers: self.max_remembered_peers,
            max_distance: self.max_distance@,
            tokens: self.tokens@,
            peers: entries_view(self.peers@),
            peers_len: self.peers_len,
        }
    }
}

/// Each info hash has at most one entry.
pub open spec fn keys_distinct(es: Seq<(Seq<u8>, Seq<StoredPeer>)>) -> bool {
    forall|i: int, j: int| 0 <= i < es.len() && 0 <= j < es.len() && i != j ==> es[i].0 != es[j].0
}

/// The position of the entry of `ih`.
pub open spec fn entry_index(es: Seq<(Seq<u8>, Seq<StoredPeer>)>, ih: Seq<u8>) -> Option<int> {
    if exists|i: int| 0 <= i < es.len() && es[i].0 == ih {
        Some(choose|i: int| 0 <= i < es.len() && es[i].0 == ih)
    } else {
        None
    }
}

/// Two addresses are the same address.
pub open spec fn same_addr(a: PeerAddr, b: PeerAddr) -> bool {
    a.0 == b.0 && a.1 == b.1 && a.2 == b.2
}

fn addr_eq(a: PeerAddr, b: PeerAddr) -> (r: bool)
    ensures
        r == same_addr(a, b),
{
    a.0 == b.0 && a.1 == b.1 && a.2 == b.2
}

/// The XOR distance of two ids.
pub open spec fn distance(a: Seq<u8>, b: Seq<u8>) -> Seq<u8> {
    Seq::new(20, |k: int| a[k] ^ b[k])
}

/// A token matching `token`, `addr` and `node_id` was handed out and is still kept.
pub open spec fn token_known(tokens: Seq<StoredToken>, token: Seq<u8>, addr: PeerAddr, node_id: Seq<u8>) -> bool {
    exists|i: int|
        0 <= i < tokens.len() && #[trigger] tokens[i].token@ == token && same_addr(tokens[i].addr, addr)
            && tokens[i].node_id@ == node_id
}

/// The address a peer is stored under: with the announced port unless the
/// port is implied by the address it came from.
pub open spec fn announced_addr(addr: PeerAddr, port: u16, implied_port: bool) -> PeerAddr {
    if implied_port {
        addr
    } else {
        (addr.0, addr.1, port)
    }
}

/// The position of `addr` among stored peers.
pub open spec fn peer_pos(ps: Seq<StoredPeer>, addr: PeerAddr) -> Option<int> {
    if exists|i: int| 0 <= i < ps.len() && same_addr(ps[i].addr, addr) {
        Some(choose|i: int| 0 <= i < ps.len() && same_addr(ps[i].addr, addr) && forall|j: int| 0 <= j < i ==> !same_addr(ps[j].addr, addr))
    } else {
        None
    }
}

/// One more on a `u32` counter, wrapping as an atomic counter does.
pub open spec fn inc32(x: u32) -> u32 {
    if x == u32::MAX { 0 } else { (x + 1) as u32 }
}

/// What storing an announce does: refused (and nothing changes) when the info
/// hash is farther from us than the maximum distance, or no token matching
/// the token, the address it came from and the node is kept; a known peer is
/// marked seen now; a new one is added, to its info hash's entry or to a new
/// entry at the end, unless the store is full. Gives whether the peer is
/// stored, the entries and the count of peers.
pub open spec fn store_outcome(
    v: PeerStoreView,
    info_hash: Seq<u8>,
    token: Seq<u8>,
    node_id: Seq<u8>,
    addr: PeerAddr,
    port: u16,
    port_implied: bool,
    now: i64,
) -> (bool, Seq<(Seq<u8>, Seq<StoredPeer>)>, u32) {
    let a = announced_addr(addr, port, port_implied);
    let p = StoredPeer { addr: a, time_ms: now };
    let full = v.peers_len >= v.max_remembered_peers;
    if crate::bencode::bytes_lt(v.max_distance, distance(info_hash, v.self_id)) {
        (false, v.peers, v.peers_len)
    } else if !token_known(v.tokens, token, addr, node_id) {
        (false, v.peers, v.peers_len)
    } else {
        match entry_index(v.peers, info_hash) {
            Some(i) => {
                let ps = v.peers[i].1;
                match peer_pos(ps, a) {
                    Some(j) => (true, v.peers.update(i, (info_hash, ps.update(j, p))), v.peers_len),
                    None => if full {
                        (false, v.peers, v.peers_len)
                    } else {
                        (true, v.peers.update(i, (info_hash, ps.push(p))), inc32(v.peers_len))
                    },
                }
            },
            None => if full {
                (false, v.peers, v.peers_len)
            } else {
                (true, v.peers.push((info_hash, seq![p])), inc32(v.peers_len))
            },
        }
    }
}

/// The peers of an entry, if any, of the wanted families.
pub open spec fn wanted(ps: Seq<StoredPeer>, want: Want) -> Seq<PeerAddr>
    decreases ps.len(),
{
    if ps.len() == 0 {
        Seq::empty()
    } else {
        let r = wanted(ps.drop_last(), want);
        let a = ps.last().addr;
        if (a.0 && want != Want::V4) || (!a.0 && want != Want::V6) {
            r.push(a)
        } else {
            r
        }
    }
}

// ----- stable insertion sorts -----

/// The first position whose time is below `t` (the length if none).
pub open spec fn first_below(r: Seq<StoredPeer>, t: i64) -> nat
    decreases r.len(),
{
    if r.len() == 0 {
        0
    } else if r[0].time_ms < t {
        0
    } else {
        1 + first_below(r.skip(1), t)
    }
}

/// The peers newest first; among equal times, in their original order.
pub open spec fn newest_first(s: Seq<StoredPeer>) -> Seq<StoredPeer>
    decreases s.len(),
{
    if s.len() == 0 {
        s
    } else {
        let r = newest_first(s.drop_last());
        r.insert(first_below(r, s.last().time_ms) as int, s.last())
    }
}

proof fn lemma_first_below_at(r: Seq<StoredPeer>, t: i64, k: int)
    requires
        0 <= k <= r.len(),
        forall|m: int| 0 <= m < k ==> r[m].time_ms >= t,
        k < r.len() ==> r[k].time_ms < t,
    ensures
        first_below(r, t) == k,
    decreases r.len(),
{
    if r.len() > 0 && k > 0 {
        assert forall|m: int| 0 <= m < k - 1 implies r.skip(1)[m].time_ms >= t by {
            assert(r.skip(1)[m] == r[m + 1]);
        }
        lemma_first_below_at(r.skip(1), t, k - 1);
    }
}

proof fn lemma_sorted_len(s: Seq<StoredPeer>)
    ensures
        newest_first(s).len() == s.len(),
    decreases s.len(),
{
    if s.len() > 0 {
        lemma_sorted_len(s.drop_last());
        lemma_first_bounds(newest_first(s.drop_last()), s.last().time_ms);
    }
}

proof fn lemma_first_bounds(r: Seq<StoredPeer>, t: i64)
    ensures
        first_below(r, t) <= r.len(),
    decreases r.len(),
{
    if r.len() > 0 {
        lemma_first_bounds(r.skip(1), t);
    }
}

/// Sorts peers newest first, stably.
fn sort_newest_first(v: Vec<StoredPeer>) -> (r: Vec<StoredPeer>)
    ensures
        r@ == newest_first(v@),
{
    let mut r: Vec<StoredPeer> = Vec::new();
    let mut i: usize = 0;
    while i < v.len()
        invariant
            0 <= i <= v@.len(),
            r@ == newest_first(v@.take(i as int)),
        decreases v@.len() - i,
    {
        let x = v[i];
        proof {
            assert(v@.take(i + 1).drop_last() =~= v@.take(i as int));
            assert(v@.take(i + 1).last() == x);
        }
        let mut k: usize = 0;
        while k < r.len() && r[k].time_ms >= x.time_ms
            invariant
                0 <= k <= r@.len(),
                forall|m: int| 0 <= m < k ==> r@[m].time_ms >= x.time_ms,
            decreases r@.len() - k,
        {
            k = k + 1;
        }
        proof {
            lemma_first_below_at(r@, x.time_ms, k as int);
        }
        r.insert(k, x);
        i = i + 1;
    }
    assert(v@.take(i as int) =~= v@);
    r
}

// ----- garbage collection, as values -----

/// The tokens handed out after `cutoff`, in order.
pub open spec fn tokens_after(ts: Seq<StoredToken>, cutoff: i64) -> Seq<StoredToken>
    decreases ts.len(),
{
    if ts.len() == 0 {
        ts
    } else {
        let r = tokens_after(ts.drop_last(), cutoff);
        if ts.last().time_ms > cutoff {
            r.push(ts.last())
        } else {
            r
        }
    }
}

/// The peers seen after `cutoff`, in order.
pub open spec fn peers_after(ps: Seq<StoredPeer>, cutoff: i64) -> Seq<StoredPeer>
    decreases ps.len(),
{
    if ps.len() == 0 {
        ps
    } else {
        let r = peers_after(ps.drop_last(), cutoff);
        if ps.last().time_ms > cutoff {
            r.push(ps.last())
        } else {
            r
        }
    }
}

/// An entry's peers within the cap: the newest hundred when there are more.
pub open spec fn capped(ps: Seq<StoredPeer>) -> Seq<StoredPeer> {
    if ps.len() > MAX_PEERS_PER_INFO_HASH {
        newest_first(ps).take(MAX_PEERS_PER_INFO_HASH as int)
    } else {
        ps
    }
}

/// The entries after expiry and the per-hash cap, empty entries dropped.
pub open spec fn expired_and_capped(es: Seq<(Seq<u8>, Seq<StoredPeer>)>, cutoff: i64) -> Seq<(Seq<u8>, Seq<StoredPeer>)>
    decreases es.len(),
{
    if es.len() == 0 {
        es
    } else {
        let r = expired_and_capped(es.drop_last(), cutoff);
        let ps = capped(peers_after(es.last().1, cutoff));
        if ps.len() == 0 {
            r
        } else {
            r.push((es.last().0, ps))
        }
    }
}

/// The number of peers of all entries.
pub open spec fn total_peers(es: Seq<(Seq<u8>, Seq<StoredPeer>)>) -> nat
    decreases es.len(),
{
    if es.len() == 0 {
        0
    } else {
        total_peers(es.drop_last()) + es.last().1.len()
    }
}

/// How many of the peers were seen before `t`.
pub open spec fn count_older(ps: Seq<StoredPeer>, t: i64) -> nat
    decreases ps.len(),
{
    if ps.len() == 0 {
        0
    } else {
        count_older(ps.drop_last(), t) + if ps.last().time_ms < t { 1nat } else { 0nat }
    }
}

/// How many of the peers were seen at `t`.
pub open spec fn count_at(ps: Seq<StoredPeer>, t: i64) -> nat
    decreases ps.len(),
{
    if ps.len() == 0 {
        0
    } else {
        count_at(ps.drop_last(), t) + if ps.last().time_ms == t { 1nat } else { 0nat }
    }
}

/// How many peers of all entries were seen before `t`.
pub open spec fn older_in(es: Seq<(Seq<u8>, Seq<StoredPeer>)>, t: i64) -> nat
    decreases es.len(),
{
    if es.len() == 0 {
        0
    } else {
        older_in(es.drop_last(), t) + count_older(es.last().1, t)
    }
}

/// How many peers of all entries were seen at `t`.
pub open spec fn at_in(es: Seq<(Seq<u8>, Seq<StoredPeer>)>, t: i64) -> nat
    decreases es.len(),
{
    if es.len() == 0 {
        0
    } else {
        at_in(es.drop_last(), t) + count_at(es.last().1, t)
    }
}

/// `t` is the time of the `n`-th oldest peer: fewer than `n` peers are
/// older, and at least `n` are not newer.
pub open spec fn is_eviction_time(es: Seq<(Seq<u8>, Seq<StoredPeer>)>, n: nat, t: i64) -> bool {
    older_in(es, t) < n <= older_in(es, t) + at_in(es, t)
}

/// The time of the `n`-th oldest peer.
pub open spec fn eviction_time(es: Seq<(Seq<u8>, Seq<StoredPeer>)>, n: nat) -> i64 {
    choose|t: i64| is_eviction_time(es, n, t)
}

/// `b` within `0..=hi`.
pub open spec fn clamp(b: int, hi: int) -> int {
    if b < 0 {
        0
    } else if b > hi {
        hi
    } else {
        b
    }
}

/// An entry's peers without those seen before `t` and without the first `b`
/// of those seen at `t`, in their order.
pub open spec fn trim_peers(ps: Seq<StoredPeer>, t: i64, b: int) -> Seq<StoredPeer>
    decreases ps.len(),
{
    if ps.len() == 0 {
        ps
    } else {
        let r = trim_peers(ps.drop_last(), t, b);
        let x = ps.last();
        if x.time_ms > t || (x.time_ms == t && count_at(ps.drop_last(), t) >= b) {
            r.push(x)
        } else {
            r
        }
    }
}

/// The entries without the peers seen before `t` and without the first `c`
/// of those seen at `t` (in entry order, then peer order); entries left
/// empty go too.
pub open spec fn trimmed(es: Seq<(Seq<u8>, Seq<StoredPeer>)>, t: i64, c: int) -> Seq<(Seq<u8>, Seq<StoredPeer>)>
    decreases es.len(),
{
    if es.len() == 0 {
        es
    } else {
        let r = trimmed(es.drop_last(), t, c);
        let ps = trim_peers(es.last().1, t, c - at_in(es.drop_last(), t));
        if ps.len() == 0 {
            r
        } else {
            r.push((es.last().0, ps))
        }
    }
}

/// The earliest time after `t` at which one of the peers was seen.
pub open spec fn min_above(ps: Seq<StoredPeer>, t: i64) -> Option<i64>
    decreases ps.len(),
{
    if ps.len() == 0 {
        None
    } else {
        let r = min_above(ps.drop_last(), t);
        let x = ps.last().time_ms;
        if x > t {
            match r {
                Some(m) => Some(if x < m { x } else { m }),
                None => Some(x),
            }
        } else {
            r
        }
    }
}

/// The earliest time after `t` at which a peer of any entry was seen.
pub open spec fn min_above_in(es: Seq<(Seq<u8>, Seq<StoredPeer>)>, t: i64) -> Option<i64>
    decreases es.len(),
{
    if es.len() == 0 {
        None
    } else {
        let r = min_above_in(es.drop_last(), t);
        match min_above(es.last().1, t) {
            Some(x) => match r {
                Some(m) => Some(if x < m { x } else { m }),
                None => Some(x),
            },
            None => r,
        }
    }
}

/// The entries after garbage collection at `now`: expired peers dropped, each
/// entry capped, empty entries dropped, and then, while more peers are stored
/// than the store remembers, the oldest peers evicted until exactly as many
/// are left as the store remembers (of peers seen at the same time, those of
/// earlier entries first), entries left empty dropped.
pub open spec fn collected(es: Seq<(Seq<u8>, Seq<StoredPeer>)>, now: i64, max_peers: u32) -> Seq<(Seq<u8>, Seq<StoredPeer>)> {
    let p = expired_and_capped(es, (now - PEER_TTL_MS) as i64);
    let total = total_peers(p);
    if total > max_peers {
        let n = (total - max_peers) as nat;
        let t = eviction_time(p, n);
        trimmed(p, t, n - older_in(p, t))
    } else {
        p
    }
}

// ----- the store -----

/// The id `00000fff…ff`: info hashes farther from us than this are not stored.
pub open spec fn default_max_distance() -> Seq<u8> {
    seq![0u8, 0u8, 0x0fu8] + Seq::new(17, |k: int| 0xffu8)
}

impl PeerStore {
    /// The store's consistency: one entry per info hash.
    pub closed spec fn wf(&self) -> bool {
        keys_distinct(entries_view(self.peers@))
    }

    /// An empty store for the node `self_id`, remembering a thousand tokens
    /// and a thousand peers.
    pub fn new(self_id: Id20) -> (s: PeerStore)
        ensures
            s.wf(),
            s@.self_id == self_id@,
            s@.max_remembered_tokens == 1000,
            s@.max_remembered_peers == 1000,
            s@.max_distance == default_max_distance(),
            s@.tokens == Seq::<StoredToken>::empty(),
            s@.peers == Seq::<(Seq<u8>, Seq<StoredPeer>)>::empty(),
            s@.peers_len == 0,
    {
        let max_distance: Id20 = [0, 0, 0x0f, 0xff, 0xff, 0xff, 0xff, 0xff, 0xff, 0xff, 0xff, 0xff, 0xff, 0xff, 0xff, 0xff, 0xff, 0xff, 0xff, 0xff];
        let s = PeerStore {
            self_id,
            max_remembered_tokens: 1000,
            max_remembered_peers: 1000,
            max_distance,
            tokens: VecDeque::new(),
            peers: Vec::new(),
            peers_len: 0,
        };
        assert(s@.max_distance =~= default_max_distance());
        assert(s@.peers =~= Seq::<(Seq<u8>, Seq<StoredPeer>)>::empty());
        s
    }

    /// A store read back from its saved form: the count of peers is taken
    /// from the entries themselves.
    pub fn from_parts(
        self_id: Id20,
        max_remembered_tokens: u32,
        max_remembered_peers: u32,
        max_distance: Id20,
        tokens: Vec<StoredToken>,
        peers: Vec<(Id20, Vec<StoredPeer>)>,
    ) -> (s: PeerStore)
        requires
            keys_distinct(entries_view(peers@)),
            total_peers(entries_view(peers@)) <= u32::MAX,
        ensures
            s.wf(),
            s@.self_id == self_id@,
            s@.max_remembered_tokens == max_remembered_tokens,
            s@.max_remembered_peers == max_remembered_peers,
            s@.max_distance == max_distance@,
            s@.tokens == tokens@,
            s@.peers == entries_view(peers@),
            s@.peers_len == total_peers(entries_view(peers@)),
    {
        let peers_len = count_peers(&peers);
        let mut queue: VecDeque<StoredToken> = VecDeque::new();
        let mut i: usize = 0;
        while i < tokens.len()
            invariant
                0 <= i <= tokens@.len(),
                queue@ == tokens@.take(i as int),
            decreases tokens@.len() - i,
        {
            queue.push_back(tokens[i]);
            assert(queue@ =~= tokens@.take(i + 1));
            i = i + 1;
        }
        assert(tokens@.take(i as int) =~= tokens@);
        PeerStore { self_id, max_remembered_tokens, max_remembered_peers, max_distance, tokens: queue, peers, peers_len }
    }

    /// Hands a fresh random token to `node_id` at `addr`, forgetting the
    /// oldest token when more are kept than the store remembers.
    pub fn gen_token_for(&mut self, node_id: Id20, addr: PeerAddr, now: i64) -> (token: [u8; 4])
        requires
            old(self).wf(),
        ensures
            final(self).wf(),
            ({
                let t = old(self)@.tokens.push(StoredToken { token, node_id, addr, time_ms: now });
                final(self)@.tokens == if t.len() > old(self)@.max_remembered_tokens { t.skip(1) } else { t }
            }),
            final(self)@.peers == old(self)@.peers,
            final(self)@.peers_len == old(self)@.peers_len,
            final(self)@.self_id == old(self)@.self_id,
            final(self)@.max_distance == old(self)@.max_distance,
            final(self)@.max_remembered_tokens == old(self)@.max_remembered_tokens,
            final(self)@.max_remembered_peers == old(self)@.max_remembered_peers,
    {
        let mut buf = [0u8; 4];
        crate::mse::fill_random(&mut buf);
        let token = buf;
        let ghost t = old(self)@.tokens.push(StoredToken { token, node_id, addr, time_ms: now });
        self.tokens.push_back(StoredToken { token, node_id, addr, time_ms: now });
        if self.tokens.len() > self.max_remembered_tokens as usize {
            self.tokens.pop_front();
            assert(self.tokens@ =~= t.skip(1));
        }
        token
    }

    fn find_entry(&self, ih: &Id20) -> (r: Option<usize>)
        requires
            self.wf(),
        ensures
            match r {
                Some(i) => i < self.peers@.len() && entry_index(self@.peers, ih@) == Some(i as int),
                None => entry_index(self@.peers, ih@) is None,
            },
    {
        let ghost es = self@.peers;
        let mut i: usize = 0;
        while i < self.peers.len()
            invariant
                0 <= i <= self.peers@.len(),
                es == entries_view(self.peers@),
                keys_distinct(es),
                forall|k: int| 0 <= k < i ==> es[k].0 != ih@,
            decreases self.peers@.len() - i,
        {
            if bytes_equal(self.peers[i].0.as_slice(), ih.as_slice()) {
                proof {
                    assert(es[i as int].0 == self.peers@[i as int].0@);
                    let j = choose|j: int| 0 <= j < es.len() && es[j].0 == ih@;
                    assert(j == i as int);
                }
                return Some(i);
            }
            i = i + 1;
        }
        None
    }

    fn token_matches(&self, token: &[u8], addr: PeerAddr, node_id: &Id20) -> (r: bool)
        ensures
            r == token_known(self@.tokens, token@, addr, node_id@),
    {
        let mut i: usize = 0;
        while i < self.tokens.len()
            invariant
                0 <= i <= self.tokens@.len(),
                forall|k: int| 0 <= k < i ==> !(#[trigger] self.tokens@[k].token@ == token@ && same_addr(self.tokens@[k].addr, addr)
                    && self.tokens@[k].node_id@ == node_id@),
            decreases self.tokens@.len() - i,
        {
            let t = self.tokens[i];
            if bytes_equal(t.token.as_slice(), token) && addr_eq(t.addr, addr) && bytes_equal(t.node_id.as_slice(), node_id.as_slice()) {
                return true;
            }
            i = i + 1;
        }
        proof {
            if token_known(self@.tokens, token@, addr, node_id@) {
                let k = choose|k: int|
                    0 <= k < self@.tokens.len() && #[trigger] self@.tokens[k].token@ == token@ && same_addr(self@.tokens[k].addr, addr)
                        && self@.tokens[k].node_id@ == node_id@;
                assert(!(self.tokens@[k].token@ == token@ && same_addr(self.tokens@[k].addr, addr) && self.tokens@[k].node_id@
                    == node_id@));
            }
        }
        false
    }

    /// Stores a peer that announces itself for `info_hash` with `token`, as
    /// node `node_id` from `addr`; see `store_outcome`. Gives whether it is stored.
    #[verifier::rlimit(50)]
    pub fn store_peer(
        &mut self,
        info_hash: &Id20,
        token: &[u8],
        node_id: &Id20,
        port: u16,
        port_implied: bool,
        addr: PeerAddr,
        now: i64,
    ) -> (stored: bool)
        requires
            old(self).wf(),
        ensures
            final(self).wf(),
            (stored, final(self)@.peers, final(self)@.peers_len) == store_outcome(
                old(self)@,
                info_hash@,
                token@,
                node_id@,
                addr,
                port,
                port_implied,
                now,
            ),
            final(self)@.tokens == old(self)@.tokens,
            final(self)@.self_id == old(self)@.self_id,
            final(self)@.max_distance == old(self)@.max_distance,
            final(self)@.max_remembered_tokens == old(self)@.max_remembered_tokens,
            final(self)@.max_remembered_peers == old(self)@.max_remembered_peers,
    {
        let mut dist = [0u8; 20];
        let mut k: usize = 0;
        while k < 20
            invariant
                0 <= k <= 20,
                forall|m: int| 0 <= m < k ==> dist@[m] == info_hash@[m] ^ self.self_id@[m],
            decreases 20 - k,
        {
            dist[k] = info_hash[k] ^ self.self_id[k];
            k = k + 1;
        }
        assert(dist@ =~= distance(info_hash@, self.self_id@));
        if bytes_less(self.max_distance.as_slice(), dist.as_slice()) {
            return false;
        }
        if !self.token_matches(token, addr, node_id) {
            return false;
        }
        let a: PeerAddr = if port_implied { addr } else { (addr.0, addr.1, port) };
        let p = StoredPeer { addr: a, time_ms: now };
        let full = self.peers_len >= self.max_remembered_peers;
        let ghost es = self@.peers;
        match self.find_entry(info_hash) {
            Some(i) => {
                let ghost ps = es[i as int].1;
                assert(ps == self.peers@[i as int].1@);
                match find_peer_in(&self.peers[i].1, a) {
                    Some(j) => {
                        let mut entry = self.peers.remove(i);
                        entry.1.set(j, p);
                        self.peers.insert(i, entry);
                        proof {
                            assert(entries_view(self.peers@) =~= es.update(i as int, (info_hash@, ps.update(j as int, p))));
                            assert_keys_distinct_update(es, i as int, info_hash@, ps.update(j as int, p));
                        }
                        return true;
                    },
                    None => {},
                }
                proof {
                    assert(peer_pos(ps, a) is None);
                }
                if full {
                    return false;
                }
                let mut entry = self.peers.remove(i);
                entry.1.push(p);
                self.peers.insert(i, entry);
                proof {
                    assert(entries_view(self.peers@) =~= es.update(i as int, (info_hash@, ps.push(p))));
                    assert_keys_distinct_update(es, i as int, info_hash@, ps.push(p));
                }
            },
            None => {
                if full {
                    return false;
                }
                let single = vec![p];
                assert(single@ =~= seq![p]);
                self.peers.push((*info_hash, single));
                proof {
                    assert(entries_view(self.peers@) =~= es.push((info_hash@, seq![p])));
                    assert forall|a2: int, b2: int|
                        0 <= a2 < es.len() + 1 && 0 <= b2 < es.len() + 1 && a2 != b2 implies entries_view(self.peers@)[a2].0
                        != entries_view(self.peers@)[b2].0 by {
                        if a2 == es.len() {
                            assert(es[b2].0 != info_hash@);
                        } else if b2 == es.len() {
                            assert(es[a2].0 != info_hash@);
                        }
                    }
                }
            },
        }
        self.peers_len = self.peers_len + 1;
        true
    }

    /// The stored peers of `info_hash` of the wanted address families.
    pub fn get_for_info_hash(&self, info_hash: &Id20, want: Want) -> (r: Vec<PeerAddr>)
        requires
            self.wf(),
        ensures
            r@ == match entry_index(self@.peers, info_hash@) {
                Some(i) => wanted(self@.peers[i].1, want),
                None => Seq::empty(),
            },
    {
        match self.find_entry(info_hash) {
            None => Vec::new(),
            Some(i) => {
                let ps = &self.peers[i].1;
                let mut out: Vec<PeerAddr> = Vec::new();
                let mut j: usize = 0;
                while j < ps.len()
                    invariant
                        0 <= j <= ps@.len(),
                        out@ == wanted(ps@.take(j as int), want),
                    decreases ps@.len() - j,
                {
                    proof {
                        assert(ps@.take(j + 1).drop_last() =~= ps@.take(j as int));
                        assert(ps@.take(j + 1).last() == ps@[j as int]);
                    }
                    let a = ps[j].addr;
                    let ok = match want {
                        Want::V4 => !a.0,
                        Want::V6 => a.0,
                        Want::Both => true,
                    };
                    if ok {
                        out.push(a);
                    }
                    j = j + 1;
                }
                assert(ps@.take(j as int) =~= ps@);
                out
            },
        }
    }
}

fn find_peer_in(ps: &Vec<StoredPeer>, a: PeerAddr) -> (r: Option<usize>)
    ensures
        match r {
            Some(j) => j < ps@.len() && peer_pos(ps@, a) == Some(j as int),
            None => peer_pos(ps@, a) is None,
        },
{
    let mut j: usize = 0;
    while j < ps.len()
        invariant
            0 <= j <= ps@.len(),
            forall|m: int| 0 <= m < j ==> !same_addr(ps@[m].addr, a),
        decreases ps@.len() - j,
    {
        if addr_eq(ps[j].addr, a) {
            proof {
                let jj = choose|jj: int| 0 <= jj < ps@.len() && same_addr(ps@[jj].addr, a) && forall|m: int|
                    0 <= m < jj ==> !same_addr(ps@[m].addr, a);
                assert(jj == j as int);
            }
            return Some(j);
        }
        j = j + 1;
    }
    None
}

proof fn assert_keys_distinct_update(es: Seq<(Seq<u8>, Seq<StoredPeer>)>, i: int, k: Seq<u8>, ps: Seq<StoredPeer>)
    requires
        keys_distinct(es),
        0 <= i < es.len(),
        es[i].0 == k,
    ensures
        keys_distinct(es.update(i, (k, ps))),
{
    let u = es.update(i, (k, ps));
    assert forall|a: int, b: int| 0 <= a < u.len() && 0 <= b < u.len() && a != b implies u[a].0 != u[b].0 by {
        assert(es[a].0 != es[b].0);
    }
}

// ----- garbage collection, executable -----

fn keep_tokens_after(ts: &mut VecDeque<StoredToken>, cutoff: i64)
    ensures
        final(ts)@ == tokens_after(old(ts)@, cutoff),
{
    let ghost t = ts@;
    let mut out: VecDeque<StoredToken> = VecDeque::new();
    let mut i: usize = 0;
    while i < ts.len()
        invariant
            0 <= i <= t.len(),
            t == ts@,
            out@ == tokens_after(t.take(i as int), cutoff),
        decreases t.len() - i,
    {
        proof {
            assert(t.take(i + 1).drop_last() =~= t.take(i as int));
            assert(t.take(i + 1).last() == t[i as int]);
        }
        if ts[i].time_ms > cutoff {
            out.push_back(ts[i]);
        }
        i = i + 1;
    }
    assert(t.take(i as int) =~= t);
    *ts = out;
}

fn peers_seen_after(ps: &Vec<StoredPeer>, cutoff: i64) -> (r: Vec<StoredPeer>)
    ensures
        r@ == peers_after(ps@, cutoff),
{
    let mut out: Vec<StoredPeer> = Vec::new();
    let mut i: usize = 0;
    while i < ps.len()
        invariant
            0 <= i <= ps@.len(),
            out@ == peers_after(ps@.take(i as int), cutoff),
        decreases ps@.len() - i,
    {
        proof {
            assert(ps@.take(i + 1).drop_last() =~= ps@.take(i as int));
            assert(ps@.take(i + 1).last() == ps@[i as int]);
        }
        if ps[i].time_ms > cutoff {
            out.push(ps[i]);
        }
        i = i + 1;
    }
    assert(ps@.take(i as int) =~= ps@);
    out
}

fn cap_peers(ps: Vec<StoredPeer>) -> (r: Vec<StoredPeer>)
    ensures
        r@ == capped(ps@),
{
    if ps.len() > MAX_PEERS_PER_INFO_HASH {
        let mut sorted = sort_newest_first(ps);
        proof {
            lemma_sorted_len(ps@);
        }
        sorted.truncate(MAX_PEERS_PER_INFO_HASH);
        assert(sorted@ =~= newest_first(ps@).take(MAX_PEERS_PER_INFO_HASH as int));
        sorted
    } else {
        ps
    }
}

proof fn lemma_peers_after_len(ps: Seq<StoredPeer>, cutoff: i64)
    ensures
        peers_after(ps, cutoff).len() <= ps.len(),
    decreases ps.len(),
{
    if ps.len() > 0 {
        lemma_peers_after_len(ps.drop_last(), cutoff);
    }
}

proof fn lemma_capped_len(ps: Seq<StoredPeer>)
    ensures
        capped(ps).len() <= ps.len(),
{
    lemma_sorted_len(ps);
}

/// Expiry and capping drop entries and shorten them, keeping info hashes in order.
proof fn lemma_expired_keys(es: Seq<(Seq<u8>, Seq<StoredPeer>)>, cutoff: i64)
    ensures
        forall|k: int| 0 <= k < expired_and_capped(es, cutoff).len() ==> exists|m: int|
            0 <= m < es.len() && #[trigger] expired_and_capped(es, cutoff)[k].0 == es[m].0,
        keys_distinct(es) ==> keys_distinct(expired_and_capped(es, cutoff)),
        total_peers(expired_and_capped(es, cutoff)) <= total_peers(es),
    decreases es.len(),
{
    if es.len() > 0 {
        let p = es.drop_last();
        lemma_expired_keys(p, cutoff);
        let r = expired_and_capped(p, cutoff);
        let x = es.last();
        let ps = capped(peers_after(x.1, cutoff));
        lemma_peers_after_len(x.1, cutoff);
        lemma_capped_len(peers_after(x.1, cutoff));
        let out = expired_and_capped(es, cutoff);
        assert forall|k: int| 0 <= k < out.len() implies exists|m: int| 0 <= m < es.len() && #[trigger] out[k].0 == es[m].0 by {
            if k < r.len() {
                let m = choose|m: int| 0 <= m < p.len() && #[trigger] r[k].0 == p[m].0;
                assert(out[k] == r[k]);
                assert(es[m] == p[m]);
            } else {
                assert(out[k].0 == es[es.len() - 1].0);
            }
        }
        if keys_distinct(es) {
            assert forall|i: int, j: int| 0 <= i < p.len() && 0 <= j < p.len() && i != j implies p[i].0 != p[j].0 by {
                assert(es[i] == p[i] && es[j] == p[j]);
            }
            if ps.len() != 0 {
                assert forall|i: int, j: int| 0 <= i < out.len() && 0 <= j < out.len() && i != j implies out[i].0 != out[j].0 by {
                    if i < r.len() && j < r.len() {
                        assert(out[i] == r[i] && out[j] == r[j]);
                    } else if i == r.len() {
                        let m = choose|m: int| 0 <= m < p.len() && #[trigger] r[j].0 == p[m].0;
                        assert(es[m].0 != es[es.len() - 1].0);
                        assert(out[j] == r[j]);
                    } else {
                        let m = choose|m: int| 0 <= m < p.len() && #[trigger] r[i].0 == p[m].0;
                        assert(es[m].0 != es[es.len() - 1].0);
                        assert(out[i] == r[i]);
                    }
                }
            }
        }
        if ps.len() != 0 {
            assert(out.drop_last() =~= r);
        }
    }
}

fn expire_and_cap(es: &Vec<(Id20, Vec<StoredPeer>)>, cutoff: i64) -> (r: Vec<(Id20, Vec<StoredPeer>)>)
    ensures
        entries_view(r@) == expired_and_capped(entries_view(es@), cutoff),
{
    let ghost ev = entries_view(es@);
    let mut out: Vec<(Id20, Vec<StoredPeer>)> = Vec::new();
    let mut i: usize = 0;
    while i < es.len()
        invariant
            0 <= i <= es@.len(),
            ev == entries_view(es@),
            entries_view(out@) == expired_and_capped(ev.take(i as int), cutoff),
        decreases es@.len() - i,
    {
        proof {
            assert(ev.take(i + 1).drop_last() =~= ev.take(i as int));
            assert(ev.take(i + 1).last() == ev[i as int]);
        }
        let fresh = peers_seen_after(&es[i].1, cutoff);
        let kept = cap_peers(fresh);
        if kept.len() > 0 {
            let ghost before = entries_view(out@);
            let ghost kv = kept@;
            out.push((es[i].0, kept));
            assert(entries_view(out@) =~= before.push((es@[i as int].0@, kv)));
        }
        i = i + 1;
    }
    assert(ev.take(i as int) =~= ev);
    out
}

fn count_peers(es: &Vec<(Id20, Vec<StoredPeer>)>) -> (n: u32)
    requires
        total_peers(entries_view(es@)) <= u32::MAX,
    ensures
        n == total_peers(entries_view(es@)),
{
    let ghost ev = entries_view(es@);
    let mut n: u32 = 0;
    let mut i: usize = 0;
    while i < es.len()
        invariant
            0 <= i <= es@.len(),
            ev == entries_view(es@),
            total_peers(ev) <= u32::MAX,
            n == total_peers(ev.take(i as int)),
        decreases es@.len() - i,
    {
        proof {
            assert(ev.take(i + 1).drop_last() =~= ev.take(i as int));
            assert(ev.take(i + 1).last() == ev[i as int]);
            lemma_total_prefix(ev, i + 1);
        }
        n = n + es[i].1.len() as u32;
        i = i + 1;
    }
    assert(ev.take(i as int) =~= ev);
    n
}

proof fn lemma_total_prefix(es: Seq<(Seq<u8>, Seq<StoredPeer>)>, k: int)
    requires
        0 <= k <= es.len(),
    ensures
        total_peers(es.take(k)) <= total_peers(es),
    decreases es.len() - k,
{
    if k < es.len() {
        lemma_total_prefix(es, k + 1);
        assert(es.take(k + 1).drop_last() =~= es.take(k));
    } else {
        assert(es.take(k) =~= es);
    }
}

fn find_entry_in(es: &Vec<(Id20, Vec<StoredPeer>)>, ih: &Id20) -> (r: Option<usize>)
    requires
        keys_distinct(entries_view(es@)),
    ensures
        match r {
            Some(i) => i < es@.len() && entry_index(entries_view(es@), ih@) == Some(i as int),
            None => entry_index(entries_view(es@), ih@) is None,
        },
{
    let ghost ev = entries_view(es@);
    let mut i: usize = 0;
    while i < es.len()
        invariant
            0 <= i <= es@.len(),
            ev == entries_view(es@),
            keys_distinct(ev),
            forall|k: int| 0 <= k < i ==> ev[k].0 != ih@,
        decreases es@.len() - i,
    {
        if bytes_equal(es[i].0.as_slice(), ih.as_slice()) {
            proof {
                assert(ev[i as int].0 == es@[i as int].0@);
                let j = choose|j: int| 0 <= j < ev.len() && ev[j].0 == ih@;
                assert(j == i as int);
            }
            return Some(i);
        }
        i = i + 1;
    }
    None
}

proof fn lemma_keys_distinct_remove(es: Seq<(Seq<u8>, Seq<StoredPeer>)>, i: int)
    requires
        keys_distinct(es),
        0 <= i < es.len(),
    ensures
        keys_distinct(es.remove(i)),
{
    let t = es.remove(i);
    assert forall|a: int, b: int| 0 <= a < t.len() && 0 <= b < t.len() && a != b implies t[a].0 != t[b].0 by {
        let sa = if a < i { a } else { a + 1 };
        let sb = if b < i { b } else { b + 1 };
        assert(t[a] == es[sa] && t[b] == es[sb]);
    }
}

// ----- eviction of the oldest peers -----

proof fn lemma_counts_le(ps: Seq<StoredPeer>, t: i64)
    ensures
        count_older(ps, t) + count_at(ps, t) <= ps.len(),
    decreases ps.len(),
{
    if ps.len() > 0 {
        lemma_counts_le(ps.drop_last(), t);
    }
}

proof fn lemma_counts_in_le(es: Seq<(Seq<u8>, Seq<StoredPeer>)>, t: i64)
    ensures
        older_in(es, t) + at_in(es, t) <= total_peers(es),
    decreases es.len(),
{
    if es.len() > 0 {
        lemma_counts_in_le(es.drop_last(), t);
        lemma_counts_le(es.last().1, t);
    }
}

proof fn lemma_none_older_than_min(es: Seq<(Seq<u8>, Seq<StoredPeer>)>)
    ensures
        older_in(es, i64::MIN) == 0,
    decreases es.len(),
{
    if es.len() > 0 {
        lemma_none_older_than_min(es.drop_last());
        lemma_no_peer_older_than_min(es.last().1);
    }
}

proof fn lemma_no_peer_older_than_min(ps: Seq<StoredPeer>)
    ensures
        count_older(ps, i64::MIN) == 0,
    decreases ps.len(),
{
    if ps.len() > 0 {
        lemma_no_peer_older_than_min(ps.drop_last());
    }
}

proof fn lemma_min_above(ps: Seq<StoredPeer>, t: i64)
    ensures
        match min_above(ps, t) {
            Some(m) => m > t && count_at(ps, m) > 0 && forall|k: int|
                0 <= k < ps.len() && (#[trigger] ps[k]).time_ms > t ==> ps[k].time_ms >= m,
            None => forall|k: int| 0 <= k < ps.len() ==> (#[trigger] ps[k]).time_ms <= t,
        },
    decreases ps.len(),
{
    if ps.len() > 0 {
        let p = ps.drop_last();
        lemma_min_above(p, t);
        assert forall|k: int| 0 <= k < p.len() implies #[trigger] ps[k] == p[k] by {}
        match min_above(ps, t) {
            Some(m) => {
                assert forall|k: int| 0 <= k < ps.len() && (#[trigger] ps[k]).time_ms > t implies ps[k].time_ms >= m by {
                    if k < p.len() {
                        assert(ps[k] == p[k]);
                    }
                }
            },
            None => {
                assert forall|k: int| 0 <= k < ps.len() implies (#[trigger] ps[k]).time_ms <= t by {
                    if k < p.len() {
                        assert(ps[k] == p[k]);
                    }
                }
            },
        }
    }
}

proof fn lemma_min_above_in(es: Seq<(Seq<u8>, Seq<StoredPeer>)>, t: i64)
    ensures
        match min_above_in(es, t) {
            Some(m) => m > t && at_in(es, m) > 0 && forall|i: int, k: int|
                0 <= i < es.len() && 0 <= k < es[i].1.len() && (#[trigger] es[i].1[k]).time_ms > t ==> es[i].1[k].time_ms >= m,
            None => forall|i: int, k: int| 0 <= i < es.len() && 0 <= k < es[i].1.len() ==> (#[trigger] es[i].1[k]).time_ms <= t,
        },
    decreases es.len(),
{
    if es.len() > 0 {
        let p = es.drop_last();
        let last = es.last().1;
        lemma_min_above_in(p, t);
        lemma_min_above(last, t);
        assert(es[es.len() - 1].1 == last);
        match min_above_in(es, t) {
            Some(m) => {
                assert forall|i: int, k: int|
                    0 <= i < es.len() && 0 <= k < es[i].1.len() && (#[trigger] es[i].1[k]).time_ms > t implies es[i].1[k].time_ms >= m by {
                    if i < p.len() {
                        assert(es[i] == p[i]);
                    } else {
                        assert(last[k] == es[i].1[k]);
                    }
                }
            },
            None => {
                assert forall|i: int, k: int| 0 <= i < es.len() && 0 <= k < es[i].1.len() implies (#[trigger] es[i].1[k]).time_ms <= t by {
                    if i < p.len() {
                        assert(es[i] == p[i]);
                    } else {
                        assert(last[k] == es[i].1[k]);
                    }
                }
            },
        }
    }
}

proof fn lemma_no_gap(ps: Seq<StoredPeer>, t: i64, m: i64)
    requires
        t < m,
        forall|k: int| 0 <= k < ps.len() ==> (#[trigger] ps[k]).time_ms <= t || ps[k].time_ms >= m,
    ensures
        count_older(ps, m) == count_older(ps, t) + count_at(ps, t),
    decreases ps.len(),
{
    if ps.len() > 0 {
        let p = ps.drop_last();
        assert forall|k: int| 0 <= k < p.len() implies (#[trigger] p[k]).time_ms <= t || p[k].time_ms >= m by {
            assert(p[k] == ps[k]);
        }
        lemma_no_gap(p, t, m);
        assert(ps[ps.len() - 1] == ps.last());
    }
}

proof fn lemma_no_gap_in(es: Seq<(Seq<u8>, Seq<StoredPeer>)>, t: i64, m: i64)
    requires
        t < m,
        forall|i: int, k: int| 0 <= i < es.len() && 0 <= k < es[i].1.len() ==> (#[trigger] es[i].1[k]).time_ms <= t || es[i].1[k].time_ms >= m,
    ensures
        older_in(es, m) == older_in(es, t) + at_in(es, t),
    decreases es.len(),
{
    if es.len() > 0 {
        let p = es.drop_last();
        let last = es.last().1;
        assert forall|i: int, k: int| 0 <= i < p.len() && 0 <= k < p[i].1.len() implies (#[trigger] p[i].1[k]).time_ms <= t || p[i].1[k].time_ms >= m by {
            assert(p[i] == es[i]);
        }
        assert forall|k: int| 0 <= k < last.len() implies (#[trigger] last[k]).time_ms <= t || last[k].time_ms >= m by {
            assert(es[es.len() - 1].1[k] == last[k]);
        }
        lemma_no_gap_in(p, t, m);
        lemma_no_gap(last, t, m);
    }
}

proof fn lemma_all_upto(ps: Seq<StoredPeer>, t: i64)
    requires
        forall|k: int| 0 <= k < ps.len() ==> (#[trigger] ps[k]).time_ms <= t,
    ensures
        count_older(ps, t) + count_at(ps, t) == ps.len(),
    decreases ps.len(),
{
    if ps.len() > 0 {
        let p = ps.drop_last();
        assert forall|k: int| 0 <= k < p.len() implies (#[trigger] p[k]).time_ms <= t by {
            assert(p[k] == ps[k]);
        }
        lemma_all_upto(p, t);
        assert(ps[ps.len() - 1] == ps.last());
    }
}

proof fn lemma_all_upto_in(es: Seq<(Seq<u8>, Seq<StoredPeer>)>, t: i64)
    requires
        forall|i: int, k: int| 0 <= i < es.len() && 0 <= k < es[i].1.len() ==> (#[trigger] es[i].1[k]).time_ms <= t,
    ensures
        older_in(es, t) + at_in(es, t) == total_peers(es),
    decreases es.len(),
{
    if es.len() > 0 {
        let p = es.drop_last();
        let last = es.last().1;
        assert forall|i: int, k: int| 0 <= i < p.len() && 0 <= k < p[i].1.len() implies (#[trigger] p[i].1[k]).time_ms <= t by {
            assert(p[i] == es[i]);
        }
        assert forall|k: int| 0 <= k < last.len() implies (#[trigger] last[k]).time_ms <= t by {
            assert(es[es.len() - 1].1[k] == last[k]);
        }
        lemma_all_upto_in(p, t);
        lemma_all_upto(last, t);
    }
}

proof fn lemma_counts_monotone(ps: Seq<StoredPeer>, t1: i64, t2: i64)
    requires
        t1 < t2,
    ensures
        count_older(ps, t1) + count_at(ps, t1) <= count_older(ps, t2),
    decreases ps.len(),
{
    if ps.len() > 0 {
        lemma_counts_monotone(ps.drop_last(), t1, t2);
    }
}

proof fn lemma_counts_in_monotone(es: Seq<(Seq<u8>, Seq<StoredPeer>)>, t1: i64, t2: i64)
    requires
        t1 < t2,
    ensures
        older_in(es, t1) + at_in(es, t1) <= older_in(es, t2),
    decreases es.len(),
{
    if es.len() > 0 {
        lemma_counts_in_monotone(es.drop_last(), t1, t2);
        lemma_counts_monotone(es.last().1, t1, t2);
    }
}

/// At most one time is the time of the `n`-th oldest peer.
proof fn lemma_eviction_time_unique(es: Seq<(Seq<u8>, Seq<StoredPeer>)>, n: nat, t: i64)
    requires
        is_eviction_time(es, n, t),
    ensures
        eviction_time(es, n) == t,
{
    let u = eviction_time(es, n);
    assert(is_eviction_time(es, n, u));
    if u < t {
        lemma_counts_in_monotone(es, u, t);
    } else if t < u {
        lemma_counts_in_monotone(es, t, u);
    }
}

/// While fewer than `n` peers are older than `t` and at least `n` are
/// stored, the time of the `n`-th oldest peer exists.
proof fn lemma_eviction_time_exists(es: Seq<(Seq<u8>, Seq<StoredPeer>)>, n: nat, t: i64)
    requires
        older_in(es, t) < n <= total_peers(es),
    ensures
        is_eviction_time(es, n, eviction_time(es, n)),
    decreases total_peers(es) - (older_in(es, t) + at_in(es, t)),
{
    lemma_counts_in_le(es, t);
    if n <= older_in(es, t) + at_in(es, t) {
        lemma_eviction_time_unique(es, n, t);
    } else {
        lemma_min_above_in(es, t);
        match min_above_in(es, t) {
            Some(m) => {
                lemma_no_gap_in(es, t, m);
                lemma_counts_in_le(es, m);
                lemma_eviction_time_exists(es, n, m);
            },
            None => {
                lemma_all_upto_in(es, t);
            },
        }
    }
}

proof fn lemma_trim_len(ps: Seq<StoredPeer>, t: i64, b: int)
    ensures
        trim_peers(ps, t, b).len() == ps.len() - count_older(ps, t) - clamp(b, count_at(ps, t) as int),
    decreases ps.len(),
{
    if ps.len() > 0 {
        lemma_trim_len(ps.drop_last(), t, b);
    }
}

proof fn lemma_trimmed_total(es: Seq<(Seq<u8>, Seq<StoredPeer>)>, t: i64, c: int)
    ensures
        total_peers(trimmed(es, t, c)) == total_peers(es) - older_in(es, t) - clamp(c, at_in(es, t) as int),
    decreases es.len(),
{
    if es.len() > 0 {
        let p = es.drop_last();
        lemma_trimmed_total(p, t, c);
        lemma_trim_len(es.last().1, t, c - at_in(p, t));
        let ps = trim_peers(es.last().1, t, c - at_in(p, t));
        if ps.len() != 0 {
            assert(trimmed(es, t, c).drop_last() =~= trimmed(p, t, c));
        }
    }
}

/// Every peer kept was in the entry and was not seen before `t`.
proof fn lemma_trim_members(ps: Seq<StoredPeer>, t: i64, b: int)
    ensures
        forall|k: int| 0 <= k < trim_peers(ps, t, b).len() ==> ps.contains(#[trigger] trim_peers(ps, t, b)[k])
            && trim_peers(ps, t, b)[k].time_ms >= t,
    decreases ps.len(),
{
    if ps.len() > 0 {
        let p = ps.drop_last();
        lemma_trim_members(p, t, b);
        let r = trim_peers(p, t, b);
        let out = trim_peers(ps, t, b);
        assert forall|k: int| 0 <= k < out.len() implies ps.contains(#[trigger] out[k]) && out[k].time_ms >= t by {
            if k < r.len() {
                assert(out[k] == r[k]);
                let m = choose|m: int| 0 <= m < p.len() && p[m] == r[k];
                assert(ps[m] == p[m]);
            } else {
                assert(out[k] == ps[ps.len() - 1]);
            }
        }
    }
}

/// Every peer seen after `t` is kept.
proof fn lemma_trim_keeps_newer(ps: Seq<StoredPeer>, t: i64, b: int)
    ensures
        forall|k: int| 0 <= k < ps.len() && (#[trigger] ps[k]).time_ms > t ==> trim_peers(ps, t, b).contains(ps[k]),
    decreases ps.len(),
{
    if ps.len() > 0 {
        let p = ps.drop_last();
        lemma_trim_keeps_newer(p, t, b);
        let r = trim_peers(p, t, b);
        let out = trim_peers(ps, t, b);
        assert forall|k: int| 0 <= k < ps.len() && (#[trigger] ps[k]).time_ms > t implies out.contains(ps[k]) by {
            if k < p.len() {
                assert(ps[k] == p[k]);
                let m = choose|m: int| 0 <= m < r.len() && r[m] == p[k];
                assert(out[m] == r[m]);
            } else {
                assert(out[out.len() - 1] == ps[k]);
            }
        }
    }
}

/// An entry after eviction comes from the entry of the same info hash: it
/// has a peer, no more than that entry had, and each was in that entry and
/// was not seen before `t`.
pub open spec fn drawn_from(x: (Seq<u8>, Seq<StoredPeer>), y: (Seq<u8>, Seq<StoredPeer>), t: i64) -> bool {
    &&& x.0 == y.0
    &&& 0 < x.1.len() <= y.1.len()
    &&& forall|q: int| 0 <= q < x.1.len() ==> y.1.contains(#[trigger] x.1[q]) && x.1[q].time_ms >= t
}

/// Some entry of `es` is the one `x` is drawn from.
pub open spec fn has_source(es: Seq<(Seq<u8>, Seq<StoredPeer>)>, x: (Seq<u8>, Seq<StoredPeer>), t: i64) -> bool {
    exists|m: int| 0 <= m < es.len() && #[trigger] drawn_from(x, es[m], t)
}

/// Eviction drops entries and peers, keeping info hashes distinct, and keeps
/// every peer seen after `t`.
proof fn lemma_trimmed_entries(es: Seq<(Seq<u8>, Seq<StoredPeer>)>, t: i64, c: int)
    ensures
        forall|j: int| 0 <= j < trimmed(es, t, c).len() ==> #[trigger] has_source(es, trimmed(es, t, c)[j], t),
        keys_distinct(es) ==> keys_distinct(trimmed(es, t, c)),
        forall|i: int, k: int| 0 <= i < es.len() && 0 <= k < es[i].1.len() && (#[trigger] es[i].1[k]).time_ms > t
            ==> exists|j: int| 0 <= j < trimmed(es, t, c).len() && #[trigger] trimmed(es, t, c)[j].0 == es[i].0
                && trimmed(es, t, c)[j].1.contains(es[i].1[k]),
    decreases es.len(),
{
    if es.len() > 0 {
        let p = es.drop_last();
        lemma_trimmed_entries(p, t, c);
        let r = trimmed(p, t, c);
        let x = es.last();
        let b = c - at_in(p, t);
        let ps = trim_peers(x.1, t, b);
        lemma_trim_len(x.1, t, b);
        lemma_trim_members(x.1, t, b);
        lemma_trim_keeps_newer(x.1, t, b);
        let out = trimmed(es, t, c);
        assert forall|k: int| 0 <= k < p.len() implies #[trigger] es[k] == p[k] by {}
        assert(es[es.len() - 1] == x);
        if ps.len() != 0 {
            assert(out.drop_last() =~= r);
            assert(out[out.len() - 1] == (x.0, ps));
        } else {
            assert(out == r);
        }
        assert forall|j: int| 0 <= j < out.len() implies #[trigger] has_source(es, out[j], t) by {
            if j < r.len() {
                assert(has_source(p, r[j], t));
                let m = choose|m: int| 0 <= m < p.len() && #[trigger] drawn_from(r[j], p[m], t);
                assert(out[j] == r[j]);
                assert(drawn_from(out[j], es[m], t));
            } else {
                assert(drawn_from(out[j], es[es.len() - 1], t));
            }
        }
        assert forall|i: int, k: int| 0 <= i < es.len() && 0 <= k < es[i].1.len() && (#[trigger] es[i].1[k]).time_ms > t implies exists|j: int|
            0 <= j < out.len() && #[trigger] out[j].0 == es[i].0 && out[j].1.contains(es[i].1[k]) by {
            if i < p.len() {
                assert(p[i].1[k] == es[i].1[k]);
                let j = choose|j: int| 0 <= j < r.len() && #[trigger] r[j].0 == p[i].0 && r[j].1.contains(p[i].1[k]);
                assert(out[j] == r[j]);
            } else {
                assert(x.1[k] == es[i].1[k]);
                assert(ps.contains(x.1[k]));
                assert(out[out.len() - 1].0 == es[i].0);
            }
        }
        if keys_distinct(es) {
            assert forall|a: int, b2: int| 0 <= a < p.len() && 0 <= b2 < p.len() && a != b2 implies p[a].0 != p[b2].0 by {
                assert(es[a] == p[a] && es[b2] == p[b2]);
            }
            if ps.len() != 0 {
                assert forall|a: int, b2: int| 0 <= a < out.len() && 0 <= b2 < out.len() && a != b2 implies out[a].0 != out[b2].0 by {
                    if a < r.len() && b2 < r.len() {
                        assert(out[a] == r[a] && out[b2] == r[b2]);
                    } else if a == r.len() {
                        assert(has_source(p, r[b2], t));
                        let m = choose|m: int| 0 <= m < p.len() && #[trigger] drawn_from(r[b2], p[m], t);
                        assert(es[m].0 != es[es.len() - 1].0);
                        assert(out[b2] == r[b2]);
                    } else {
                        assert(has_source(p, r[a], t));
                        let m = choose|m: int| 0 <= m < p.len() && #[trigger] drawn_from(r[a], p[m], t);
                        assert(es[m].0 != es[es.len() - 1].0);
                        assert(out[a] == r[a]);
                    }
                }
            }
        }
    }
}

/// How many peers were seen before `t`, and how many at `t`.
fn count_around(es: &Vec<(Id20, Vec<StoredPeer>)>, t: i64) -> (r: (u32, u32))
    requires
        total_peers(entries_view(es@)) <= u32::MAX,
    ensures
        r.0 == older_in(entries_view(es@), t),
        r.1 == at_in(entries_view(es@), t),
{
    let ghost ev = entries_view(es@);
    let mut older: u32 = 0;
    let mut at: u32 = 0;
    let mut i: usize = 0;
    while i < es.len()
        invariant
            0 <= i <= es@.len(),
            ev == entries_view(es@),
            total_peers(ev) <= u32::MAX,
            older == older_in(ev.take(i as int), t),
            at == at_in(ev.take(i as int), t),
            older + at <= total_peers(ev.take(i as int)),
        decreases es@.len() - i,
    {
        proof {
            assert(ev.take(i + 1).drop_last() =~= ev.take(i as int));
            assert(ev.take(i + 1).last() == ev[i as int]);
            lemma_total_prefix(ev, i + 1);
        }
        let ps = &es[i].1;
        let ghost base = total_peers(ev.take(i as int));
        let mut j: usize = 0;
        while j < ps.len()
            invariant
                0 <= j <= ps@.len(),
                ps@ == ev[i as int].1,
                base + ps@.len() <= u32::MAX,
                older == older_in(ev.take(i as int), t) + count_older(ps@.take(j as int), t),
                at == at_in(ev.take(i as int), t) + count_at(ps@.take(j as int), t),
                older + at <= base + j,
            decreases ps@.len() - j,
        {
            proof {
                assert(ps@.take(j + 1).drop_last() =~= ps@.take(j as int));
                assert(ps@.take(j + 1).last() == ps@[j as int]);
            }
            let x = ps[j].time_ms;
            if x < t {
                older = older + 1;
            } else if x == t {
                at = at + 1;
            }
            j = j + 1;
        }
        assert(ps@.take(j as int) =~= ps@);
        i = i + 1;
    }
    assert(ev.take(i as int) =~= ev);
    (older, at)
}

/// The earliest time after `t` at which a peer was seen.
fn next_time_after(es: &Vec<(Id20, Vec<StoredPeer>)>, t: i64) -> (r: Option<i64>)
    ensures
        r == min_above_in(entries_view(es@), t),
{
    let ghost ev = entries_view(es@);
    let mut r: Option<i64> = None;
    let mut i: usize = 0;
    while i < es.len()
        invariant
            0 <= i <= es@.len(),
            ev == entries_view(es@),
            r == min_above_in(ev.take(i as int), t),
        decreases es@.len() - i,
    {
        proof {
            assert(ev.take(i + 1).drop_last() =~= ev.take(i as int));
            assert(ev.take(i + 1).last() == ev[i as int]);
        }
        let ps = &es[i].1;
        let mut m: Option<i64> = None;
        let mut j: usize = 0;
        while j < ps.len()
            invariant
                0 <= j <= ps@.len(),
                ps@ == ev[i as int].1,
                m == min_above(ps@.take(j as int), t),
            decreases ps@.len() - j,
        {
            proof {
                assert(ps@.take(j + 1).drop_last() =~= ps@.take(j as int));
                assert(ps@.take(j + 1).last() == ps@[j as int]);
            }
            let x = ps[j].time_ms;
            if x > t {
                m = match m {
                    Some(y) => Some(if x < y { x } else { y }),
                    None => Some(x),
                };
            }
            j = j + 1;
        }
        assert(ps@.take(j as int) =~= ps@);
        r = match m {
            Some(x) => match r {
                Some(y) => Some(if x < y { x } else { y }),
                None => Some(x),
            },
            None => r,
        };
        i = i + 1;
    }
    assert(ev.take(i as int) =~= ev);
    r
}

/// The entries without the peers seen before `t` and the first `c` of those
/// seen at `t`.
fn trim_entries(es: &Vec<(Id20, Vec<StoredPeer>)>, t: i64, c: u32) -> (r: Vec<(Id20, Vec<StoredPeer>)>)
    requires
        total_peers(entries_view(es@)) <= u32::MAX,
    ensures
        entries_view(r@) == trimmed(entries_view(es@), t, c as int),
{
    let ghost ev = entries_view(es@);
    let mut out: Vec<(Id20, Vec<StoredPeer>)> = Vec::new();
    let mut ties: u32 = 0;
    let mut i: usize = 0;
    while i < es.len()
        invariant
            0 <= i <= es@.len(),
            ev == entries_view(es@),
            total_peers(ev) <= u32::MAX,
            entries_view(out@) == trimmed(ev.take(i as int), t, c as int),
            ties == at_in(ev.take(i as int), t),
            ties <= total_peers(ev.take(i as int)),
        decreases es@.len() - i,
    {
        proof {
            assert(ev.take(i + 1).drop_last() =~= ev.take(i as int));
            assert(ev.take(i + 1).last() == ev[i as int]);
            lemma_total_prefix(ev, i + 1);
        }
        let ps = &es[i].1;
        let ghost base = total_peers(ev.take(i as int));
        let ghost b = c - at_in(ev.take(i as int), t);
        let mut kept: Vec<StoredPeer> = Vec::new();
        let mut j: usize = 0;
        while j < ps.len()
            invariant
                0 <= j <= ps@.len(),
                ps@ == ev[i as int].1,
                base + ps@.len() <= u32::MAX,
                b == c - at_in(ev.take(i as int), t),
                kept@ == trim_peers(ps@.take(j as int), t, b),
                ties == at_in(ev.take(i as int), t) + count_at(ps@.take(j as int), t),
                ties <= base + j,
            decreases ps@.len() - j,
        {
            proof {
                assert(ps@.take(j + 1).drop_last() =~= ps@.take(j as int));
                assert(ps@.take(j + 1).last() == ps@[j as int]);
            }
            let x = ps[j];
            if x.time_ms > t {
                kept.push(x);
            } else if x.time_ms == t {
                if ties >= c {
                    kept.push(x);
                }
                ties = ties + 1;
            }
            j = j + 1;
        }
        assert(ps@.take(j as int) =~= ps@);
        if kept.len() > 0 {
            let ghost before = entries_view(out@);
            let ghost kv = kept@;
            out.push((es[i].0, kept));
            assert(entries_view(out@) =~= before.push((es@[i as int].0@, kv)));
        }
        i = i + 1;
    }
    assert(ev.take(i as int) =~= ev);
    out
}

impl PeerStore {
    /// Garbage collection at `now`: tokens older than ten minutes go; then the
    /// peers go as `collected` says; the count of peers becomes the true count.
    pub fn garbage_collect_peers(&mut self, now: i64)
        requires
            old(self).wf(),
            now >= i64::MIN + PEER_TTL_MS,
            total_peers(expired_and_capped(old(self)@.peers, (now - PEER_TTL_MS) as i64)) <= u32::MAX,
        ensures
            final(self).wf(),
            final(self)@.tokens == tokens_after(old(self)@.tokens, (now - TOKEN_TTL_MS) as i64),
            final(self)@.peers == collected(old(self)@.peers, now, old(self)@.max_remembered_peers),
            final(self)@.peers_len == total_peers(final(self)@.peers),
            final(self)@.self_id == old(self)@.self_id,
            final(self)@.max_distance == old(self)@.max_distance,
            final(self)@.max_remembered_tokens == old(self)@.max_remembered_tokens,
            final(self)@.max_remembered_peers == old(self)@.max_remembered_peers,
    {
        keep_tokens_after(&mut self.tokens, now - TOKEN_TTL_MS);
        let cutoff = now - PEER_TTL_MS;
        let mut es = expire_and_cap(&self.peers, cutoff);
        proof {
            lemma_expired_keys(entries_view(self.peers@), cutoff);
        }
        let actual = count_peers(&es);
        let max = self.max_remembered_peers;
        if actual > max {
            let ghost ev = entries_view(es@);
            let n = actual - max;
            let mut t: i64 = i64::MIN;
            proof {
                lemma_none_older_than_min(ev);
                lemma_counts_in_le(ev, t);
            }
            let (mut older, mut at) = count_around(&es, t);
            while older + at < n
                invariant
                    ev == entries_view(es@),
                    total_peers(ev) == actual,
                    actual <= u32::MAX,
                    0 < n <= actual,
                    older == older_in(ev, t),
                    at == at_in(ev, t),
                    older + at <= actual,
                    older < n,
                decreases actual - (older + at),
            {
                proof {
                    lemma_min_above_in(ev, t);
                    if min_above_in(ev, t) is None {
                        lemma_all_upto_in(ev, t);
                    }
                }
                if let Some(m) = next_time_after(&es, t) {
                    proof {
                        lemma_no_gap_in(ev, t, m);
                        lemma_counts_in_le(ev, m);
                    }
                    t = m;
                    let counts = count_around(&es, t);
                    older = counts.0;
                    at = counts.1;
                }
            }
            proof {
                lemma_eviction_time_unique(ev, n as nat, t);
                lemma_trimmed_total(ev, t, (n - older) as int);
                lemma_trimmed_entries(ev, t, (n - older) as int);
            }
            es = trim_entries(&es, t, n - older);
        }
        let final_count = count_peers(&es);
        self.peers = es;
        self.peers_len = final_count;
    }
}

proof fn lemma_total_update(es: Seq<(Seq<u8>, Seq<StoredPeer>)>, i: int, e: (Seq<u8>, Seq<StoredPeer>))
    requires
        0 <= i < es.len(),
    ensures
        total_peers(es.update(i, e)) + es[i].1.len() == total_peers(es) + e.1.len(),
    decreases es.len(),
{
    let u = es.update(i, e);
    if i == es.len() - 1 {
        assert(u.drop_last() =~= es.drop_last());
    } else {
        lemma_total_update(es.drop_last(), i, e);
        assert(u.drop_last() =~= es.drop_last().update(i, e));
    }
}

proof fn lemma_total_remove(es: Seq<(Seq<u8>, Seq<StoredPeer>)>, i: int)
    requires
        0 <= i < es.len(),
    ensures
        total_peers(es.remove(i)) + es[i].1.len() == total_peers(es),
    decreases es.len(),
{
    let t = es.remove(i);
    if i == es.len() - 1 {
        assert(t =~= es.drop_last());
    } else {
        lemma_total_remove(es.drop_last(), i);
        assert(t.drop_last() =~= es.drop_last().remove(i));
        assert(t.last() == es.last());
    }
}

// ----- laws -----

/// Every peer of the newest-first list was in the list.
proof fn lemma_sorted_members(s: Seq<StoredPeer>)
    ensures
        forall|k: int| 0 <= k < newest_first(s).len() ==> s.contains(#[trigger] newest_first(s)[k]),
    decreases s.len(),
{
    if s.len() > 0 {
        let p = s.drop_last();
        lemma_sorted_members(p);
        lemma_sorted_len(p);
        let rn = newest_first(p);
        lemma_first_bounds(rn, s.last().time_ms);
        let n = newest_first(s);
        let kn = first_below(rn, s.last().time_ms) as int;
        assert forall|k: int| 0 <= k < n.len() implies s.contains(#[trigger] n[k]) by {
            if k < kn {
                assert(n[k] == rn[k]);
                assert(p.contains(rn[k]));
                let m = choose|m: int| 0 <= m < p.len() && p[m] == rn[k];
                assert(s[m] == p[m]);
            } else if k == kn {
                assert(s[s.len() - 1] == s.last());
            } else {
                assert(n[k] == rn[k - 1]);
                assert(p.contains(rn[k - 1]));
                let m = choose|m: int| 0 <= m < p.len() && p[m] == rn[k - 1];
                assert(s[m] == p[m]);
            }
        }
    }
}

/// Every peer kept by expiry was seen after the cutoff.
proof fn lemma_peers_after_fresh(ps: Seq<StoredPeer>, cutoff: i64)
    ensures
        forall|k: int| 0 <= k < peers_after(ps, cutoff).len() ==> #[trigger] peers_after(ps, cutoff)[k].time_ms > cutoff,
    decreases ps.len(),
{
    if ps.len() > 0 {
        lemma_peers_after_fresh(ps.drop_last(), cutoff);
        let r = peers_after(ps.drop_last(), cutoff);
        let out = peers_after(ps, cutoff);
        assert forall|k: int| 0 <= k < out.len() implies #[trigger] out[k].time_ms > cutoff by {
            if k < r.len() {
                assert(out[k] == r[k]);
            }
        }
    }
}

/// An entry is in good order after garbage collection at a cutoff: it has a
/// peer, at most a hundred, and every one was seen after the cutoff.
pub open spec fn entry_ok(e: (Seq<u8>, Seq<StoredPeer>), cutoff: i64) -> bool {
    &&& 0 < e.1.len() <= MAX_PEERS_PER_INFO_HASH
    &&& forall|k: int| 0 <= k < e.1.len() ==> #[trigger] e.1[k].time_ms > cutoff
}

proof fn lemma_expired_ok(es: Seq<(Seq<u8>, Seq<StoredPeer>)>, cutoff: i64)
    ensures
        forall|k: int| 0 <= k < expired_and_capped(es, cutoff).len() ==> entry_ok(
            #[trigger] expired_and_capped(es, cutoff)[k],
            cutoff,
        ),
    decreases es.len(),
{
    if es.len() > 0 {
        lemma_expired_ok(es.drop_last(), cutoff);
        let r = expired_and_capped(es.drop_last(), cutoff);
        let out = expired_and_capped(es, cutoff);
        let pa = peers_after(es.last().1, cutoff);
        let c = capped(pa);
        lemma_peers_after_fresh(es.last().1, cutoff);
        lemma_sorted_len(pa);
        lemma_sorted_members(pa);
        assert forall|k: int| 0 <= k < c.len() implies #[trigger] c[k].time_ms > cutoff by {
            if pa.len() > MAX_PEERS_PER_INFO_HASH {
                assert(c[k] == newest_first(pa)[k]);
                assert(pa.contains(newest_first(pa)[k]));
            }
        }
        assert forall|k: int| 0 <= k < out.len() implies entry_ok(#[trigger] out[k], cutoff) by {
            if k < r.len() {
                assert(out[k] == r[k]);
            }
        }
    }
}

/// After garbage collection, every stored peer was seen within the last
/// fifteen minutes, and every info hash keeps at least one and at most a
/// hundred peers.
pub proof fn lemma_collected_entries_ok(es: Seq<(Seq<u8>, Seq<StoredPeer>)>, now: i64, max_peers: u32)
    requires
        now >= i64::MIN + PEER_TTL_MS,
    ensures
        forall|k: int| 0 <= k < collected(es, now, max_peers).len() ==> entry_ok(
            #[trigger] collected(es, now, max_peers)[k],
            (now - PEER_TTL_MS) as i64,
        ),
{
    let cutoff = (now - PEER_TTL_MS) as i64;
    lemma_expired_ok(es, cutoff);
    let p = expired_and_capped(es, cutoff);
    let total = total_peers(p);
    if total > max_peers {
        let n = (total - max_peers) as nat;
        let t = eviction_time(p, n);
        let c = n - older_in(p, t);
        let r = trimmed(p, t, c);
        lemma_trimmed_entries(p, t, c);
        assert forall|k: int| 0 <= k < r.len() implies entry_ok(#[trigger] r[k], cutoff) by {
            assert(has_source(p, r[k], t));
            let m = choose|m: int| 0 <= m < p.len() && #[trigger] drawn_from(r[k], p[m], t);
            assert(entry_ok(p[m], cutoff));
            assert forall|q: int| 0 <= q < r[k].1.len() implies #[trigger] r[k].1[q].time_ms > cutoff by {
                assert(p[m].1.contains(r[k].1[q]));
                let z = choose|z: int| 0 <= z < p[m].1.len() && p[m].1[z] == r[k].1[q];
                assert(p[m].1[z].time_ms > cutoff);
            }
        }
    }
}

/// After garbage collection no more peers are stored than the store
/// remembers (when there were more, exactly that many are left).
pub proof fn lemma_collected_within_cap(es: Seq<(Seq<u8>, Seq<StoredPeer>)>, now: i64, max_peers: u32)
    ensures
        total_peers(collected(es, now, max_peers)) <= max_peers,
        total_peers(expired_and_capped(es, (now - PEER_TTL_MS) as i64)) > max_peers ==> total_peers(
            collected(es, now, max_peers),
        ) == max_peers,
{
    let cutoff = (now - PEER_TTL_MS) as i64;
    let p = expired_and_capped(es, cutoff);
    let total = total_peers(p);
    if total > max_peers {
        let n = (total - max_peers) as nat;
        lemma_none_older_than_min(p);
        lemma_eviction_time_exists(p, n, i64::MIN);
        let t = eviction_time(p, n);
        lemma_trimmed_total(p, t, n - older_in(p, t));
    }
}

/// Garbage collection evicts the oldest peers first: when more peers are left
/// after expiry and capping than the store remembers, exactly the excess is
/// evicted, and for the time `t` of the last one evicted, every peer still
/// stored was seen at `t` or later while every peer seen after `t` is still
/// stored under its info hash. So no evicted peer is newer than a kept one.
pub proof fn lemma_collected_evicts_oldest(es: Seq<(Seq<u8>, Seq<StoredPeer>)>, now: i64, max_peers: u32)
    requires
        total_peers(expired_and_capped(es, (now - PEER_TTL_MS) as i64)) > max_peers,
    ensures
        ({
            let p = expired_and_capped(es, (now - PEER_TTL_MS) as i64);
            let r = collected(es, now, max_peers);
            let t = eviction_time(p, (total_peers(p) - max_peers) as nat);
            &&& total_peers(r) == total_peers(p) - (total_peers(p) - max_peers)
            &&& forall|j: int, q: int| 0 <= j < r.len() && 0 <= q < r[j].1.len() ==> (#[trigger] r[j].1[q]).time_ms >= t
            &&& forall|i: int, k: int| 0 <= i < p.len() && 0 <= k < p[i].1.len() && (#[trigger] p[i].1[k]).time_ms > t
                ==> exists|j: int| 0 <= j < r.len() && #[trigger] r[j].0 == p[i].0 && r[j].1.contains(p[i].1[k])
        }),
{
    let cutoff = (now - PEER_TTL_MS) as i64;
    let p = expired_and_capped(es, cutoff);
    let total = total_peers(p);
    let n = (total - max_peers) as nat;
    lemma_collected_within_cap(es, now, max_peers);
    let t = eviction_time(p, n);
    let c = n - older_in(p, t);
    let r = trimmed(p, t, c);
    lemma_trimmed_entries(p, t, c);
    assert forall|j: int, q: int| 0 <= j < r.len() && 0 <= q < r[j].1.len() implies (#[trigger] r[j].1[q]).time_ms >= t by {
        assert(has_source(p, r[j], t));
        let m = choose|m: int| 0 <= m < p.len() && #[trigger] drawn_from(r[j], p[m], t);
        assert(drawn_from(r[j], p[m], t));
    }
}

/// A lookup for `want` lists an address of this family.
pub open spec fn want_admits(want: Want, a: PeerAddr) -> bool {
    (a.0 && want != Want::V4) || (!a.0 && want != Want::V6)
}

proof fn lemma_wanted_contains(ps: Seq<StoredPeer>, want: Want, k: int)
    requires
        0 <= k < ps.len(),
        want_admits(want, ps[k].addr),
    ensures
        wanted(ps, want).contains(ps[k].addr),
    decreases ps.len(),
{
    let r = wanted(ps.drop_last(), want);
    if k == ps.len() - 1 {
        assert(wanted(ps, want)[r.len() as int] == ps[k].addr);
    } else {
        lemma_wanted_contains(ps.drop_last(), want, k);
        assert(ps.drop_last()[k] == ps[k]);
        let m = choose|m: int| 0 <= m < r.len() && r[m] == ps[k].addr;
        assert(wanted(ps, want)[m] == r[m]);
    }
}

proof fn lemma_first_match_exists(ps: Seq<StoredPeer>, a: PeerAddr)
    requires
        exists|i: int| 0 <= i < ps.len() && same_addr(ps[i].addr, a),
    ensures
        exists|i: int| 0 <= i < ps.len() && same_addr(ps[i].addr, a) && forall|j: int| 0 <= j < i ==> !same_addr(ps[j].addr, a),
    decreases ps.len(),
{
    let q = ps.drop_last();
    if exists|i: int| 0 <= i < q.len() && same_addr(q[i].addr, a) {
        lemma_first_match_exists(q, a);
        let i = choose|i: int| 0 <= i < q.len() && same_addr(q[i].addr, a) && forall|j: int| 0 <= j < i ==> !same_addr(q[j].addr, a);
        assert(ps[i] == q[i]);
        assert forall|j: int| 0 <= j < i implies !same_addr(ps[j].addr, a) by {
            assert(ps[j] == q[j]);
        }
    } else {
        let i = ps.len() - 1;
        assert forall|j: int| 0 <= j < i implies !same_addr(ps[j].addr, a) by {
            assert(ps[j] == q[j]);
        }
        let w = choose|w: int| 0 <= w < ps.len() && same_addr(ps[w].addr, a);
        if w < i {
            assert(ps[w] == q[w]);
        }
    }
}

proof fn lemma_peer_pos_found(ps: Seq<StoredPeer>, a: PeerAddr)
    ensures
        peer_pos(ps, a) matches Some(j) ==> 0 <= j < ps.len() && same_addr(ps[j].addr, a),
{
    if exists|i: int| 0 <= i < ps.len() && same_addr(ps[i].addr, a) {
        lemma_first_match_exists(ps, a);
    }
}

proof fn lemma_entry_index_at(es: Seq<(Seq<u8>, Seq<StoredPeer>)>, i: int, h: Seq<u8>)
    requires
        keys_distinct(es),
        0 <= i < es.len(),
        es[i].0 == h,
    ensures
        entry_index(es, h) == Some(i),
{
    let j = choose|j: int| 0 <= j < es.len() && es[j].0 == h;
    if j != i {
        assert(es[j].0 != es[i].0);
    }
}

/// A token just handed out is accepted from the node and address it was
/// handed to, whenever the store remembers any token at all.
pub proof fn lemma_granted_token_known(tokens: Seq<StoredToken>, max_remembered_tokens: u32, t: StoredToken)
    requires
        max_remembered_tokens > 0,
    ensures
        ({
            let s = tokens.push(t);
            token_known(
                if s.len() > max_remembered_tokens { s.skip(1) } else { s },
                t.token@,
                t.addr,
                t.node_id@,
            )
        }),
{
    let s = tokens.push(t);
    let kept = if s.len() > max_remembered_tokens { s.skip(1) } else { s };
    let k = kept.len() - 1;
    assert(kept[k] == t);
}

/// An announce with a token the store knows, for an info hash close enough
/// to us, is stored whenever the store is not full.
pub proof fn lemma_known_token_stores(
    v: PeerStoreView,
    info_hash: Seq<u8>,
    token: Seq<u8>,
    node_id: Seq<u8>,
    addr: PeerAddr,
    port: u16,
    port_implied: bool,
    now: i64,
)
    requires
        token_known(v.tokens, token, addr, node_id),
        !crate::bencode::bytes_lt(v.max_distance, distance(info_hash, v.self_id)),
        v.peers_len < v.max_remembered_peers,
    ensures
        store_outcome(v, info_hash, token, node_id, addr, port, port_implied, now).0,
{
}

/// A stored peer is found: after an announce that is stored, a lookup of its
/// info hash for a family its address belongs to lists the address it was
/// stored under, and the store still has one entry per info hash.
pub proof fn lemma_stored_peer_found(
    v: PeerStoreView,
    info_hash: Seq<u8>,
    token: Seq<u8>,
    node_id: Seq<u8>,
    addr: PeerAddr,
    port: u16,
    port_implied: bool,
    now: i64,
    want: Want,
)
    requires
        keys_distinct(v.peers),
        store_outcome(v, info_hash, token, node_id, addr, port, port_implied, now).0,
        want_admits(want, addr),
    ensures
        ({
            let after = store_outcome(v, info_hash, token, node_id, addr, port, port_implied, now).1;
            &&& keys_distinct(after)
            &&& entry_index(after, info_hash) matches Some(i) && wanted(after[i].1, want).contains(
                announced_addr(addr, port, port_implied),
            )
        }),
{
    let a = announced_addr(addr, port, port_implied);
    let p = StoredPeer { addr: a, time_ms: now };
    let after = store_outcome(v, info_hash, token, node_id, addr, port, port_implied, now).1;
    match entry_index(v.peers, info_hash) {
        Some(i) => {
            let ps = v.peers[i].1;
            assert(v.peers[i].0 == info_hash);
            lemma_peer_pos_found(ps, a);
            match peer_pos(ps, a) {
                Some(j) => {
                    let ps2 = ps.update(j, p);
                    assert(after == v.peers.update(i, (info_hash, ps2)));
                    assert_keys_distinct_update(v.peers, i, info_hash, ps2);
                    lemma_entry_index_at(after, i, info_hash);
                    lemma_wanted_contains(ps2, want, j);
                },
                None => {
                    let ps2 = ps.push(p);
                    assert(after == v.peers.update(i, (info_hash, ps2)));
                    assert_keys_distinct_update(v.peers, i, info_hash, ps2);
                    lemma_entry_index_at(after, i, info_hash);
                    lemma_wanted_contains(ps2, want, ps.len() as int);
                },
            }
        },
        None => {
            let ps2 = seq![p];
            assert(after == v.peers.push((info_hash, ps2)));
            assert forall|x: int, y: int| 0 <= x < after.len() && 0 <= y < after.len() && x != y implies after[x].0
                != after[y].0 by {
                if x == v.peers.len() {
                    assert(v.peers[y].0 != info_hash);
                } else if y == v.peers.len() {
                    assert(v.peers[x].0 != info_hash);
                } else {
                    assert(v.peers[x].0 != v.peers[y].0);
                }
            }
            lemma_entry_index_at(after, v.peers.len() as int, info_hash);
            lemma_wanted_contains(ps2, want, 0);
        },
    }
}

} // verus!
