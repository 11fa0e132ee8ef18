//! The table of a torrent's peers: each address once, with its connection
//! state and when that state last changed, and the counters of peers per
//! state, kept for the torrent and added into the session's counters. Time is
//! passed in as milliseconds on a monotonic clock.
use vstd::prelude::*;
use crate::super_seed::PeerAddr;

verus! {

/// The connection state of a peer.
#[derive(Debug, Clone, Copy, PartialEq, Eq, Structural)]
pub enum PeerState {
    /// Known, waiting to be connected.
    Queued,
    Connecting,
    Live,
    /// The connection failed or ended.
    Dead,
    /// Not needed any more (we have what it has).
    NotNeeded,
}

/// How many peers are in each state, and how many were ever seen.
#[derive(Debug, Clone, Copy, PartialEq, Eq, Structural)]
pub struct AggregatePeerStats {
    pub queued: u64,
    pub connecting: u64,
    pub live: u64,
    pub dead: u64,
    pub not_needed: u64,
    pub seen: u64,
}

/// Why a peer cannot start connecting.
#[derive(Debug, Clone, Copy, PartialEq, Eq, Structural)]
pub enum PeerStatesError {
    /// No peer has this address.
    PeerNotFound,
    /// The peer is not waiting to be connected.
    InvalidPeerState,
}

/// A peer of the table.
#[derive(Debug, Clone, Copy)]
pub struct PeerRecord {
    pub addr: PeerAddr,
    pub state: PeerState,
    pub last_state_change_ms: u64,
}

/// The count of a state.
pub open spec fn count_of(s: AggregatePeerStats, st: PeerState) -> u64 {
    match st {
        PeerState::Queued => s.queued,
        PeerState::Connecting => s.connecting,
        PeerState::Live => s.live,
        PeerState::Dead => s.dead,
        PeerState::NotNeeded => s.not_needed,
    }
}

/// The counters with the count of `st` set to `v`.
pub open spec fn with_count(s: AggregatePeerStats, st: PeerState, v: u64) -> AggregatePeerStats {
    match st {
        PeerState::Queued => AggregatePeerStats { queued: v, ..s },
        PeerState::Connecting => AggregatePeerStats { connecting: v, ..s },
        PeerState::Live => AggregatePeerStats { live: v, ..s },
        PeerState::Dead => AggregatePeerStats { dead: v, ..s },
        PeerState::NotNeeded => AggregatePeerStats { not_needed: v, ..s },
    }
}

/// Adding one, wrapping around as an atomic counter does.
pub open spec fn inc(x: u64) -> u64 {
    if x == u64::MAX { 0 } else { (x + 1) as u64 }
}

/// Taking one, wrapping around as an atomic counter does.
pub open spec fn dec(x: u64) -> u64 {
    if x == 0 { u64::MAX } else { (x - 1) as u64 }
}

/// The counters after a peer enters state `st`.
pub open spec fn entered(s: AggregatePeerStats, st: PeerState) -> AggregatePeerStats {
    with_count(s, st, inc(count_of(s, st)))
}

/// The counters after a peer leaves state `st`.
pub open spec fn left(s: AggregatePeerStats, st: PeerState) -> AggregatePeerStats {
    with_count(s, st, dec(count_of(s, st)))
}

/// The number of peers in state `st`.
pub open spec fn peers_in(table: Seq<PeerRecord>, st: PeerState) -> nat
    decreases table.len(),
{
    if table.len() == 0 {
        0
    } else {
        peers_in(table.drop_last(), st) + if table.last().state == st { 1nat } else { 0nat }
    }
}

/// Each address at most once.
pub open spec fn addrs_distinct(table: Seq<PeerRecord>) -> bool {
    forall|i: int, j: int| 0 <= i < table.len() && 0 <= j < table.len() && i != j ==> table[i].addr != table[j].addr
}

/// The position of `addr` in the table.
pub open spec fn position_of(table: Seq<PeerRecord>, addr: PeerAddr) -> Option<int> {
    if exists|i: int| 0 <= i < table.len() && table[i].addr == addr {
        Some(choose|i: int| 0 <= i < table.len() && table[i].addr == addr)
    } else {
        None
    }
}

/// The table as it is seen from outside: the peers, the torrent's counters and
/// the session's counters.
pub struct PeerStatesView {
    pub table: Seq<PeerRecord>,
    pub stats: AggregatePeerStats,
    pub session_stats: AggregatePeerStats,
}

/// The peers of a torrent.
pub struct PeerStates {
    states: Vec<PeerRecord>,
    stats: AggregatePeerStats,
    session_stats: AggregatePeerStats,
}

impl View for PeerStates {
    type V = PeerStatesView;

    closed spec fn view(&self) -> PeerStatesView {
        PeerStatesView { table: self.states@, stats: self.stats, session_stats: self.session_stats }
    }
}

/// The torrent's counters count the peers of the table, state by state.
pub open spec fn counts_match(v: PeerStatesView) -> bool {
    &&& v.stats.queued == peers_in(v.table, PeerState::Queued)
    &&& v.stats.connecting == peers_in(v.table, PeerState::Connecting)
    &&& v.stats.live == peers_in(v.table, PeerState::Live)
    &&& v.stats.dead == peers_in(v.table, PeerState::Dead)
    &&& v.stats.not_needed == peers_in(v.table, PeerState::NotNeeded)
}

proof fn lemma_peers_in_bound(table: Seq<PeerRecord>, st: PeerState)
    ensures
        peers_in(table, st) <= table.len(),
    decreases table.len(),
{
    if table.len() > 0 {
        lemma_peers_in_bound(table.drop_last(), st);
    }
}

proof fn lemma_peers_in_push(table: Seq<PeerRecord>, r: PeerRecord, st: PeerState)
    ensures
        peers_in(table.push(r), st) == peers_in(table, st) + if r.state == st { 1nat } else { 0nat },
{
    assert(table.push(r).drop_last() =~= table);
}

proof fn lemma_peers_in_update(table: Seq<PeerRecord>, i: int, r: PeerRecord, st: PeerState)
    requires
        0 <= i < table.len(),
    ensures
        peers_in(table.update(i, r), st) + (if table[i].state == st { 1nat } else { 0nat })
            == peers_in(table, st) + (if r.state == st { 1nat } else { 0nat }),
    decreases table.len(),
{
    let t = table.update(i, r);
    if i == table.len() - 1 {
        assert(t.drop_last() =~= table.drop_last());
    } else {
        lemma_peers_in_update(table.drop_last(), i, r, st);
        assert(t.drop_last() =~= table.drop_last().update(i, r));
    }
}

proof fn lemma_peers_in_remove(table: Seq<PeerRecord>, i: int, st: PeerState)
    requires
        0 <= i < table.len(),
    ensures
        peers_in(table.remove(i), st) + (if table[i].state == st { 1nat } else { 0nat }) == peers_in(table, st),
    decreases table.len(),
{
    let t = table.remove(i);
    if i == table.len() - 1 {
        assert(t =~= table.drop_last());
    } else {
        lemma_peers_in_remove(table.drop_last(), i, st);
        assert(t.drop_last() =~= table.drop_last().remove(i));
        assert(t.last() == table.last());
    }
}

/// Whether a peer is pruned at `now`: dead or not needed for longer than
/// `retention_ms` (none when the clock reads earlier).
pub open spec fn is_stale(r: PeerRecord, now: u64, retention_ms: u64) -> bool {
    (r.state == PeerState::Dead || r.state == PeerState::NotNeeded) && now >= r.last_state_change_ms
        && now - r.last_state_change_ms > retention_ms
}

/// The peers of `table`, in order, that are not stale.
pub open spec fn kept_peers(table: Seq<PeerRecord>, now: u64, retention_ms: u64) -> Seq<PeerRecord>
    decreases table.len(),
{
    if table.len() == 0 {
        table
    } else {
        let r = kept_peers(table.drop_last(), now, retention_ms);
        if is_stale(table.last(), now, retention_ms) {
            r
        } else {
            r.push(table.last())
        }
    }
}

/// The counters after each stale peer of `table` left its state.
pub open spec fn after_pruning(s: AggregatePeerStats, table: Seq<PeerRecord>, now: u64, retention_ms: u64) -> AggregatePeerStats
    decreases table.len(),
{
    if table.len() == 0 {
        s
    } else {
        let r = after_pruning(s, table.drop_last(), now, retention_ms);
        if is_stale(table.last(), now, retention_ms) {
            left(r, table.last().state)
        } else {
            r
        }
    }
}

proof fn lemma_with_count(s: AggregatePeerStats, st: PeerState, v: u64, x: PeerState)
    ensures
        count_of(with_count(s, st, v), x) == if x == st { v } else { count_of(s, x) },
        with_count(s, st, v).seen == s.seen,
{
    match st {
        PeerState::Queued => {},
        PeerState::Connecting => {},
        PeerState::Live => {},
        PeerState::Dead => {},
        PeerState::NotNeeded => {},
    }
}

/// The counts of a table are its counters' counts.
proof fn lemma_counts_match_from(stats: AggregatePeerStats, t: Seq<PeerRecord>)
    requires
        forall|x: PeerState| #[trigger] count_of(stats, x) == peers_in(t, x),
    ensures
        stats.queued == peers_in(t, PeerState::Queued),
        stats.connecting == peers_in(t, PeerState::Connecting),
        stats.live == peers_in(t, PeerState::Live),
        stats.dead == peers_in(t, PeerState::Dead),
        stats.not_needed == peers_in(t, PeerState::NotNeeded),
{
    assert(count_of(stats, PeerState::Queued) == peers_in(t, PeerState::Queued));
    assert(count_of(stats, PeerState::Connecting) == peers_in(t, PeerState::Connecting));
    assert(count_of(stats, PeerState::Live) == peers_in(t, PeerState::Live));
    assert(count_of(stats, PeerState::Dead) == peers_in(t, PeerState::Dead));
    assert(count_of(stats, PeerState::NotNeeded) == peers_in(t, PeerState::NotNeeded));
}

proof fn lemma_counts_of(stats: AggregatePeerStats, t: Seq<PeerRecord>)
    requires
        stats.queued == peers_in(t, PeerState::Queued),
        stats.connecting == peers_in(t, PeerState::Connecting),
        stats.live == peers_in(t, PeerState::Live),
        stats.dead == peers_in(t, PeerState::Dead),
        stats.not_needed == peers_in(t, PeerState::NotNeeded),
    ensures
        forall|x: PeerState| #[trigger] count_of(stats, x) == peers_in(t, x),
{
    assert forall|x: PeerState| #[trigger] count_of(stats, x) == peers_in(t, x) by {
        match x {
            PeerState::Queued => {},
            PeerState::Connecting => {},
            PeerState::Live => {},
            PeerState::Dead => {},
            PeerState::NotNeeded => {},
        }
    }
}

/// Moving the peer at `i` to a new record moves one count from its old
/// state to its new one.
proof fn lemma_move_counts(s: AggregatePeerStats, t: Seq<PeerRecord>, i: int, r: PeerRecord)
    requires
        0 <= i < t.len(),
        t.len() <= u64::MAX,
        s.queued == peers_in(t, PeerState::Queued),
        s.connecting == peers_in(t, PeerState::Connecting),
        s.live == peers_in(t, PeerState::Live),
        s.dead == peers_in(t, PeerState::Dead),
        s.not_needed == peers_in(t, PeerState::NotNeeded),
    ensures
        ({
            let s2 = entered(left(s, t[i].state), r.state);
            let u = t.update(i, r);
            &&& s2.queued == peers_in(u, PeerState::Queued)
            &&& s2.connecting == peers_in(u, PeerState::Connecting)
            &&& s2.live == peers_in(u, PeerState::Live)
            &&& s2.dead == peers_in(u, PeerState::Dead)
            &&& s2.not_needed == peers_in(u, PeerState::NotNeeded)
        }),
{
    let p = t[i].state;
    let st = r.state;
    let u = t.update(i, r);
    lemma_counts_of(s, t);
    let s1 = left(s, p);
    let s2 = entered(s1, st);
    assert forall|x: PeerState| #[trigger] count_of(s2, x) == peers_in(u, x) by {
        lemma_peers_in_update(t, i, r, x);
        lemma_peers_in_remove(t, i, p);
        lemma_peers_in_bound(u, x);
        lemma_with_count(s, p, dec(count_of(s, p)), x);
        lemma_with_count(s, p, dec(count_of(s, p)), st);
        lemma_with_count(s1, st, inc(count_of(s1, st)), x);
        lemma_peers_in_update(t, i, r, st);
        lemma_peers_in_bound(u, st);
    }
    lemma_counts_match_from(s2, u);
}

fn count_mut(s: &mut AggregatePeerStats, st: PeerState, up: bool)
    ensures
        *final(s) == if up { entered(*old(s), st) } else { left(*old(s), st) },
{
    let f = match st {
        PeerState::Queued => &mut s.queued,
        PeerState::Connecting => &mut s.connecting,
        PeerState::Live => &mut s.live,
        PeerState::Dead => &mut s.dead,
        PeerState::NotNeeded => &mut s.not_needed,
    };
    if up {
        *f = if *f == u64::MAX { 0 } else { *f + 1 };
    } else {
        *f = if *f == 0 { u64::MAX } else { *f - 1 };
    }
}

impl PeerStates {
    /// The table's consistency: each address once, and counters that count.
    pub closed spec fn wf(&self) -> bool {
        addrs_distinct(self.states@) && counts_match(self@)
    }

    /// An empty table, adding into the session's counters as they are.
    pub fn new(session_stats: AggregatePeerStats) -> (p: PeerStates)
        ensures
            p.wf(),
            p@.table == Seq::<PeerRecord>::empty(),
            p@.stats == (AggregatePeerStats { queued: 0, connecting: 0, live: 0, dead: 0, not_needed: 0, seen: 0 }),
            p@.session_stats == session_stats,
    {
        PeerStates {
            states: Vec::new(),
            stats: AggregatePeerStats { queued: 0, connecting: 0, live: 0, dead: 0, not_needed: 0, seen: 0 },
            session_stats,
        }
    }

    /// The torrent's counters.
    pub fn stats(&self) -> (s: AggregatePeerStats)
        ensures
            s == self@.stats,
    {
        self.stats
    }

    /// The session's counters.
    pub fn session_stats(&self) -> (s: AggregatePeerStats)
        ensures
            s == self@.session_stats,
    {
        self.session_stats
    }

    /// The number of peers.
    pub fn len(&self) -> (n: usize)
        ensures
            n == self@.table.len(),
    {
        self.states.len()
    }

    fn find(&self, addr: PeerAddr) -> (r: Option<usize>)
        requires
            addrs_distinct(self.states@),
        ensures
            r matches Some(i) ==> i < self@.table.len() && self@.table[i as int].addr == addr && position_of(self@.table, addr)
                == Some(i as int),
            r is None ==> position_of(self@.table, addr) is None,
    {
        let mut i: usize = 0;
        while i < self.states.len()
            invariant
                0 <= i <= self.states@.len(),
                addrs_distinct(self.states@),
                forall|k: int| 0 <= k < i ==> self.states@[k].addr != addr,
            decreases self.states@.len() - i,
        {
            let a = self.states[i].addr;
            if a.0 == addr.0 && a.1 == addr.1 && a.2 == addr.2 {
                proof {
                    let j = choose|j: int| 0 <= j < self.states@.len() && self.states@[j].addr == addr;
                    assert(j == i as int);
                }
                return Some(i);
            }
            i = i + 1;
        }
        None
    }

    /// The peer at `addr`, if any.
    pub fn get(&self, addr: PeerAddr) -> (r: Option<PeerRecord>)
        requires
            self.wf(),
        ensures
            match position_of(self@.table, addr) {
                Some(i) => r == Some(self@.table[i]),
                None => r is None,
            },
    {
        match self.find(addr) {
            Some(i) => Some(self.states[i]),
            None => None,
        }
    }

    /// Adds a peer not seen before, queued, and counts it as queued and seen;
    /// gives its address, or `None` when it is already known.
    pub fn add_if_not_seen(&mut self, addr: PeerAddr, now: u64) -> (r: Option<PeerAddr>)
        requires
            old(self).wf(),
        ensures
            final(self).wf(),
            match position_of(old(self)@.table, addr) {
                Some(_) => r is None && final(self)@ == old(self)@,
                None => {
                    &&& r == Some(addr)
                    &&& final(self)@.table == old(self)@.table.push(
                        PeerRecord { addr, state: PeerState::Queued, last_state_change_ms: now },
                    )
                    &&& final(self)@.stats == AggregatePeerStats {
                        seen: inc(old(self)@.stats.seen),
                        ..entered(old(self)@.stats, PeerState::Queued)
                    }
                    &&& final(self)@.session_stats == AggregatePeerStats {
                        seen: inc(old(self)@.session_stats.seen),
                        ..entered(old(self)@.session_stats, PeerState::Queued)
                    }
                },
            },
    {
        if self.find(addr).is_some() {
            return None;
        }
        let rec = PeerRecord { addr, state: PeerState::Queued, last_state_change_ms: now };
        proof {
            lemma_peers_in_push(self.states@, rec, PeerState::Queued);
            lemma_peers_in_push(self.states@, rec, PeerState::Connecting);
            lemma_peers_in_push(self.states@, rec, PeerState::Live);
            lemma_peers_in_push(self.states@, rec, PeerState::Dead);
            lemma_peers_in_push(self.states@, rec, PeerState::NotNeeded);
            lemma_peers_in_bound(self.states@, PeerState::Queued);
        }
        self.states.push(rec);
        let n = self.states.len();
        assert(n == old(self).states@.len() + 1);
        count_mut(&mut self.stats, PeerState::Queued, true);
        self.stats.seen = if self.stats.seen == u64::MAX { 0 } else { self.stats.seen + 1 };
        count_mut(&mut self.session_stats, PeerState::Queued, true);
        self.session_stats.seen = if self.session_stats.seen == u64::MAX { 0 } else { self.session_stats.seen + 1 };
        proof {
            assert forall|i: int, j: int|
                0 <= i < self.states@.len() && 0 <= j < self.states@.len() && i != j implies self.states@[i].addr
                != self.states@[j].addr by {
                if i < old(self).states@.len() && j < old(self).states@.len() {
                } else if i == old(self).states@.len() {
                    assert(old(self).states@[j].addr != addr);
                } else {
                    assert(old(self).states@[i].addr != addr);
                }
            }
        }
        Some(addr)
    }

    /// Moves the peer at `addr` to state `st` at `now`, moving its count;
    /// gives its previous state, or `None` for an unknown address.
    pub fn set_state(&mut self, addr: PeerAddr, st: PeerState, now: u64) -> (prev: Option<PeerState>)
        requires
            old(self).wf(),
        ensures
            final(self).wf(),
            match position_of(old(self)@.table, addr) {
                None => prev is None && final(self)@ == old(self)@,
                Some(i) => {
                    let p = old(self)@.table[i].state;
                    &&& prev == Some(p)
                    &&& final(self)@.table == old(self)@.table.update(
                        i,
                        PeerRecord { addr, state: st, last_state_change_ms: now },
                    )
                    &&& final(self)@.stats == entered(left(old(self)@.stats, p), st)
                    &&& final(self)@.session_stats == entered(left(old(self)@.session_stats, p), st)
                },
            },
    {
        let i = match self.find(addr) {
            Some(i) => i,
            None => return None,
        };
        let p = self.states[i].state;
        let rec = PeerRecord { addr, state: st, last_state_change_ms: now };
        proof {
            let n = self.states.len();
            lemma_move_counts(self.stats, self.states@, i as int, rec);
        }
        self.states.set(i, rec);
        count_mut(&mut self.stats, p, false);
        count_mut(&mut self.stats, st, true);
        count_mut(&mut self.session_stats, p, false);
        count_mut(&mut self.session_stats, st, true);
        proof {
            assert forall|a: int, b: int|
                0 <= a < self.states@.len() && 0 <= b < self.states@.len() && a != b implies self.states@[a].addr
                != self.states@[b].addr by {
                assert(old(self).states@[a].addr != old(self).states@[b].addr);
            }
        }
        Some(p)
    }

    /// Starts connecting to a queued peer at `now`. Refused for an unknown
    /// address, and for a peer that is not queued; nothing changes then.
    pub fn mark_peer_connecting(&mut self, addr: PeerAddr, now: u64) -> (r: Result<(), PeerStatesError>)
        requires
            old(self).wf(),
        ensures
            final(self).wf(),
            match position_of(old(self)@.table, addr) {
                None => r == Err::<(), PeerStatesError>(PeerStatesError::PeerNotFound) && final(self)@ == old(self)@,
                Some(i) => if old(self)@.table[i].state == PeerState::Queued {
                    &&& r is Ok
                    &&& final(self)@.table == old(self)@.table.update(
                        i,
                        PeerRecord { addr, state: PeerState::Connecting, last_state_change_ms: now },
                    )
                    &&& final(self)@.stats == entered(left(old(self)@.stats, PeerState::Queued), PeerState::Connecting)
                    &&& final(self)@.session_stats == entered(
                        left(old(self)@.session_stats, PeerState::Queued),
                        PeerState::Connecting,
                    )
                } else {
                    r == Err::<(), PeerStatesError>(PeerStatesError::InvalidPeerState) && final(self)@ == old(self)@
                },
            },
    {
        match self.get(addr) {
            None => Err(PeerStatesError::PeerNotFound),
            Some(rec) => {
                if rec.state != PeerState::Queued {
                    return Err(PeerStatesError::InvalidPeerState);
                }
                self.set_state(addr, PeerState::Connecting, now);
                Ok(())
            },
        }
    }

    /// Marks the peer not needed; gives its previous state.
    pub fn mark_peer_not_needed(&mut self, addr: PeerAddr, now: u64) -> (prev: Option<PeerState>)
        requires
            old(self).wf(),
        ensures
            final(self).wf(),
            match position_of(old(self)@.table, addr) {
                None => prev is None && final(self)@ == old(self)@,
                Some(i) => {
                    let p = old(self)@.table[i].state;
                    &&& prev == Some(p)
                    &&& final(self)@.table == old(self)@.table.update(
                        i,
                        PeerRecord { addr, state: PeerState::NotNeeded, last_state_change_ms: now },
                    )
                    &&& final(self)@.stats == entered(left(old(self)@.stats, p), PeerState::NotNeeded)
                    &&& final(self)@.session_stats == entered(left(old(self)@.session_stats, p), PeerState::NotNeeded)
                },
            },
    {
        self.set_state(addr, PeerState::NotNeeded, now)
    }

    /// Removes the peer at `addr`, taking it out of its state's count.
    pub fn drop_peer(&mut self, addr: PeerAddr) -> (r: Option<PeerRecord>)
        requires
            old(self).wf(),
        ensures
            final(self).wf(),
            match position_of(old(self)@.table, addr) {
                None => r is None && final(self)@ == old(self)@,
                Some(i) => {
                    let p = old(self)@.table[i];
                    &&& r == Some(p)
                    &&& final(self)@.table == old(self)@.table.remove(i)
                    &&& final(self)@.stats == left(old(self)@.stats, p.state)
                    &&& final(self)@.session_stats == left(old(self)@.session_stats, p.state)
                },
            },
    {
        let i = match self.find(addr) {
            Some(i) => i,
            None => return None,
        };
        proof {
            let t = self.states@;
            lemma_peers_in_remove(t, i as int, PeerState::Queued);
            lemma_peers_in_remove(t, i as int, PeerState::Connecting);
            lemma_peers_in_remove(t, i as int, PeerState::Live);
            lemma_peers_in_remove(t, i as int, PeerState::Dead);
            lemma_peers_in_remove(t, i as int, PeerState::NotNeeded);
        }
        let p = self.states.remove(i);
        count_mut(&mut self.stats, p.state, false);
        count_mut(&mut self.session_stats, p.state, false);
        proof {
            let t = old(self).states@;
            assert forall|a: int, b: int|
                0 <= a < self.states@.len() && 0 <= b < self.states@.len() && a != b implies self.states@[a].addr
                != self.states@[b].addr by {
                let sa = if a < i { a } else { a + 1 };
                let sb = if b < i { b } else { b + 1 };
                assert(self.states@[a] == t[sa] && self.states@[b] == t[sb]);
            }
        }
        Some(p)
    }

    /// Removes the peers that have been dead or not needed for longer than
    /// `retention_ms`, taking each out of its state's count; gives how many.
    pub fn prune_dead_peers(&mut self, retention_ms: u64, now: u64) -> (pruned: usize)
        requires
            old(self).wf(),
        ensures
            final(self).wf(),
            final(self)@.table == kept_peers(old(self)@.table, now, retention_ms),
            final(self)@.stats == after_pruning(old(self)@.stats, old(self)@.table, now, retention_ms),
            final(self)@.session_stats == after_pruning(old(self)@.session_stats, old(self)@.table, now, retention_ms),
            pruned == old(self)@.table.len() - final(self)@.table.len(),
    {
        let ghost t = self.states@;
        let mut kept: Vec<PeerRecord> = Vec::new();
        let mut stats = self.stats;
        let mut session = self.session_stats;
        let mut pruned: usize = 0;
        let mut i: usize = 0;
        while i < self.states.len()
            invariant
                0 <= i <= t.len(),
                t == self.states@,
                kept@ == kept_peers(t.take(i as int), now, retention_ms),
                stats == after_pruning(old(self).stats, t.take(i as int), now, retention_ms),
                session == after_pruning(old(self).session_stats, t.take(i as int), now, retention_ms),
                pruned + kept@.len() == i,
            decreases t.len() - i,
        {
            let r = self.states[i];
            proof {
                assert(t.take(i + 1).drop_last() =~= t.take(i as int));
                assert(t.take(i + 1).last() == r);
            }
            let stale = (r.state == PeerState::Dead || r.state == PeerState::NotNeeded) && now >= r.last_state_change_ms
                && now - r.last_state_change_ms > retention_ms;
            if stale {
                count_mut(&mut stats, r.state, false);
                count_mut(&mut session, r.state, false);
                pruned = pruned + 1;
            } else {
                kept.push(r);
            }
            i = i + 1;
        }
        proof {
            assert(t.take(i as int) =~= t);
            lemma_pruning_counts(old(self)@.stats, t, now, retention_ms);
            lemma_kept_distinct(t, now, retention_ms);
        }
        self.states = kept;
        self.stats = stats;
        self.session_stats = session;
        pruned
    }
}

proof fn lemma_kept_distinct(t: Seq<PeerRecord>, now: u64, retention_ms: u64)
    requires
        addrs_distinct(t),
    ensures
        addrs_distinct(kept_peers(t, now, retention_ms)),
    decreases t.len(),
{
    if t.len() > 0 {
        let p = t.drop_last();
        assert forall|i: int, j: int| 0 <= i < p.len() && 0 <= j < p.len() && i != j implies p[i].addr != p[j].addr by {
            assert(t[i].addr != t[j].addr);
        }
        lemma_kept_distinct(p, now, retention_ms);
        if !is_stale(t.last(), now, retention_ms) {
            let r = kept_peers(p, now, retention_ms);
            lemma_kept_members(p, now, retention_ms);
            let kk = r.push(t.last());
            assert forall|i: int, j: int| 0 <= i < kk.len() && 0 <= j < kk.len() && i != j implies kk[i].addr
                != kk[j].addr by {
                if i < r.len() && j < r.len() {
                } else if i == r.len() {
                    let m = choose|m: int| 0 <= m < p.len() && r[j] == p[m];
                    assert(t[m].addr != t[t.len() - 1].addr);
                } else {
                    let m = choose|m: int| 0 <= m < p.len() && r[i] == p[m];
                    assert(t[m].addr != t[t.len() - 1].addr);
                }
            }
        }
    }
}

proof fn lemma_kept_members(t: Seq<PeerRecord>, now: u64, retention_ms: u64)
    ensures
        forall|k: int| 0 <= k < kept_peers(t, now, retention_ms).len() ==> exists|m: int|
            0 <= m < t.len() && #[trigger] kept_peers(t, now, retention_ms)[k] == t[m],
    decreases t.len(),
{
    if t.len() > 0 {
        lemma_kept_members(t.drop_last(), now, retention_ms);
        let r = kept_peers(t.drop_last(), now, retention_ms);
        let kk = kept_peers(t, now, retention_ms);
        assert forall|k: int| 0 <= k < kk.len() implies exists|m: int| 0 <= m < t.len() && #[trigger] kk[k] == t[m] by {
            if k < r.len() {
                let m = choose|m: int| 0 <= m < t.drop_last().len() && r[k] == t.drop_last()[m];
                assert(kk[k] == t[m]);
            } else {
                assert(kk[k] == t[t.len() - 1]);
            }
        }
    }
}

/// The number of stale peers in state `st`.
pub open spec fn stale_in(t: Seq<PeerRecord>, st: PeerState, now: u64, retention_ms: u64) -> nat
    decreases t.len(),
{
    if t.len() == 0 {
        0
    } else {
        stale_in(t.drop_last(), st, now, retention_ms) + if is_stale(t.last(), now, retention_ms) && t.last().state
            == st {
            1nat
        } else {
            0nat
        }
    }
}

proof fn lemma_split_counts(t: Seq<PeerRecord>, st: PeerState, now: u64, retention_ms: u64)
    ensures
        peers_in(t, st) == peers_in(kept_peers(t, now, retention_ms), st) + stale_in(t, st, now, retention_ms),
    decreases t.len(),
{
    if t.len() > 0 {
        lemma_split_counts(t.drop_last(), st, now, retention_ms);
        let r = kept_peers(t.drop_last(), now, retention_ms);
        if !is_stale(t.last(), now, retention_ms) {
            lemma_peers_in_push(r, t.last(), st);
        }
    }
}

proof fn lemma_after_pruning_count(s: AggregatePeerStats, t: Seq<PeerRecord>, st: PeerState, now: u64, retention_ms: u64)
    requires
        count_of(s, st) >= stale_in(t, st, now, retention_ms),
        forall|st2: PeerState| count_of(s, st2) >= #[trigger] stale_in(t, st2, now, retention_ms),
    ensures
        count_of(after_pruning(s, t, now, retention_ms), st) == count_of(s, st) - stale_in(t, st, now, retention_ms),
        after_pruning(s, t, now, retention_ms).seen == s.seen,
    decreases t.len(),
{
    if t.len() > 0 {
        let p = t.drop_last();
        let x = t.last();
        assert forall|st2: PeerState| count_of(s, st2) >= #[trigger] stale_in(p, st2, now, retention_ms) by {
            assert(stale_in(t, st2, now, retention_ms) >= stale_in(p, st2, now, retention_ms));
        }
        lemma_after_pruning_count(s, p, st, now, retention_ms);
        if is_stale(x, now, retention_ms) {
            lemma_after_pruning_count(s, p, x.state, now, retention_ms);
            assert(stale_in(t, x.state, now, retention_ms) == stale_in(p, x.state, now, retention_ms) + 1);
        }
    }
}

/// Pruning keeps the counters counting: after it, each count is the number of
/// peers kept in that state, and the count of peers seen is unchanged.
proof fn lemma_pruning_counts(s: AggregatePeerStats, t: Seq<PeerRecord>, now: u64, retention_ms: u64)
    requires
        s.queued == peers_in(t, PeerState::Queued),
        s.connecting == peers_in(t, PeerState::Connecting),
        s.live == peers_in(t, PeerState::Live),
        s.dead == peers_in(t, PeerState::Dead),
        s.not_needed == peers_in(t, PeerState::NotNeeded),
    ensures
        counts_match(PeerStatesView {
            table: kept_peers(t, now, retention_ms),
            stats: after_pruning(s, t, now, retention_ms),
            session_stats: s,
        }),
        after_pruning(s, t, now, retention_ms).seen == s.seen,
{
    assert forall|st2: PeerState| count_of(s, st2) >= #[trigger] stale_in(t, st2, now, retention_ms) by {
        lemma_split_counts(t, st2, now, retention_ms);
    }
    lemma_split_counts(t, PeerState::Queued, now, retention_ms);
    lemma_split_counts(t, PeerState::Connecting, now, retention_ms);
    lemma_split_counts(t, PeerState::Live, now, retention_ms);
    lemma_split_counts(t, PeerState::Dead, now, retention_ms);
    lemma_split_counts(t, PeerState::NotNeeded, now, retention_ms);
    lemma_after_pruning_count(s, t, PeerState::Queued, now, retention_ms);
    lemma_after_pruning_count(s, t, PeerState::Connecting, now, retention_ms);
    lemma_after_pruning_count(s, t, PeerState::Live, now, retention_ms);
    lemma_after_pruning_count(s, t, PeerState::Dead, now, retention_ms);
    lemma_after_pruning_count(s, t, PeerState::NotNeeded, now, retention_ms);
}

// ----- laws -----

/// The torrent's counters always count the peers of the table, state by state.
pub proof fn lemma_counters_count(p: &PeerStates)
    requires
        p.wf(),
    ensures
        counts_match(p@),
{
}

/// After pruning, no stale peer remains, and every peer that was not stale is
/// still there, in the same order.
pub proof fn lemma_pruning_keeps_exactly_fresh(t: Seq<PeerRecord>, now: u64, retention_ms: u64)
    ensures
        forall|k: int| 0 <= k < kept_peers(t, now, retention_ms).len() ==> !is_stale(
            #[trigger] kept_peers(t, now, retention_ms)[k],
            now,
            retention_ms,
        ),
        (forall|k: int| 0 <= k < t.len() ==> !is_stale(#[trigger] t[k], now, retention_ms)) ==> kept_peers(
            t,
            now,
            retention_ms,
        ) == t,
    decreases t.len(),
{
    if t.len() > 0 {
        lemma_pruning_keeps_exactly_fresh(t.drop_last(), now, retention_ms);
        let r = kept_peers(t.drop_last(), now, retention_ms);
        if !is_stale(t.last(), now, retention_ms) {
            assert forall|k: int| 0 <= k < r.push(t.last()).len() implies !is_stale(
                #[trigger] r.push(t.last())[k],
                now,
                retention_ms,
            ) by {
                if k < r.len() {
                    assert(r.push(t.last())[k] == r[k]);
                }
            }
        }
        if forall|k: int| 0 <= k < t.len() ==> !is_stale(#[trigger] t[k], now, retention_ms) {
            assert forall|k: int| 0 <= k < t.drop_last().len() implies !is_stale(
                #[trigger] t.drop_last()[k],
                now,
                retention_ms,
            ) by {
                assert(t.drop_last()[k] == t[k]);
            }
            assert(t.drop_last().push(t.last()) =~= t);
        }
    }
}

} // verus!
