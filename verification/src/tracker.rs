//! The benchmark tracker's logic: decoding of percent-escaped query strings,
//! the announce request read from them, the update of a torrent's swarm on an
//! announce, and the bencoded reply with its compact peer list. Time is passed
//! in as milliseconds on a monotonic clock.
use vstd::prelude::*;
use vstd::string::StringSliceAdditionalSpecFns;
use crate::bencode::{BDict, BValue, bytes_equal, find_byte};
use crate::scenarios::{append_num, append_str};

verus! {

// ----- percent decoding -----

/// The value of an ASCII hexadecimal digit.
pub open spec fn hex_val(b: u8) -> Option<u8> {
    if 48 <= b <= 57 {
        Some((b - 48) as u8)
    } else if 97 <= b <= 102 {
        Some((b - 87) as u8)
    } else if 65 <= b <= 70 {
        Some((b - 55) as u8)
    } else {
        None
    }
}

/// What `u8::from_str_radix` gives in base 16 for the two-byte text `a b`:
/// two hex digits, or a `+` sign and one hex digit.
pub open spec fn hex_pair(a: u8, b: u8) -> Option<u8> {
    match (hex_val(a), hex_val(b)) {
        (Some(x), Some(y)) => Some((x * 16 + y) as u8),
        _ => if a == 43 { hex_val(b) } else { None },
    }
}

fn hex_val_of(b: u8) -> (r: Option<u8>)
    ensures
        r == hex_val(b),
{
    if 48 <= b && b <= 57 {
        Some(b - 48)
    } else if 97 <= b && b <= 102 {
        Some(b - 87)
    } else if 65 <= b && b <= 70 {
        Some(b - 55)
    } else {
        None
    }
}

fn hex_pair_of(a: u8, b: u8) -> (r: Option<u8>)
    ensures
        r == hex_pair(a, b),
{
    match (hex_val_of(a), hex_val_of(b)) {
        (Some(x), Some(y)) => Some(x * 16 + y),
        _ => if a == 43 { hex_val_of(b) } else { None },
    }
}

/// `input` from position `i` on with each `%` followed by two more bytes
/// that read as a hexadecimal byte replaced by that byte.
pub open spec fn percent_decoded(input: Seq<u8>, i: int) -> Seq<u8>
    decreases input.len() - i,
{
    if i < 0 || i >= input.len() {
        Seq::empty()
    } else if input[i] == 37 && i + 2 < input.len() && hex_pair(input[i + 1], input[i + 2]) is Some {
        seq![hex_pair(input[i + 1], input[i + 2])->0] + percent_decoded(input, i + 3)
    } else {
        seq![input[i]] + percent_decoded(input, i + 1)
    }
}

/// Decodes `%XX` escapes.
pub fn percent_decode(input: &[u8]) -> (out: Vec<u8>)
    ensures
        out@ == percent_decoded(input@, 0),
{
    let mut out: Vec<u8> = Vec::new();
    let mut i: usize = 0;
    while i < input.len()
        invariant
            0 <= i <= input@.len(),
            out@ + percent_decoded(input@, i as int) == percent_decoded(input@, 0),
        decreases input@.len() - i,
    {
        let ghost before = out@;
        if input[i] == 37 && input.len() - i > 2 {
            match hex_pair_of(input[i + 1], input[i + 2]) {
                Some(byte) => {
                    out.push(byte);
                    assert(before + percent_decoded(input@, i as int) =~= out@ + percent_decoded(input@, i + 3));
                    i = i + 3;
                    continue;
                },
                None => {},
            }
        }
        out.push(input[i]);
        assert(before + percent_decoded(input@, i as int) =~= out@ + percent_decoded(input@, i + 1));
        i = i + 1;
    }
    assert(out@ + percent_decoded(input@, i as int) =~= out@);
    out
}

// ----- query strings -----

/// `s` split at each `sep`, as `str::split` does.
pub open spec fn split_bytes(s: Seq<u8>, sep: u8) -> Seq<Seq<u8>>
    decreases s.len(),
{
    if s.len() == 0 {
        seq![Seq::empty()]
    } else {
        let r = split_bytes(s.drop_last(), sep);
        if s.last() == sep {
            r.push(Seq::empty())
        } else {
            r.update(r.len() - 1, r.last().push(s.last()))
        }
    }
}

proof fn lemma_split_bytes_nonempty(s: Seq<u8>, sep: u8)
    ensures
        split_bytes(s, sep).len() >= 1,
    decreases s.len(),
{
    if s.len() > 0 {
        lemma_split_bytes_nonempty(s.drop_last(), sep);
    }
}

/// A `key=value` part, split at its first `=`, both sides decoded; a part
/// without `=` gives nothing.
pub open spec fn query_pair(part: Seq<u8>) -> Option<(Seq<u8>, Seq<u8>)> {
    match crate::bencode::first_index(part, 61) {
        Some(i) => Some((percent_decoded(part.take(i as int), 0), percent_decoded(part.skip(i + 1int), 0))),
        None => None,
    }
}

/// The key-value pairs of the parts, in order.
pub open spec fn query_pairs(parts: Seq<Seq<u8>>) -> Seq<(Seq<u8>, Seq<u8>)>
    decreases parts.len(),
{
    if parts.len() == 0 {
        Seq::empty()
    } else {
        let r = query_pairs(parts.drop_last());
        match query_pair(parts.last()) {
            Some(p) => r.push(p),
            None => r,
        }
    }
}

/// The value of the last pair with `key`: a later pair overrides an earlier.
pub open spec fn last_value(pairs: Seq<(Seq<u8>, Seq<u8>)>, key: Seq<u8>) -> Option<Seq<u8>>
    decreases pairs.len(),
{
    if pairs.len() == 0 {
        None
    } else if pairs.last().0 == key {
        Some(pairs.last().1)
    } else {
        last_value(pairs.drop_last(), key)
    }
}

/// The parameters of a query string: decoded keys and values, in order.
/// Looking a key up gives the value of its last occurrence.
pub struct QueryParams {
    pairs: Vec<(Vec<u8>, Vec<u8>)>,
}

impl View for QueryParams {
    type V = Seq<(Seq<u8>, Seq<u8>)>;

    closed spec fn view(&self) -> Seq<(Seq<u8>, Seq<u8>)> {
        Seq::new(self.pairs@.len(), |k: int| (self.pairs@[k].0@, self.pairs@[k].1@))
    }
}

impl QueryParams {
    /// The value given for `key`, by its last occurrence.
    pub fn get(&self, key: &[u8]) -> (r: Option<&Vec<u8>>)
        ensures
            match r {
                Some(v) => last_value(self@, key@) == Some(v@),
                None => last_value(self@, key@) is None,
            },
    {
        let mut i: usize = self.pairs.len();
        assert(self@.take(i as int) =~= self@);
        while i > 0
            invariant
                0 <= i <= self@.len(),
                self@.len() == self.pairs@.len(),
                last_value(self@, key@) == last_value(self@.take(i as int), key@),
            decreases i,
        {
            proof {
                assert(self@.take(i as int).drop_last() =~= self@.take(i - 1));
                assert(self@.take(i as int).last() == self@[i - 1]);
            }
            if bytes_equal(self.pairs[i - 1].0.as_slice(), key) {
                return Some(&self.pairs[i - 1].1);
            }
            i = i - 1;
        }
        None
    }
}

fn parse_part(part: &[u8]) -> (r: Option<(Vec<u8>, Vec<u8>)>)
    ensures
        match r {
            Some(p) => query_pair(part@) == Some((p.0@, p.1@)),
            None => query_pair(part@) is None,
        },
{
    proof {
        crate::bencode::lemma_first_index(part@, 61);
    }
    match find_byte(part, 61) {
        Some(i) => {
            assert(i < part.len());
            let key = vstd::slice::slice_subrange(part, 0, i);
            let value = vstd::slice::slice_subrange(part, i + 1, part.len());
            proof {
                assert(key@ =~= part@.take(i as int));
                assert(value@ =~= part@.skip(i + 1));
            }
            Some((percent_decode(key), percent_decode(value)))
        },
        None => None,
    }
}

/// The parameters of a query string `a=1&b=2`: each `&`-separated part with an
/// `=` gives a key and a value, both percent-decoded. Lookups go by the last
/// pair of a key; for the ASCII keys looked up this is what a map keyed by
/// the UTF-8 (lossily converted) key text gives.
pub fn parse_query(qs: &str) -> (r: QueryParams)
    ensures
        r@ == query_pairs(split_bytes(qs.spec_bytes(), 38)),
{
    let bytes = qs.as_bytes();
    let n = bytes.len();
    let mut pairs: Vec<(Vec<u8>, Vec<u8>)> = Vec::new();
    let mut start: usize = 0;
    let mut i: usize = 0;
    let ghost pv = |v: Seq<(Vec<u8>, Vec<u8>)>| Seq::new(v.len(), |k: int| (v[k].0@, v[k].1@));
    while i < n
        invariant
            0 <= start <= i <= n,
            n == bytes@.len(),
            pv == (|v: Seq<(Vec<u8>, Vec<u8>)>| Seq::new(v.len(), |k: int| (v[k].0@, v[k].1@))),
            split_bytes(bytes@.take(i as int), 38).last() == bytes@.subrange(start as int, i as int),
            query_pairs(split_bytes(bytes@.take(i as int), 38).drop_last()) == pv(pairs@),
        decreases n - i,
    {
        let c = bytes[i];
        let ghost prev = split_bytes(bytes@.take(i as int), 38);
        proof {
            lemma_split_bytes_nonempty(bytes@.take(i as int), 38);
            assert(bytes@.take(i + 1).drop_last() =~= bytes@.take(i as int));
            assert(bytes@.take(i + 1).last() == c);
        }
        if c == 38 {
            let part = vstd::slice::slice_subrange(bytes, start, i);
            let ghost before = pairs@;
            match parse_part(part) {
                Some(p) => {
                    pairs.push(p);
                },
                None => {},
            }
            proof {
                let next = split_bytes(bytes@.take(i + 1), 38);
                assert(next == prev.push(Seq::empty()));
                assert(next.drop_last() =~= prev);
                assert(prev =~= prev.drop_last().push(prev.last()));
                assert(pv(pairs@) =~= query_pairs(next.drop_last()));
            }
            start = i + 1;
            assert(bytes@.subrange(start as int, (i + 1) as int) =~= Seq::<u8>::empty());
        } else {
            proof {
                let next = split_bytes(bytes@.take(i + 1), 38);
                assert(next.drop_last() =~= prev.drop_last());
                assert(bytes@.subrange(start as int, (i + 1) as int) =~= bytes@.subrange(start as int, i as int).push(c));
            }
        }
        i = i + 1;
    }
    let part = vstd::slice::slice_subrange(bytes, start, n);
    let ghost before = pairs@;
    match parse_part(part) {
        Some(p) => {
            pairs.push(p);
        },
        None => {},
    }
    proof {
        assert(bytes@.take(n as int) =~= bytes@);
        let all = split_bytes(bytes@, 38);
        lemma_split_bytes_nonempty(bytes@, 38);
        assert(all =~= all.drop_last().push(all.last()));
        assert(pv(pairs@) =~= query_pairs(all));
    }
    let r = QueryParams { pairs };
    assert(r@ =~= pv(r.pairs@));
    r
}

// ----- the announce request -----

/// What an announce asks: the torrent, the peer's port, and whether it leaves.
pub struct AnnounceRequest {
    pub info_hash: [u8; 20],
    pub port: u16,
    pub stopped: bool,
}

/// The port parameter: a decimal number that fits in 16 bits, else 0.
pub open spec fn port_param(v: Option<Seq<u8>>) -> u16 {
    match v {
        Some(s) => match crate::decimal::parse_usize(s) {
            Some(n) => if n <= 65535 { n as u16 } else { 0 },
            None => 0,
        },
        None => 0,
    }
}

/// The announce request of a query: `None` unless `info_hash` is exactly 20
/// bytes; the port as `port_param` reads it; a peer leaves when `event` is
/// `stopped`.
pub open spec fn announce_request_of(pairs: Seq<(Seq<u8>, Seq<u8>)>) -> Option<(Seq<u8>, u16, bool)> {
    match last_value(pairs, "info_hash"@.map_values(|c: char| c as u8)) {
        Some(ih) => if ih.len() == 20 {
            Some((
                ih,
                port_param(last_value(pairs, "port"@.map_values(|c: char| c as u8))),
                last_value(pairs, "event"@.map_values(|c: char| c as u8)) == Some("stopped"@.map_values(|c: char| c as u8)),
            ))
        } else {
            None
        },
        None => None,
    }
}

/// The ASCII bytes of a text of ASCII characters.
fn ascii_bytes(s: &str) -> (b: Vec<u8>)
    requires
        forall|k: int| 0 <= k < s@.len() ==> (s@[k] as u32) < 128,
    ensures
        b@ == s@.map_values(|c: char| c as u8),
{
    let n = s.unicode_len();
    let mut b: Vec<u8> = Vec::new();
    let mut i: usize = 0;
    while i < n
        invariant
            0 <= i <= n,
            n == s@.len(),
            forall|k: int| 0 <= k < s@.len() ==> (s@[k] as u32) < 128,
            b@ == s@.take(i as int).map_values(|c: char| c as u8),
        decreases n - i,
    {
        let c = s.get_char(i);
        b.push(c as u8);
        i = i + 1;
        assert(b@ =~= s@.take(i as int).map_values(|c: char| c as u8));
    }
    assert(s@.take(i as int) =~= s@);
    b
}

/// Reads the announce request from the parameters.
pub fn announce_request(params: &QueryParams) -> (r: Option<AnnounceRequest>)
    ensures
        match r {
            Some(a) => announce_request_of(params@) == Some((a.info_hash@, a.port, a.stopped)),
            None => announce_request_of(params@) is None,
        },
{
    proof {
        reveal_strlit("info_hash");
        reveal_strlit("port");
        reveal_strlit("event");
        reveal_strlit("stopped");
    }
    let k_ih = ascii_bytes("info_hash");
    let k_port = ascii_bytes("port");
    let k_event = ascii_bytes("event");
    let stopped_text = ascii_bytes("stopped");
    let ih = match params.get(k_ih.as_slice()) {
        Some(v) => v,
        None => return None,
    };
    if ih.len() != 20 {
        return None;
    }
    let mut info_hash = [0u8; 20];
    let mut k: usize = 0;
    while k < 20
        invariant
            0 <= k <= 20,
            ih@.len() == 20,
            forall|m: int| 0 <= m < k ==> info_hash@[m] == ih@[m],
        decreases 20 - k,
    {
        info_hash[k] = ih[k];
        k = k + 1;
    }
    assert(info_hash@ =~= ih@);
    let port: u16 = match params.get(k_port.as_slice()) {
        Some(v) => match crate::decimal::parse_usize_bytes(v.as_slice()) {
            Some(n) => if n <= 65535 { n as u16 } else { 0 },
            None => 0,
        },
        None => 0,
    };
    let stopped = match params.get(k_event.as_slice()) {
        Some(v) => bytes_equal(v.as_slice(), stopped_text.as_slice()),
        None => false,
    };
    Some(AnnounceRequest { info_hash, port, stopped })
}

// ----- the swarm -----

/// How long a peer stays in a swarm without announcing, in milliseconds.
pub const PEER_TTL_MS: u64 = 120 * 1000;

/// A peer of a swarm and when it last announced.
#[derive(Clone, Copy)]
pub struct PeerEntry {
    pub ip: [u8; 4],
    pub port: u16,
    pub last_seen_ms: u64,
}

/// A peer as plain values.
pub open spec fn peer_view(p: PeerEntry) -> (Seq<u8>, u16, u64) {
    (p.ip@, p.port, p.last_seen_ms)
}

/// The peers of a swarm as plain values.
pub open spec fn swarm_view(s: Seq<PeerEntry>) -> Seq<(Seq<u8>, u16, u64)> {
    Seq::new(s.len(), |k: int| peer_view(s[k]))
}

/// A peer seen at `last` is still in the swarm at `now`: less than two
/// minutes have passed (none when the clock reads earlier).
pub open spec fn is_fresh(last: u64, now: u64) -> bool {
    now < last || now - last < PEER_TTL_MS
}

/// Seen less than two minutes before `now`.
pub open spec fn fresh_at(now: u64) -> spec_fn((Seq<u8>, u16, u64)) -> bool {
    |p: (Seq<u8>, u16, u64)| is_fresh(p.2, now)
}

/// Any peer but the one at `ip:port`.
pub open spec fn other_than(ip: Seq<u8>, port: u16) -> spec_fn((Seq<u8>, u16, u64)) -> bool {
    |p: (Seq<u8>, u16, u64)| !(p.0 == ip && p.1 == port)
}

/// The peers of `s`, in order, that satisfy `p`.
pub open spec fn peers_where(s: Seq<(Seq<u8>, u16, u64)>, p: spec_fn((Seq<u8>, u16, u64)) -> bool) -> Seq<(Seq<u8>, u16, u64)>
    decreases s.len(),
{
    if s.len() == 0 {
        s
    } else {
        let r = peers_where(s.drop_last(), p);
        if p(s.last()) {
            r.push(s.last())
        } else {
            r
        }
    }
}

/// The first position of the peer at `ip:port`.
pub open spec fn peer_index(s: Seq<(Seq<u8>, u16, u64)>, ip: Seq<u8>, port: u16) -> Option<int>
    decreases s.len(),
{
    if s.len() == 0 {
        None
    } else {
        match peer_index(s.drop_last(), ip, port) {
            Some(i) => Some(i),
            None => if s.last().0 == ip && s.last().1 == port { Some(s.len() - 1) } else { None },
        }
    }
}

/// The swarm after an announce by `ip:port` at `now`: peers not seen for two
/// minutes leave; a stopping peer leaves; another is marked seen now, at its
/// first place, or joins at the end.
pub open spec fn swarm_after(s: Seq<(Seq<u8>, u16, u64)>, ip: Seq<u8>, port: u16, stopped: bool, now: u64) -> Seq<(Seq<u8>, u16, u64)> {
    let live = peers_where(s, fresh_at(now));
    if stopped {
        peers_where(live, other_than(ip, port))
    } else {
        match peer_index(live, ip, port) {
            Some(i) => live.update(i, (ip, port, now)),
            None => live.push((ip, port, now)),
        }
    }
}

/// The compact peer list: six bytes per peer other than `ip:port`, its
/// address then its port, big-endian.
pub open spec fn compact_peers(s: Seq<(Seq<u8>, u16, u64)>, ip: Seq<u8>, port: u16) -> Seq<u8>
    decreases s.len(),
{
    if s.len() == 0 {
        Seq::empty()
    } else {
        let r = compact_peers(s.drop_last(), ip, port);
        let p = s.last();
        if p.0 == ip && p.1 == port {
            r
        } else {
            r + p.0 + crate::mse::handshake::be16(p.1)
        }
    }
}

fn filter_swarm_fresh(peers: &mut Vec<PeerEntry>, now: u64)
    ensures
        swarm_view(final(peers)@) == peers_where(swarm_view(old(peers)@), fresh_at(now)),
{
    let ghost s = swarm_view(peers@);
    let ghost f = fresh_at(now);
    let mut out: Vec<PeerEntry> = Vec::new();
    let mut i: usize = 0;
    while i < peers.len()
        invariant
            0 <= i <= peers@.len(),
            s == swarm_view(peers@),
            f == fresh_at(now),
            swarm_view(out@) == peers_where(s.take(i as int), f),
        decreases peers@.len() - i,
    {
        let ghost before = swarm_view(out@);
        proof {
            assert(s.take(i + 1).drop_last() =~= s.take(i as int));
            assert(s.take(i + 1).last() == s[i as int]);
        }
        let p = peers[i];
        if now < p.last_seen_ms || now - p.last_seen_ms < PEER_TTL_MS {
            out.push(p);
            assert(swarm_view(out@) =~= before.push(s[i as int]));
        }
        i = i + 1;
    }
    assert(s.take(i as int) =~= s);
    *peers = out;
}

fn same_peer(p: &PeerEntry, ip: &[u8; 4], port: u16) -> (b: bool)
    ensures
        b == (p.ip@ == ip@ && p.port == port),
{
    if p.port != port {
        return false;
    }
    bytes_equal(p.ip.as_slice(), ip.as_slice())
}

fn remove_peer(peers: &mut Vec<PeerEntry>, ip: &[u8; 4], port: u16)
    ensures
        swarm_view(final(peers)@) == peers_where(swarm_view(old(peers)@), other_than(ip@, port)),
{
    let ghost s = swarm_view(peers@);
    let ghost f = other_than(ip@, port);
    let mut out: Vec<PeerEntry> = Vec::new();
    let mut i: usize = 0;
    while i < peers.len()
        invariant
            0 <= i <= peers@.len(),
            s == swarm_view(peers@),
            f == other_than(ip@, port),
            swarm_view(out@) == peers_where(s.take(i as int), f),
        decreases peers@.len() - i,
    {
        let ghost before = swarm_view(out@);
        proof {
            assert(s.take(i + 1).drop_last() =~= s.take(i as int));
            assert(s.take(i + 1).last() == s[i as int]);
        }
        let p = peers[i];
        if !same_peer(&p, ip, port) {
            out.push(p);
            assert(swarm_view(out@) =~= before.push(s[i as int]));
        }
        i = i + 1;
    }
    assert(s.take(i as int) =~= s);
    *peers = out;
}

fn find_peer(peers: &Vec<PeerEntry>, ip: &[u8; 4], port: u16) -> (r: Option<usize>)
    ensures
        match r {
            Some(i) => peer_index(swarm_view(peers@), ip@, port) == Some(i as int),
            None => peer_index(swarm_view(peers@), ip@, port) is None,
        },
{
    let ghost s = swarm_view(peers@);
    let mut i: usize = 0;
    while i < peers.len()
        invariant
            0 <= i <= peers@.len(),
            s == swarm_view(peers@),
            peer_index(s.take(i as int), ip@, port) is None,
        decreases peers@.len() - i,
    {
        proof {
            assert(s.take(i + 1).drop_last() =~= s.take(i as int));
        }
        if same_peer(&peers[i], ip, port) {
            proof {
                lemma_peer_index_prefix(s, i as int + 1, ip@, port);
            }
            return Some(i);
        }
        i = i + 1;
    }
    assert(s.take(i as int) =~= s);
    None
}

proof fn lemma_peer_index_prefix(s: Seq<(Seq<u8>, u16, u64)>, n: int, ip: Seq<u8>, port: u16)
    requires
        0 <= n <= s.len(),
        peer_index(s.take(n), ip, port) is Some,
    ensures
        peer_index(s, ip, port) == peer_index(s.take(n), ip, port),
    decreases s.len() - n,
{
    if n < s.len() {
        assert(s.take(n + 1).drop_last() =~= s.take(n));
        lemma_peer_index_prefix(s, n + 1, ip, port);
    } else {
        assert(s.take(n) =~= s);
    }
}

proof fn lemma_peer_index_bound(s: Seq<(Seq<u8>, u16, u64)>, ip: Seq<u8>, port: u16)
    ensures
        peer_index(s, ip, port) matches Some(i) ==> 0 <= i < s.len() && s[i].0 == ip && s[i].1 == port,
    decreases s.len(),
{
    if s.len() > 0 {
        lemma_peer_index_bound(s.drop_last(), ip, port);
    }
}

fn compact_list(peers: &Vec<PeerEntry>, ip: &[u8; 4], port: u16) -> (out: Vec<u8>)
    ensures
        out@ == compact_peers(swarm_view(peers@), ip@, port),
{
    let ghost s = swarm_view(peers@);
    let mut out: Vec<u8> = Vec::new();
    let mut i: usize = 0;
    while i < peers.len()
        invariant
            0 <= i <= peers@.len(),
            s == swarm_view(peers@),
            out@ == compact_peers(s.take(i as int), ip@, port),
        decreases peers@.len() - i,
    {
        proof {
            assert(s.take(i + 1).drop_last() =~= s.take(i as int));
            assert(s.take(i + 1).last() == s[i as int]);
        }
        let p = peers[i];
        if !same_peer(&p, ip, port) {
            let ghost before = out@;
            out.push(p.ip[0]);
            out.push(p.ip[1]);
            out.push(p.ip[2]);
            out.push(p.ip[3]);
            out.push((p.port / 0x100) as u8);
            out.push((p.port % 0x100) as u8);
            assert(out@ =~= before + p.ip@ + crate::mse::handshake::be16(p.port));
        }
        i = i + 1;
    }
    assert(s.take(i as int) =~= s);
    out
}

/// The key bytes of an ASCII text.
pub open spec fn key(s: &str) -> Seq<u8> {
    s@.map_values(|c: char| c as u8)
}

/// The bencoded reply to an announce: the re-announce intervals, the swarm
/// size as `complete`, no `incomplete` peers, and the compact peer list.
pub open spec fn announce_reply(total: int, compact: Seq<u8>) -> Seq<u8> {
    let d0 = Seq::<(Seq<u8>, crate::bencode::BTerm)>::empty();
    let d1 = crate::bencode::dict_put(d0, key("interval"), crate::bencode::BTerm::Int(30));
    let d2 = crate::bencode::dict_put(d1, key("min interval"), crate::bencode::BTerm::Int(10));
    let d3 = crate::bencode::dict_put(d2, key("complete"), crate::bencode::BTerm::Int(total));
    let d4 = crate::bencode::dict_put(d3, key("incomplete"), crate::bencode::BTerm::Int(0));
    let d5 = crate::bencode::dict_put(d4, key("peers"), crate::bencode::BTerm::Bytes(compact));
    crate::bencode::enc(crate::bencode::BTerm::Dict(d5))
}

/// Updates a swarm on an announce by `ip:port` at `now` and gives the reply.
pub fn announce_swarm(peers: &mut Vec<PeerEntry>, ip: [u8; 4], port: u16, stopped: bool, now: u64) -> (reply: Vec<u8>)
    requires
        old(peers)@.len() < i64::MAX,
    ensures
        swarm_view(final(peers)@) == swarm_after(swarm_view(old(peers)@), ip@, port, stopped, now),
        reply@ == announce_reply(
            final(peers)@.len() as int,
            compact_peers(swarm_view(final(peers)@), ip@, port),
        ),
{
    filter_swarm_fresh(peers, now);
    let ghost live = swarm_view(peers@);
    if stopped {
        remove_peer(peers, &ip, port);
    } else {
        match find_peer(peers, &ip, port) {
            Some(i) => {
                proof {
                    lemma_peer_index_bound(live, ip@, port);
                }
                let p = PeerEntry { ip, port, last_seen_ms: now };
                peers.set(i, p);
                assert(swarm_view(peers@) =~= live.update(i as int, (ip@, port, now)));
            },
            None => {
                peers.push(PeerEntry { ip, port, last_seen_ms: now });
                assert(swarm_view(peers@) =~= live.push((ip@, port, now)));
            },
        }
    }
    let compact = compact_list(peers, &ip, port);
    let total = peers.len();
    proof {
        lemma_where_len(swarm_view(old(peers)@), fresh_at(now));
        lemma_where_len(live, other_than(ip@, port));
    }
    proof {
        reveal_strlit("interval");
        reveal_strlit("min interval");
        reveal_strlit("complete");
        reveal_strlit("incomplete");
        reveal_strlit("peers");
    }
    let mut d = BDict::new();
    d.insert(ascii_bytes("interval"), BValue::Int(30));
    d.insert(ascii_bytes("min interval"), BValue::Int(10));
    d.insert(ascii_bytes("complete"), BValue::Int(total as i64));
    d.insert(ascii_bytes("incomplete"), BValue::Int(0));
    d.insert(ascii_bytes("peers"), BValue::Bytes(compact));
    BValue::Dict(d).encode()
}

proof fn lemma_where_len(s: Seq<(Seq<u8>, u16, u64)>, p: spec_fn((Seq<u8>, u16, u64)) -> bool)
    ensures
        peers_where(s, p).len() <= s.len(),
    decreases s.len(),
{
    if s.len() > 0 {
        lemma_where_len(s.drop_last(), p);
    }
}

// ----- HTTP -----

/// Where a request goes, by the start of its path.
#[derive(Debug, Clone, Copy, PartialEq, Eq, Structural)]
pub enum Route {
    Announce,
    Health,
    Stats,
    NotFound,
}

/// The route of a path: `/announce…`, `/health…`, `/stats…`, or none.
pub open spec fn route_of(path: Seq<char>) -> Route {
    if "/announce"@.is_prefix_of(path) {
        Route::Announce
    } else if "/health"@.is_prefix_of(path) {
        Route::Health
    } else if "/stats"@.is_prefix_of(path) {
        Route::Stats
    } else {
        Route::NotFound
    }
}

/// Routes a request path.
pub fn route(path: &str) -> (r: Route)
    ensures
        r == route_of(path@),
{
    if crate::scenarios::starts_with(path, "/announce") {
        Route::Announce
    } else if crate::scenarios::starts_with(path, "/health") {
        Route::Health
    } else if crate::scenarios::starts_with(path, "/stats") {
        Route::Stats
    } else {
        Route::NotFound
    }
}

/// The part of a path after its first `?`, or nothing.
pub open spec fn query_part(path: Seq<u8>) -> Seq<u8> {
    match crate::bencode::first_index(path, 63) {
        Some(i) => path.skip(i + 1int),
        None => Seq::empty(),
    }
}

/// The query string of a path.
pub fn query_of(path: &[u8]) -> (q: Vec<u8>)
    ensures
        q@ == query_part(path@),
{
    proof {
        crate::bencode::lemma_first_index(path@, 63);
    }
    match find_byte(path, 63) {
        Some(i) => {
            assert(i < path.len());
            let q = vstd::slice::slice_subrange(path, i + 1, path.len());
            vstd::slice::slice_to_vec(q)
        },
        None => Vec::new(),
    }
}

/// The stats page: torrents, peers and announces, one per line.
pub open spec fn stats_page(torrents: nat, peers: nat, announces: nat) -> Seq<char> {
    "torrents:"@ + crate::scenarios::dec(torrents) + "\npeers:"@ + crate::scenarios::dec(peers) + "\nannounces:"@
        + crate::scenarios::dec(announces) + "\n"@
}

/// Writes the stats page.
pub fn stats_text(torrents: u64, peers: u64, announces: u64) -> (s: String)
    ensures
        s@ == stats_page(torrents as nat, peers as nat, announces as nat),
{
    let mut s = String::new();
    append_str(&mut s, "torrents:");
    append_num(&mut s, torrents);
    append_str(&mut s, "\npeers:");
    append_num(&mut s, peers);
    append_str(&mut s, "\nannounces:");
    append_num(&mut s, announces);
    append_str(&mut s, "\n");
    s
}

/// The head of a response with the given status and body length.
pub open spec fn response_head_text(status: Seq<char>, len: nat) -> Seq<char> {
    "HTTP/1.1 "@ + status + "\r\nContent-Length: "@ + crate::scenarios::dec(len) + "\r\nConnection: close\r\n\r\n"@
}

/// Writes the head of a response.
pub fn response_head(status: &str, body_len: usize) -> (s: String)
    ensures
        s@ == response_head_text(status@, body_len as nat),
{
    let mut s = String::new();
    append_str(&mut s, "HTTP/1.1 ");
    append_str(&mut s, status);
    append_str(&mut s, "\r\nContent-Length: ");
    append_num(&mut s, body_len as u64);
    append_str(&mut s, "\r\nConnection: close\r\n\r\n");
    s
}

// ----- laws -----

/// Text without `%` decodes to itself.
pub proof fn lemma_percent_decode_plain(input: Seq<u8>, i: int)
    requires
        0 <= i <= input.len(),
        forall|k: int| 0 <= k < input.len() ==> input[k] != 37,
    ensures
        percent_decoded(input, i) == input.skip(i),
    decreases input.len() - i,
{
    if i < input.len() {
        lemma_percent_decode_plain(input, i + 1);
        assert(input.skip(i) =~= seq![input[i]] + input.skip(i + 1));
    } else {
        assert(input.skip(i) =~= Seq::<u8>::empty());
    }
}

proof fn lemma_peer_index_found(s: Seq<(Seq<u8>, u16, u64)>, i: int, ip: Seq<u8>, port: u16)
    requires
        0 <= i < s.len(),
        s[i].0 == ip && s[i].1 == port,
    ensures
        peer_index(s, ip, port) is Some,
    decreases s.len(),
{
    if i < s.len() - 1 {
        lemma_peer_index_found(s.drop_last(), i, ip, port);
    }
}

proof fn lemma_where_excludes(s: Seq<(Seq<u8>, u16, u64)>, ip: Seq<u8>, port: u16)
    ensures
        forall|k: int| 0 <= k < peers_where(s, other_than(ip, port)).len() ==> !(
            #[trigger] peers_where(s, other_than(ip, port))[k].0 == ip && peers_where(s, other_than(ip, port))[k].1 == port),
    decreases s.len(),
{
    if s.len() > 0 {
        lemma_where_excludes(s.drop_last(), ip, port);
        let r = peers_where(s.drop_last(), other_than(ip, port));
        let t = peers_where(s, other_than(ip, port));
        if (other_than(ip, port))(s.last()) {
            assert(t == r.push(s.last()));
            assert forall|k: int| 0 <= k < t.len() implies !(#[trigger] t[k].0 == ip && t[k].1 == port) by {
                if k < r.len() {
                    assert(t[k] == r[k]);
                }
            }
        } else {
            assert(t == r);
        }
    }
}

/// After an announce that is not `stopped`, the peer is in the swarm, seen now.
pub proof fn lemma_announce_joins(s: Seq<(Seq<u8>, u16, u64)>, ip: Seq<u8>, port: u16, now: u64)
    ensures
        exists|i: int| 0 <= i < swarm_after(s, ip, port, false, now).len()
            && #[trigger] swarm_after(s, ip, port, false, now)[i] == (ip, port, now),
{
    let live = peers_where(s, fresh_at(now));
    lemma_peer_index_bound(live, ip, port);
    let r = swarm_after(s, ip, port, false, now);
    match peer_index(live, ip, port) {
        Some(i) => {
            assert(r[i] == (ip, port, now));
        },
        None => {
            assert(r[live.len() as int] == (ip, port, now));
        },
    }
}

/// After a `stopped` announce, the peer is not in the swarm.
pub proof fn lemma_stopped_leaves(s: Seq<(Seq<u8>, u16, u64)>, ip: Seq<u8>, port: u16, now: u64)
    ensures
        forall|i: int| 0 <= i < swarm_after(s, ip, port, true, now).len() ==> !(
            #[trigger] swarm_after(s, ip, port, true, now)[i].0 == ip && swarm_after(s, ip, port, true, now)[i].1 == port),
{
    lemma_where_excludes(peers_where(s, fresh_at(now)), ip, port);
}

/// The compact peer list never lists the peer that asks.
pub proof fn lemma_compact_excludes_requester(s: Seq<(Seq<u8>, u16, u64)>, ip: Seq<u8>, port: u16)
    ensures
        compact_peers(s, ip, port) == compact_peers(peers_where(s, other_than(ip, port)), ip, port),
    decreases s.len(),
{
    if s.len() > 0 {
        lemma_compact_excludes_requester(s.drop_last(), ip, port);
        let r = peers_where(s.drop_last(), other_than(ip, port));
        if !(s.last().0 == ip && s.last().1 == port) {
            let t = r.push(s.last());
            assert(t.drop_last() =~= r);
        }
    }
}

} // verus!
