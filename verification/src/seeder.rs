//! The mock seeder's logic: what it reads from a .torrent file, the peer wire
//! messages it reads and writes, the range of a requested block, the peer ids
//! of its virtual peers, and the routes of its control server.
use vstd::prelude::*;
use vstd::string::StringSliceAdditionalSpecFns;
use crate::bencode::{BValue, DecodeOutcome, as_bytes, as_dict, as_int, decode_outcome, dict_get};
use crate::mse::handshake::{be32, from_be32};
use crate::scenarios::{append_num, append_str};

verus! {

/// The protocol string of the peer wire handshake.
pub open spec fn pstr() -> Seq<u8> {
    "BitTorrent protocol"@.map_values(|c: char| c as u8)
}

/// The length of a handshake.
pub const HANDSHAKE_LEN: usize = 68;

pub const MSG_UNCHOKE: u8 = 1;

pub const MSG_INTERESTED: u8 = 2;

pub const MSG_BITFIELD: u8 = 5;

pub const MSG_REQUEST: u8 = 6;

pub const MSG_PIECE: u8 = 7;

fn pstr_bytes() -> (b: Vec<u8>)
    ensures
        b@ == pstr(),
{
    proof {
        reveal_strlit("BitTorrent protocol");
    }
    let s = "BitTorrent protocol";
    let n = s.unicode_len();
    let mut b: Vec<u8> = Vec::new();
    let mut i: usize = 0;
    while i < n
        invariant
            0 <= i <= n,
            n == s@.len(),
            s@ == "BitTorrent protocol"@,
            b@ == s@.take(i as int).map_values(|c: char| c as u8),
        decreases n - i,
    {
        b.push(s.get_char(i) as u8);
        i = i + 1;
        assert(b@ =~= s@.take(i as int).map_values(|c: char| c as u8));
    }
    assert(s@.take(i as int) =~= s@);
    b
}

/// Why the seeder drops a connection or a torrent.
#[derive(Debug, Clone, Copy, PartialEq, Eq)]
pub enum SeederError {
    /// The handshake does not start with the protocol string.
    BadHandshake,
    /// A block request reaches past the end of the data.
    BlockOutOfRange,
    /// The torrent file does not decode.
    Decode(crate::bencode::DecodeError),
    /// The torrent file is not a dictionary.
    NotADict,
    /// The torrent file has no `info` dictionary.
    NoInfoDict,
    /// The info dictionary has no `name`.
    NoName,
    /// The info dictionary has no `piece length`.
    NoPieceLength,
    /// The info dictionary has no `length`.
    NoLength,
}

// ----- the handshake -----

/// The info hash a valid handshake carries: bytes 28 to 48, when the
/// handshake starts with byte 19 and the protocol string.
pub open spec fn handshake_info_hash(hs: Seq<u8>) -> Option<Seq<u8>> {
    if hs[0] == 19 && hs.subrange(1, 20) == pstr() {
        Some(hs.subrange(28, 48))
    } else {
        None
    }
}

/// Reads a peer's handshake.
pub fn parse_handshake(hs: &[u8]) -> (r: Result<[u8; 20], SeederError>)
    requires
        hs@.len() == HANDSHAKE_LEN,
    ensures
        match r {
            Ok(ih) => handshake_info_hash(hs@) == Some(ih@),
            Err(e) => e == SeederError::BadHandshake && handshake_info_hash(hs@) is None,
        },
{
    let p = pstr_bytes();
    let head = vstd::slice::slice_subrange(hs, 1, 20);
    if hs[0] != 19 || !crate::bencode::bytes_equal(head, p.as_slice()) {
        return Err(SeederError::BadHandshake);
    }
    let mut ih = [0u8; 20];
    let mut k: usize = 0;
    while k < 20
        invariant
            0 <= k <= 20,
            hs@.len() == 68,
            forall|m: int| 0 <= m < k ==> ih@[m] == hs@[28 + m],
        decreases 20 - k,
    {
        ih[k] = hs[28 + k];
        k = k + 1;
    }
    assert(ih@ =~= hs@.subrange(28, 48));
    Ok(ih)
}

/// The seeder's handshake: byte 19, the protocol string, eight reserved zero
/// bytes, the info hash and the peer id.
pub open spec fn handshake_message(info_hash: Seq<u8>, peer_id: Seq<u8>) -> Seq<u8> {
    seq![19u8] + pstr() + Seq::new(8, |k: int| 0u8) + info_hash + peer_id
}

fn push_slice(out: &mut Vec<u8>, data: &[u8])
    ensures
        final(out)@ == old(out)@ + data@,
{
    let mut k: usize = 0;
    while k < data.len()
        invariant
            0 <= k <= data@.len(),
            out@ == old(out)@ + data@.take(k as int),
        decreases data@.len() - k,
    {
        out.push(data[k]);
        k = k + 1;
        assert(out@ =~= old(out)@ + data@.take(k as int));
    }
    assert(data@.take(k as int) =~= data@);
}

/// Writes the seeder's handshake.
pub fn handshake_reply(info_hash: &[u8; 20], peer_id: &[u8; 20]) -> (m: Vec<u8>)
    ensures
        m@ == handshake_message(info_hash@, peer_id@),
{
    let mut m: Vec<u8> = vec![19u8];
    let p = pstr_bytes();
    push_slice(&mut m, p.as_slice());
    let zeros = [0u8; 8];
    push_slice(&mut m, zeros.as_slice());
    push_slice(&mut m, info_hash.as_slice());
    push_slice(&mut m, peer_id.as_slice());
    assert(zeros@ =~= Seq::new(8, |k: int| 0u8));
    assert(m@ =~= handshake_message(info_hash@, peer_id@));
    m
}

// ----- messages -----

/// The byte of a bitfield whose pieces from `8 * k` on are all had, up to `n`.
pub open spec fn bitfield_byte(n: nat, k: nat) -> u8 {
    if 8 * k + 8 <= n {
        255
    } else {
        let r = n - 8 * k;
        if r <= 0 { 0 } else if r == 1 { 0x80 } else if r == 2 { 0xC0 } else if r == 3 { 0xE0 } else if r == 4 {
            0xF0
        } else if r == 5 { 0xF8 } else if r == 6 { 0xFC } else { 0xFE }
    }
}

/// A bitfield with all of `n` pieces: `ceil(n / 8)` bytes, piece `i` at bit
/// `7 - i % 8` of byte `i / 8`.
pub open spec fn full_bitfield(n: nat) -> Seq<u8> {
    Seq::new((n + 7) / 8, |k: int| bitfield_byte(n, k as nat))
}

/// The bitfield of a seeder that has every piece.
pub fn bitfield_bytes(num_pieces: usize) -> (bf: Vec<u8>)
    requires
        num_pieces + 7 <= usize::MAX,
    ensures
        bf@ == full_bitfield(num_pieces as nat),
{
    let n_bytes = (num_pieces + 7) / 8;
    let mut bf: Vec<u8> = Vec::new();
    let mut k: usize = 0;
    while k < n_bytes
        invariant
            0 <= k <= n_bytes,
            n_bytes == (num_pieces + 7) / 8,
            num_pieces + 7 <= usize::MAX,
            bf@.len() == k,
            forall|m: int| 0 <= m < k ==> bf@[m] == bitfield_byte(num_pieces as nat, m as nat),
        decreases n_bytes - k,
    {
        let byte: u8 = if num_pieces >= 8 * k + 8 {
            255
        } else {
            let r = num_pieces - 8 * k;
            if r == 1 { 0x80 } else if r == 2 { 0xC0 } else if r == 3 { 0xE0 } else if r == 4 { 0xF0 } else if r
                == 5 { 0xF8 } else if r == 6 { 0xFC } else { 0xFE }
        };
        bf.push(byte);
        k = k + 1;
    }
    assert(bf@ =~= full_bitfield(num_pieces as nat));
    bf
}

/// A length-prefixed message: the length of id and payload, big-endian, the
/// id, then the payload.
pub open spec fn message(id: u8, payload: Seq<u8>) -> Seq<u8> {
    be32((1 + payload.len()) as u32) + seq![id] + payload
}

fn push_be32(out: &mut Vec<u8>, x: u32)
    ensures
        final(out)@ == old(out)@ + be32(x),
{
    out.push((x / 0x100_0000) as u8);
    out.push(((x / 0x1_0000) % 0x100) as u8);
    out.push(((x / 0x100) % 0x100) as u8);
    out.push((x % 0x100) as u8);
    assert(out@ =~= old(out)@ + be32(x));
}

/// The bitfield message.
pub fn bitfield_message(bf: &[u8]) -> (m: Vec<u8>)
    requires
        bf@.len() < u32::MAX,
    ensures
        m@ == message(MSG_BITFIELD, bf@),
{
    let mut m: Vec<u8> = Vec::new();
    push_be32(&mut m, (1 + bf.len()) as u32);
    m.push(MSG_BITFIELD);
    push_slice(&mut m, bf);
    m
}

/// The unchoke message.
pub fn unchoke_message() -> (m: Vec<u8>)
    ensures
        m@ == message(MSG_UNCHOKE, Seq::empty()),
{
    let mut m: Vec<u8> = Vec::new();
    push_be32(&mut m, 1);
    m.push(MSG_UNCHOKE);
    assert(m@ =~= message(MSG_UNCHOKE, Seq::empty()));
    m
}

/// What a peer's message asks of the seeder.
#[derive(Debug, Clone, Copy, PartialEq, Eq, Structural)]
pub enum PeerRequest {
    /// A block: piece index, offset in the piece, length.
    Block(u32, u32, u32),
    /// The peer is interested: unchoke it again.
    Interested,
    /// Anything else, ignored.
    Ignore,
}

/// What a nonempty message asks: a request of at least 13 bytes gives the
/// three big-endian numbers after the id.
pub open spec fn peer_request_of(msg: Seq<u8>) -> PeerRequest {
    if msg[0] == MSG_REQUEST && msg.len() >= 13 {
        PeerRequest::Block(
            from_be32(msg.subrange(1, 5)) as u32,
            from_be32(msg.subrange(5, 9)) as u32,
            from_be32(msg.subrange(9, 13)) as u32,
        )
    } else if msg[0] == MSG_INTERESTED {
        PeerRequest::Interested
    } else {
        PeerRequest::Ignore
    }
}

fn read_be32(msg: &[u8], at: usize) -> (r: u32)
    requires
        at + 4 <= msg@.len(),
    ensures
        r == from_be32(msg@.subrange(at as int, at + 4)),
{
    (msg[at] as u32) * 0x100_0000 + (msg[at + 1] as u32) * 0x1_0000 + (msg[at + 2] as u32) * 0x100 + (msg[at
        + 3] as u32)
}

/// Reads what a nonempty message asks.
pub fn parse_peer_message(msg: &[u8]) -> (r: PeerRequest)
    requires
        msg@.len() >= 1,
    ensures
        r == peer_request_of(msg@),
{
    if msg[0] == MSG_REQUEST && msg.len() >= 13 {
        PeerRequest::Block(read_be32(msg, 1), read_be32(msg, 5), read_be32(msg, 9))
    } else if msg[0] == MSG_INTERESTED {
        PeerRequest::Interested
    } else {
        PeerRequest::Ignore
    }
}

/// The header of a piece message carrying `data_len` bytes of a block.
pub open spec fn piece_header_of(piece: u32, offset: u32, data_len: nat) -> Seq<u8> {
    be32((9 + data_len) as u32) + seq![MSG_PIECE] + be32(piece) + be32(offset)
}

/// Writes the header of a piece message.
pub fn piece_header(piece: u32, offset: u32, data_len: u32) -> (h: Vec<u8>)
    requires
        data_len <= u32::MAX - 9,
    ensures
        h@ == piece_header_of(piece, offset, data_len as nat),
{
    let mut h: Vec<u8> = Vec::new();
    push_be32(&mut h, 9 + data_len);
    h.push(MSG_PIECE);
    push_be32(&mut h, piece);
    push_be32(&mut h, offset);
    h
}

/// The byte range of a block within the data, refused when it ends past it.
pub open spec fn block_range_of(piece: u32, offset: u32, length: u32, piece_length: u64, total_length: u64) -> Option<(int, int)> {
    let start = piece * piece_length + offset;
    if start + length > total_length {
        None
    } else {
        Some((start, start + length))
    }
}

/// The byte range of a requested block.
pub fn block_range(piece: u32, offset: u32, length: u32, piece_length: u64, total_length: u64) -> (r: Result<(u64, u64), SeederError>)
    requires
        piece_length <= u32::MAX,
    ensures
        match r {
            Ok((s, e)) => block_range_of(piece, offset, length, piece_length, total_length) == Some((s as int, e as int)),
            Err(err) => err == SeederError::BlockOutOfRange && block_range_of(piece, offset, length, piece_length, total_length) is None,
        },
{
    assert(piece * piece_length <= 0xFFFF_FFFF * 0xFFFF_FFFF) by (nonlinear_arith)
        requires
            piece <= 0xFFFF_FFFF,
            piece_length <= 0xFFFF_FFFF,
    ;
    let start = piece as u64 * piece_length + offset as u64;
    let end = start + length as u64;
    if end > total_length {
        Err(SeederError::BlockOutOfRange)
    } else {
        Ok((start, end))
    }
}

// ----- the torrent file -----

/// What the seeder reads from a .torrent file.
pub struct TorrentMeta {
    pub info_hash: [u8; 20],
    pub name: Vec<u8>,
    pub piece_length: u64,
    pub total_length: u64,
    pub num_pieces: usize,
}

/// The key bytes of an ASCII text.
pub open spec fn key(s: &str) -> Seq<u8> {
    s.spec_bytes()
}

/// What a .torrent file gives: the SHA-1 of its info dictionary re-encoded,
/// the name, the piece length and the length (integers read as `u64`), or the
/// first thing missing.
pub open spec fn torrent_meta_of(raw: Seq<u8>) -> Result<(Seq<u8>, Seq<u8>, u64, u64), SeederError> {
    match crate::bencode::dec(raw) {
        crate::bencode::Decoded::Done(t, _) => match t {
            crate::bencode::BTerm::Dict(es) => match crate::bencode::dict_lookup(es, key("info")) {
                Some(crate::bencode::BTerm::Dict(info)) => {
                    let hash = crate::mse::sha1_of(crate::bencode::enc(crate::bencode::BTerm::Dict(info)));
                    match crate::bencode::dict_lookup(info, key("name")) {
                        Some(crate::bencode::BTerm::Bytes(name)) => match crate::bencode::dict_lookup(info, key("piece length")) {
                            Some(crate::bencode::BTerm::Int(pl)) => match crate::bencode::dict_lookup(info, key("length")) {
                                Some(crate::bencode::BTerm::Int(len)) => Ok((hash, name, pl as i64 as u64, len as i64 as u64)),
                                _ => Err(SeederError::NoLength),
                            },
                            _ => Err(SeederError::NoPieceLength),
                        },
                        _ => Err(SeederError::NoName),
                    }
                },
                _ => Err(SeederError::NoInfoDict),
            },
            _ => Err(SeederError::NotADict),
        },
        crate::bencode::Decoded::Failed(e) => Err(SeederError::Decode(e)),
        crate::bencode::Decoded::Truncated => Err(SeederError::NotADict),
    }
}

/// The number of pieces: the length divided by the piece length, rounded up.
pub open spec fn piece_count(total: u64, piece_length: u64) -> int {
    (total + piece_length - 1) / (piece_length as int)
}

/// Reads a .torrent file's metadata. A file that ends inside a value, a piece
/// length of zero and a length so large that rounding it up overflows are
/// outside the domain.
pub fn parse_torrent_meta(raw: &[u8]) -> (r: Result<TorrentMeta, SeederError>)
    requires
        !(crate::bencode::dec(raw@) is Truncated),
        torrent_meta_of(raw@) matches Ok((_, _, pl, len)) ==> pl > 0 && len + pl <= u64::MAX
            && piece_count(len, pl) <= usize::MAX,
    ensures
        match r {
            Ok(m) => torrent_meta_of(raw@) == Ok::<_, SeederError>(
                (m.info_hash@, m.name@, m.piece_length, m.total_length),
            ) && m.num_pieces == piece_count(m.total_length, m.piece_length),
            Err(e) => torrent_meta_of(raw@) == Err::<(Seq<u8>, Seq<u8>, u64, u64), SeederError>(e),
        },
{
    let v = match decode_outcome(raw) {
        DecodeOutcome::Done(v, _) => v,
        DecodeOutcome::Failed(e) => return Err(SeederError::Decode(e)),
        DecodeOutcome::Truncated => return Err(SeederError::NotADict),
    };
    let dict = match as_dict(&v) {
        Some(d) => d,
        None => return Err(SeederError::NotADict),
    };
    let info_v = match dict_get(dict, "info") {
        Some(x) => x,
        None => return Err(SeederError::NoInfoDict),
    };
    let info = match as_dict(info_v) {
        Some(d) => d,
        None => return Err(SeederError::NoInfoDict),
    };
    let encoded = info_v.encode();
    let info_hash = crate::mse::sha1_digest(encoded.as_slice());
    let name = match dict_get(info, "name") {
        Some(x) => match as_bytes(x) {
            Some(b) => vstd::slice::slice_to_vec(b),
            None => return Err(SeederError::NoName),
        },
        None => return Err(SeederError::NoName),
    };
    let piece_length = match dict_get(info, "piece length") {
        Some(x) => match as_int(x) {
            Some(n) => n as u64,
            None => return Err(SeederError::NoPieceLength),
        },
        None => return Err(SeederError::NoPieceLength),
    };
    let total_length = match dict_get(info, "length") {
        Some(x) => match as_int(x) {
            Some(n) => n as u64,
            None => return Err(SeederError::NoLength),
        },
        None => return Err(SeederError::NoLength),
    };
    assert(torrent_meta_of(raw@) == Ok::<_, SeederError>((info_hash@, name@, piece_length, total_length)));
    assert(torrent_meta_of(raw@) matches Ok((_, _, pl, len)) && pl == piece_length && len == total_length);
    assert(piece_length > 0 && total_length + piece_length <= u64::MAX);
    let num_pieces = ((total_length + piece_length - 1) / piece_length) as usize;
    Ok(TorrentMeta { info_hash, name, piece_length, total_length, num_pieces })
}

// ----- the virtual peers -----

/// The peer id of virtual peer `i`: the first 20 bytes of `-MS0001-`
/// followed by `i` zero-padded to twelve digits.
pub open spec fn virtual_peer_id(i: nat) -> Seq<u8> {
    peer_id_text(i).take(20)
}

/// `-MS0001-` followed by `i` zero-padded to twelve digits, as bytes.
pub open spec fn peer_id_text(i: nat) -> Seq<u8> {
    let d = crate::decimal::digits_of(i);
    "-MS0001-"@.map_values(|c: char| c as u8) + if d.len() < 12 {
        Seq::new((12 - d.len()) as nat, |k: int| 48u8) + d
    } else {
        d
    }
}

fn peer_id_bytes(i: usize) -> (text: Vec<u8>)
    ensures
        text@ == peer_id_text(i as nat),
        text@.len() >= 20,
{
    proof {
        reveal_strlit("-MS0001-");
        crate::decimal::lemma_digits_of(i as nat);
    }
    let mut digits: Vec<u8> = Vec::new();
    crate::decimal::push_digits(&mut digits, i as u64);
    let ghost d = crate::decimal::digits_of(i as nat);
    assert(digits@ =~= d);
    let mut text: Vec<u8> = vec![45u8, 77, 83, 48, 48, 48, 49, 45];
    assert(text@ =~= "-MS0001-"@.map_values(|c: char| c as u8));
    let mut pad: usize = 0;
    while pad + digits.len() < 12
        invariant
            text@ == "-MS0001-"@.map_values(|c: char| c as u8) + Seq::new(pad as nat, |k: int| 48u8),
            digits@.len() <= 12 ==> pad + digits@.len() <= 12,
            digits@.len() > 12 ==> pad == 0,
            digits@ == d,
        decreases 12 - pad - digits@.len(),
    {
        text.push(48u8);
        pad = pad + 1;
        assert(text@ =~= "-MS0001-"@.map_values(|c: char| c as u8) + Seq::new(pad as nat, |k: int| 48u8));
    }
    push_slice(&mut text, digits.as_slice());
    proof {
        if d.len() < 12 {
            assert(pad == 12 - d.len());
        } else {
            assert(pad == 0);
            assert(Seq::new(0nat, |k: int| 48u8) =~= Seq::<u8>::empty());
        }
        assert(text@ =~= peer_id_text(i as nat));
    }
    text
}

/// The peer id of virtual peer `i`.
pub fn peer_id_for(i: usize) -> (id: [u8; 20])
    ensures
        id@ == virtual_peer_id(i as nat),
{
    let text = peer_id_bytes(i);
    let mut id = [0u8; 20];
    let mut k: usize = 0;
    while k < 20
        invariant
            0 <= k <= 20,
            text@.len() >= 20,
            forall|m: int| 0 <= m < k ==> id@[m] == text@[m],
        decreases 20 - k,
    {
        id[k] = text[k];
        k = k + 1;
    }
    assert(id@ =~= text@.take(20));
    id
}

// ----- announcing to the tracker -----

/// An uppercase hexadecimal digit.
pub open spec fn upper_hex(v: u8) -> char {
    if v < 10 {
        ((48 + v) as u8) as char
    } else {
        ((55 + v) as u8) as char
    }
}

/// An ASCII letter or digit.
pub open spec fn is_alnum(b: u8) -> bool {
    (48 <= b <= 57) || (65 <= b <= 90) || (97 <= b <= 122)
}

/// Every byte that is not an ASCII letter or digit as `%XX`, uppercase.
pub open spec fn pct_encoded(d: Seq<u8>) -> Seq<char>
    decreases d.len(),
{
    if d.len() == 0 {
        Seq::empty()
    } else {
        let b = d.last();
        pct_encoded(d.drop_last()) + if is_alnum(b) {
            seq![b as char]
        } else {
            seq!['%', upper_hex(b / 16), upper_hex(b % 16)]
        }
    }
}

/// `percent_encoding::percent_encode` with the `NON_ALPHANUMERIC` set, as text.
#[verifier::external_body]
fn percent_encode_alnum(data: &[u8]) -> (s: String)
    ensures
        s@ == pct_encoded(data@),
{
    percent_encoding::percent_encode(data, percent_encoding::NON_ALPHANUMERIC).to_string()
}

/// The announce of virtual peer `i` on `port` for a torrent.
pub open spec fn announce_url_text(tracker_url: Seq<char>, info_hash: Seq<u8>, i: nat, port: u16) -> Seq<char> {
    tracker_url + "?info_hash="@ + pct_encoded(info_hash) + "&peer_id="@ + pct_encoded(peer_id_text(i)) + "&port="@
        + crate::scenarios::dec(port as nat) + "&uploaded=0&downloaded=0&left=0&compact=1&event=started"@
}

/// Writes the announce of virtual peer `i` on `port`.
pub fn announce_url(tracker_url: &str, info_hash: &[u8; 20], i: usize, port: u16) -> (s: String)
    ensures
        s@ == announce_url_text(tracker_url@, info_hash@, i as nat, port),
{
    let ih = percent_encode_alnum(info_hash.as_slice());
    let pid_bytes = peer_id_bytes(i);
    let pid = percent_encode_alnum(pid_bytes.as_slice());
    let mut s = String::new();
    append_str(&mut s, tracker_url);
    append_str(&mut s, "?info_hash=");
    append_str(&mut s, ih.as_str());
    append_str(&mut s, "&peer_id=");
    append_str(&mut s, pid.as_str());
    append_str(&mut s, "&port=");
    append_num(&mut s, port as u64);
    append_str(&mut s, "&uploaded=0&downloaded=0&left=0&compact=1&event=started");
    s
}

// ----- the control server -----

/// The control server's routes, by exact path.
#[derive(Debug, Clone, Copy, PartialEq, Eq, Structural)]
pub enum ControlRoute {
    Health,
    Status,
    Reload,
    DropCache,
    NotFound,
}

/// The route of a path.
pub open spec fn control_route_of(path: Seq<char>) -> ControlRoute {
    if path == "/health"@ {
        ControlRoute::Health
    } else if path == "/status"@ {
        ControlRoute::Status
    } else if path == "/reload"@ {
        ControlRoute::Reload
    } else if path == "/drop-cache"@ {
        ControlRoute::DropCache
    } else {
        ControlRoute::NotFound
    }
}

/// Routes a control request.
pub fn control_route(path: &str) -> (r: ControlRoute)
    ensures
        r == control_route_of(path@),
{
    if crate::text::str_eq(path, "/health") {
        ControlRoute::Health
    } else if crate::text::str_eq(path, "/status") {
        ControlRoute::Status
    } else if crate::text::str_eq(path, "/reload") {
        ControlRoute::Reload
    } else if crate::text::str_eq(path, "/drop-cache") {
        ControlRoute::DropCache
    } else {
        ControlRoute::NotFound
    }
}

/// A JSON reply with the number of torrents loaded.
pub open spec fn torrents_response_text(count: nat) -> Seq<char> {
    let body = "{\"torrents\":"@ + crate::scenarios::dec(count) + "}"@;
    "HTTP/1.1 200 OK\r\nContent-Type: application/json\r\nContent-Length: "@ + crate::scenarios::dec(body.len())
        + "\r\n\r\n"@ + body
}

/// Writes the reply of `/status` and `/reload`.
pub fn torrents_response(count: usize) -> (s: String)
    ensures
        s@ == torrents_response_text(count as nat),
{
    let mut body = String::new();
    append_str(&mut body, "{\"torrents\":");
    append_num(&mut body, count as u64);
    append_str(&mut body, "}");
    let blen = body.as_str().unicode_len();
    let mut s = String::new();
    append_str(&mut s, "HTTP/1.1 200 OK\r\nContent-Type: application/json\r\nContent-Length: ");
    append_num(&mut s, blen as u64);
    append_str(&mut s, "\r\n\r\n");
    append_str(&mut s, body.as_str());
    s
}

// ----- laws -----

/// A handshake the seeder writes is one it accepts, and carries the info hash
/// it was written with.
pub proof fn lemma_handshake_roundtrip(info_hash: Seq<u8>, peer_id: Seq<u8>)
    requires
        info_hash.len() == 20,
        peer_id.len() == 20,
    ensures
        handshake_message(info_hash, peer_id).len() == HANDSHAKE_LEN,
        handshake_info_hash(handshake_message(info_hash, peer_id)) == Some(info_hash),
{
    reveal_strlit("BitTorrent protocol");
    let m = handshake_message(info_hash, peer_id);
    assert(pstr().len() == 19);
    assert(m.subrange(1, 20) =~= pstr());
    assert(m.subrange(28, 48) =~= info_hash);
}

/// A request carries back the numbers it was written with: its id and payload,
/// after the length prefix, read as that block.
pub proof fn lemma_request_roundtrip(piece: u32, offset: u32, length: u32)
    ensures
        peer_request_of(seq![MSG_REQUEST] + be32(piece) + be32(offset) + be32(length))
            == PeerRequest::Block(piece, offset, length),
{
    let m = seq![MSG_REQUEST] + be32(piece) + be32(offset) + be32(length);
    assert(m.subrange(1, 5) =~= be32(piece));
    assert(m.subrange(5, 9) =~= be32(offset));
    assert(m.subrange(9, 13) =~= be32(length));
    lemma_be32_roundtrip(piece);
    lemma_be32_roundtrip(offset);
    lemma_be32_roundtrip(length);
}

/// Four big-endian bytes read back as the number they were written from.
pub proof fn lemma_be32_roundtrip(x: u32)
    ensures
        from_be32(be32(x)) == x,
{
    let b = be32(x);
    assert(b[0] == x / 0x100_0000);
    assert(b[1] == (x / 0x1_0000) % 0x100);
    assert(b[2] == (x / 0x100) % 0x100);
    assert(b[3] == x % 0x100);
}

/// A requested block lies within the data when it is not refused.
pub proof fn lemma_block_within(piece: u32, offset: u32, length: u32, piece_length: u64, total_length: u64)
    ensures
        block_range_of(piece, offset, length, piece_length, total_length) matches Some((s, e)) ==> 0 <= s <= e
            <= total_length && e - s == length,
{
    assert(0 <= piece * piece_length) by (nonlinear_arith)
        requires
            0 <= piece,
            0 <= piece_length,
    ;
}

} // verus!
