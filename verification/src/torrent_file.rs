//! The .torrent files of the benchmark's data: the SHA-1 hashes of the
//! pieces, the single-file torrent with its info dictionary, the info hash in
//! hexadecimal, and which data files the scenarios need. Reading the data and
//! the clock is left to the caller, which hands in the bytes and the time.
use vstd::prelude::*;
use crate::bencode::{BDict, BTerm, BValue, bytes_lt, dict_terms, enc, term_of};
use crate::http_auth::{hex_digit, hex_lower};
use crate::mse::sha1_of;
use crate::scenarios::{Scenario, ScenarioView, piece_length_for, views};
use crate::text::push_char;
use vstd::string::StringSliceAdditionalSpecFns;

verus! {

// ----- piece hashes -----

/// The SHA-1 hashes of the pieces of `d`, `piece_length` bytes each (the last
/// one shorter), one after another.
pub open spec fn pieces_of(d: Seq<u8>, piece_length: nat) -> Seq<u8>
    decreases d.len(),
{
    if d.len() == 0 || piece_length == 0 {
        Seq::empty()
    } else if d.len() <= piece_length {
        sha1_of(d)
    } else {
        sha1_of(d.take(piece_length as int)) + pieces_of(d.skip(piece_length as int), piece_length)
    }
}

/// The piece hashes of `data`, read in pieces of `piece_length` bytes.
pub fn piece_hashes(data: &[u8], piece_length: u64) -> (h: Vec<u8>)
    requires
        piece_length > 0,
    ensures
        h@ == pieces_of(data@, piece_length as nat),
{
    let n = data.len();
    let mut out: Vec<u8> = Vec::new();
    let mut i: usize = 0;
    assert(data@.skip(0) =~= data@);
    assert(out@ + pieces_of(data@, piece_length as nat) =~= pieces_of(data@, piece_length as nat));
    while i < n
        invariant
            n == data@.len(),
            0 <= i <= n,
            piece_length > 0,
            out@ + pieces_of(data@.skip(i as int), piece_length as nat) == pieces_of(data@, piece_length as nat),
        decreases n - i,
    {
        let ghost rest = data@.skip(i as int);
        let end: usize = if (n - i) as u64 <= piece_length { n } else { i + piece_length as usize };
        let chunk = vstd::slice::slice_subrange(data, i, end);
        let h = crate::mse::sha1_digest(chunk);
        proof {
            if (n - i) as u64 <= piece_length {
                assert(chunk@ =~= rest);
                assert(data@.skip(end as int) =~= Seq::<u8>::empty());
            } else {
                assert(chunk@ =~= rest.take(piece_length as int));
                assert(rest.skip(piece_length as int) =~= data@.skip(end as int));
            }
        }
        let ghost before = out@;
        let mut k: usize = 0;
        while k < 20
            invariant
                0 <= k <= 20,
                out@ == before + h@.take(k as int),
            decreases 20 - k,
        {
            out.push(h[k]);
            proof {
                assert(h@.take(k + 1) =~= h@.take(k as int).push(h@[k as int]));
            }
            k = k + 1;
        }
        proof {
            assert(h@.take(20) =~= h@);
            assert(out@ + pieces_of(data@.skip(end as int), piece_length as nat) =~= before + pieces_of(rest, piece_length as nat));
        }
        i = end;
    }
    proof {
        assert(data@.skip(n as int) =~= Seq::<u8>::empty());
        assert(out@ + Seq::<u8>::empty() =~= out@);
    }
    out
}

/// Hashing in pieces can be done part by part: when the first part ends on a
/// piece boundary, the hashes of the whole are those of the first part
/// followed by those of the rest.
pub proof fn lemma_pieces_append(a: Seq<u8>, b: Seq<u8>, piece_length: nat)
    requires
        piece_length > 0,
        a.len() % piece_length == 0,
    ensures
        pieces_of(a + b, piece_length) == pieces_of(a, piece_length) + pieces_of(b, piece_length),
    decreases a.len(),
{
    if a.len() == 0 {
        assert(a + b =~= b);
    } else {
        assert(a.len() >= piece_length) by {
            if a.len() < piece_length {
                assert(a.len() % piece_length == a.len()) by (nonlinear_arith)
                    requires
                        0 < a.len() < piece_length,
                ;
            }
        }
        let rest = a.skip(piece_length as int);
        assert((rest.len() as int) % (piece_length as int) == 0) by (nonlinear_arith)
            requires
                rest.len() == a.len() - piece_length,
                a.len() % piece_length == 0,
                piece_length > 0,
                a.len() >= piece_length,
        {
            assert(a.len() == rest.len() + piece_length);
        }
        lemma_pieces_append(rest, b, piece_length);
        assert((a + b).take(piece_length as int) =~= a.take(piece_length as int));
        assert((a + b).skip(piece_length as int) =~= rest + b);
        if a.len() == piece_length {
            assert(rest =~= Seq::<u8>::empty());
            assert(rest + b =~= b);
            if b.len() == 0 {
                assert(a + b =~= a);
                assert(a.take(piece_length as int) =~= a);
            } else {
                assert(a.take(piece_length as int) =~= a);
            }
        }
    }
}

// ----- hexadecimal -----

fn hex_char(v: u8) -> (c: char)
    requires
        v < 16,
    ensures
        c == hex_digit(v),
{
    if v < 10 {
        (48u8 + v) as char
    } else {
        (97u8 + v - 10) as char
    }
}

/// The bytes as lowercase hexadecimal, two digits per byte.
pub fn hex_string(b: &[u8]) -> (s: String)
    ensures
        s@ == hex_lower(b@),
{
    let mut s = String::new();
    let mut i: usize = 0;
    while i < b.len()
        invariant
            0 <= i <= b@.len(),
            s@ == hex_lower(b@.take(i as int)),
        decreases b@.len() - i,
    {
        let x = b[i];
        push_char(&mut s, hex_char(x / 16));
        push_char(&mut s, hex_char(x % 16));
        proof {
            let t = b@.take(i + 1);
            assert(t.take(i as int) =~= b@.take(i as int));
            assert(hex_lower(t) =~= hex_lower(b@.take(i as int)).push(hex_digit(x / 16)).push(hex_digit(x % 16))) by {
                let l = hex_lower(b@.take(i as int));
                assert forall|k: int| 0 <= k < 2 * i implies #[trigger] hex_lower(t)[k] == l[k] by {
                    assert(t[k / 2] == b@.take(i as int)[k / 2]);
                }
                assert(t[i as int] == x);
            }
        }
        i = i + 1;
    }
    assert(b@.take(b@.len() as int) =~= b@);
    s
}

// ----- the torrent -----

/// `length`
pub open spec fn key_length() -> Seq<u8> {
    seq![108u8, 101, 110, 103, 116, 104]
}

/// `name`
pub open spec fn key_name() -> Seq<u8> {
    seq![110u8, 97, 109, 101]
}

/// `piece length`
pub open spec fn key_piece_length() -> Seq<u8> {
    seq![112u8, 105, 101, 99, 101, 32, 108, 101, 110, 103, 116, 104]
}

/// `pieces`
pub open spec fn key_pieces() -> Seq<u8> {
    seq![112u8, 105, 101, 99, 101, 115]
}

/// `announce`
pub open spec fn key_announce() -> Seq<u8> {
    seq![97u8, 110, 110, 111, 117, 110, 99, 101]
}

/// `created by`
pub open spec fn key_created_by() -> Seq<u8> {
    seq![99u8, 114, 101, 97, 116, 101, 100, 32, 98, 121]
}

/// `creation date`
pub open spec fn key_creation_date() -> Seq<u8> {
    seq![99u8, 114, 101, 97, 116, 105, 111, 110, 32, 100, 97, 116, 101]
}

/// `info`
pub open spec fn key_info() -> Seq<u8> {
    seq![105u8, 110, 102, 111]
}

/// `benchv2`, the program named as the torrent's creator.
pub open spec fn creator() -> Seq<u8> {
    seq![98u8, 101, 110, 99, 104, 118, 50]
}

/// The info dictionary of a single-file torrent.
pub open spec fn info_term(name: Seq<u8>, length: int, piece_length: int, pieces: Seq<u8>) -> BTerm {
    BTerm::Dict(
        seq![
            (key_length(), BTerm::Int(length)),
            (key_name(), BTerm::Bytes(name)),
            (key_piece_length(), BTerm::Int(piece_length)),
            (key_pieces(), BTerm::Bytes(pieces)),
        ],
    )
}

/// The torrent: the tracker to announce to, the creator, the creation date
/// (seconds since the epoch) and the info dictionary.
pub open spec fn torrent_term(announce: Seq<u8>, creation_date: int, info: BTerm) -> BTerm {
    BTerm::Dict(
        seq![
            (key_announce(), BTerm::Bytes(announce)),
            (key_created_by(), BTerm::Bytes(creator())),
            (key_creation_date(), BTerm::Int(creation_date)),
            (key_info(), info),
        ],
    )
}

proof fn lemma_key_order()
    ensures
        bytes_lt(key_length(), key_name()),
        bytes_lt(key_length(), key_piece_length()),
        bytes_lt(key_length(), key_pieces()),
        bytes_lt(key_name(), key_piece_length()),
        bytes_lt(key_name(), key_pieces()),
        bytes_lt(key_piece_length(), key_pieces()),
        bytes_lt(key_announce(), key_created_by()),
        bytes_lt(key_announce(), key_creation_date()),
        bytes_lt(key_announce(), key_info()),
        bytes_lt(key_created_by(), key_creation_date()),
        bytes_lt(key_created_by(), key_info()),
        bytes_lt(key_creation_date(), key_info()),
{
    reveal_with_fuel(bytes_lt, 8);
}

fn bytes_vec(b: &[u8]) -> (v: Vec<u8>)
    ensures
        v@ == b@,
{
    let mut v: Vec<u8> = Vec::new();
    let mut i: usize = 0;
    while i < b.len()
        invariant
            0 <= i <= b@.len(),
            v@ == b@.take(i as int),
        decreases b@.len() - i,
    {
        v.push(b[i]);
        proof {
            assert(b@.take(i + 1) =~= b@.take(i as int).push(b@[i as int]));
        }
        i = i + 1;
    }
    assert(b@.take(b@.len() as int) =~= b@);
    v
}

/// Inserts a key above all keys so far.
fn put_last(d: &mut BDict, key: Vec<u8>, value: BValue)
    requires
        forall|i: int| 0 <= i < dict_terms(*old(d)).len() ==> bytes_lt(#[trigger] dict_terms(*old(d))[i].0, key@),
    ensures
        dict_terms(*final(d)) == dict_terms(*old(d)).push((key@, term_of(value))),
{
    proof {
        crate::bencode::lemma_put_at_end(dict_terms(*d), key@, term_of(value));
    }
    d.insert(key, value);
}

/// The .torrent file of a single file named `name` of `file_size` bytes whose
/// piece hashes are `pieces`, announcing to `tracker_url`, created at
/// `creation_date`; with the info hash in lowercase hexadecimal.
pub fn create_torrent(
    name: &[u8],
    file_size: u64,
    pieces: Vec<u8>,
    tracker_url: &str,
    creation_date: i64,
) -> (r: (Vec<u8>, String))
    requires
        file_size <= i64::MAX,
    ensures
        ({
            let info = info_term(name@, file_size as int, piece_length_for(file_size) as int, pieces@);
            &&& r.0@ == enc(torrent_term(tracker_url.spec_bytes(), creation_date as int, info))
            &&& r.1@ == hex_lower(sha1_of(enc(info)))
        }),
{
    let pl = crate::scenarios::piece_length(file_size);
    let ghost info = info_term(name@, file_size as int, pl as int, pieces@);
    proof {
        lemma_key_order();
    }
    let mut d = BDict::new();
    let k_length = vec![108u8, 101, 110, 103, 116, 104];
    let k_name = vec![110u8, 97, 109, 101];
    let k_piece_length = vec![112u8, 105, 101, 99, 101, 32, 108, 101, 110, 103, 116, 104];
    let k_pieces = vec![112u8, 105, 101, 99, 101, 115];
    assert(k_length@ =~= key_length());
    assert(k_name@ =~= key_name());
    assert(k_piece_length@ =~= key_piece_length());
    assert(k_pieces@ =~= key_pieces());
    let name_bytes = bytes_vec(name);
    put_last(&mut d, k_length, BValue::Int(file_size as i64));
    put_last(&mut d, k_name, BValue::Bytes(name_bytes));
    put_last(&mut d, k_piece_length, BValue::Int(pl as i64));
    put_last(&mut d, k_pieces, BValue::Bytes(pieces));
    let info_value = BValue::Dict(d);
    assert(term_of(info_value) == info) by {
        assert(dict_terms(d) =~= seq![
            (key_length(), BTerm::Int(file_size as int)),
            (key_name(), BTerm::Bytes(name@)),
            (key_piece_length(), BTerm::Int(pl as int)),
            (key_pieces(), BTerm::Bytes(pieces@)),
        ]);
    }
    let info_encoded = info_value.encode();
    let hash = crate::mse::sha1_digest(info_encoded.as_slice());
    let hash_hex = hex_string(&hash);
    let mut t = BDict::new();
    let k_announce = vec![97u8, 110, 110, 111, 117, 110, 99, 101];
    let k_created_by = vec![99u8, 114, 101, 97, 116, 101, 100, 32, 98, 121];
    let k_creation_date = vec![99u8, 114, 101, 97, 116, 105, 111, 110, 32, 100, 97, 116, 101];
    let k_info = vec![105u8, 110, 102, 111];
    let who = vec![98u8, 101, 110, 99, 104, 118, 50];
    assert(k_announce@ =~= key_announce());
    assert(k_created_by@ =~= key_created_by());
    assert(k_creation_date@ =~= key_creation_date());
    assert(k_info@ =~= key_info());
    assert(who@ =~= creator());
    let url_bytes = bytes_vec(tracker_url.as_bytes());
    put_last(&mut t, k_announce, BValue::Bytes(url_bytes));
    put_last(&mut t, k_created_by, BValue::Bytes(who));
    put_last(&mut t, k_creation_date, BValue::Int(creation_date));
    put_last(&mut t, k_info, info_value);
    let torrent = BValue::Dict(t);
    assert(term_of(torrent) == torrent_term(tracker_url.spec_bytes(), creation_date as int, info)) by {
        assert(dict_terms(t) =~= seq![
            (key_announce(), BTerm::Bytes(tracker_url.spec_bytes())),
            (key_created_by(), BTerm::Bytes(creator())),
            (key_creation_date(), BTerm::Int(creation_date as int)),
            (key_info(), info),
        ]);
    }
    (torrent.encode(), hash_hex)
}

// ----- the data the scenarios need -----

/// The most files of `size` bytes that any of the scenarios uses.
pub open spec fn max_files(s: Seq<ScenarioView>, size: u64) -> nat
    decreases s.len(),
{
    if s.len() == 0 {
        0
    } else {
        let m = max_files(s.drop_last(), size);
        if s.last().file_size == size && s.last().num_files > m {
            s.last().num_files as nat
        } else {
            m
        }
    }
}

/// Some scenario uses files of `size` bytes.
pub open spec fn uses_size(s: Seq<ScenarioView>, size: u64) -> bool {
    exists|j: int| 0 <= j < s.len() && s[j].file_size == size
}

/// `size` is among the sizes of `r`.
pub open spec fn lists_size(r: Seq<(u64, usize)>, size: u64) -> bool {
    exists|i: int| 0 <= i < r.len() && #[trigger] r[i].0 == size
}

/// The data files the scenarios need: each file size that a scenario uses,
/// once, with the most files of that size that any scenario uses (the sizes
/// in the order they first occur).
pub fn needed_files(scenarios: &[Scenario]) -> (r: Vec<(u64, usize)>)
    ensures
        forall|i: int, j: int| 0 <= i < j < r@.len() ==> r@[i].0 != r@[j].0,
        forall|i: int| 0 <= i < r@.len() ==> uses_size(views(scenarios@), #[trigger] r@[i].0),
        forall|i: int| 0 <= i < r@.len() ==> #[trigger] r@[i].1 == max_files(views(scenarios@), r@[i].0),
        forall|j: int| 0 <= j < scenarios@.len() ==> #[trigger] lists_size(r@, scenarios@[j].file_size),
{
    let ghost all = views(scenarios@);
    let mut r: Vec<(u64, usize)> = Vec::new();
    let mut k: usize = 0;
    while k < scenarios.len()
        invariant
            0 <= k <= scenarios@.len(),
            all == views(scenarios@),
            forall|i: int, j: int| 0 <= i < j < r@.len() ==> r@[i].0 != r@[j].0,
            forall|i: int| 0 <= i < r@.len() ==> uses_size(all.take(k as int), #[trigger] r@[i].0),
            forall|i: int| 0 <= i < r@.len() ==> #[trigger] r@[i].1 == max_files(all.take(k as int), r@[i].0),
            forall|j: int| 0 <= j < k ==> #[trigger] lists_size(r@, scenarios@[j].file_size),
        decreases scenarios@.len() - k,
    {
        let size = scenarios[k].file_size;
        let count = scenarios[k].num_files;
        let ghost pre = all.take(k as int);
        let ghost cur = all.take(k + 1);
        proof {
            assert(cur.drop_last() =~= pre);
            assert(cur.last() == scenarios@[k as int]@);
        }
        let ghost r0 = r@;
        let mut p: usize = 0;
        while p < r.len() && r[p].0 != size
            invariant
                0 <= p <= r@.len(),
                r@ == r0,
                forall|m: int| 0 <= m < p ==> r@[m].0 != size,
            decreases r@.len() - p,
        {
            p = p + 1;
        }
        if p < r.len() {
            let old_count = r[p].1;
            let new_count = if count > old_count { count } else { old_count };
            r.set(p, (size, new_count));
            proof {
                assert forall|i: int| 0 <= i < r@.len() implies uses_size(cur, #[trigger] r@[i].0) by {
                    assert(uses_size(pre, r0[i].0));
                    let j = choose|j: int| 0 <= j < pre.len() && pre[j].file_size == r0[i].0;
                    assert(cur[j] == pre[j]);
                }
                assert forall|i: int| 0 <= i < r@.len() implies #[trigger] r@[i].1 == max_files(cur, r@[i].0) by {
                    assert(r0[i].1 == max_files(pre, r0[i].0));
                }
                assert forall|j: int| 0 <= j < k + 1 implies #[trigger] lists_size(r@, scenarios@[j].file_size) by {
                    if j == k {
                        assert(r@[p as int].0 == size);
                    } else {
                        assert(lists_size(r0, scenarios@[j].file_size));
                        let i = choose|i: int| 0 <= i < r0.len() && #[trigger] r0[i].0 == scenarios@[j].file_size;
                        assert(r@[i].0 == r0[i].0);
                    }
                }
            }
        } else {
            proof {
                assert forall|j: int| 0 <= j < pre.len() implies #[trigger] pre[j].file_size != size by {
                    assert(lists_size(r0, scenarios@[j].file_size));
                    let i = choose|i: int| 0 <= i < r0.len() && #[trigger] r0[i].0 == scenarios@[j].file_size;
                    assert(r0[i].0 != size);
                }
                lemma_max_files_unused(pre, size);
            }
            r.push((size, count));
            proof {
                assert forall|i: int| 0 <= i < r@.len() implies uses_size(cur, #[trigger] r@[i].0) by {
                    if i < r0.len() {
                        assert(uses_size(pre, r0[i].0));
                        let j = choose|j: int| 0 <= j < pre.len() && pre[j].file_size == r0[i].0;
                        assert(cur[j] == pre[j]);
                    } else {
                        assert(cur[k as int].file_size == size);
                    }
                }
                assert forall|i: int| 0 <= i < r@.len() implies #[trigger] r@[i].1 == max_files(cur, r@[i].0) by {
                    if i < r0.len() {
                        assert(r0[i].1 == max_files(pre, r0[i].0));
                        assert(r0[i].0 != size);
                    }
                }
                assert forall|j: int| 0 <= j < k + 1 implies #[trigger] lists_size(r@, scenarios@[j].file_size) by {
                    if j == k {
                        assert(r@[r0.len() as int].0 == size);
                    } else {
                        assert(lists_size(r0, scenarios@[j].file_size));
                        let i = choose|i: int| 0 <= i < r0.len() && #[trigger] r0[i].0 == scenarios@[j].file_size;
                        assert(r@[i].0 == r0[i].0);
                    }
                }
            }
        }
        k = k + 1;
    }
    proof {
        assert(all.take(scenarios@.len() as int) =~= all);
    }
    r
}

proof fn lemma_max_files_unused(s: Seq<ScenarioView>, size: u64)
    requires
        forall|j: int| 0 <= j < s.len() ==> s[j].file_size != size,
    ensures
        max_files(s, size) == 0,
    decreases s.len(),
{
    if s.len() > 0 {
        lemma_max_files_unused(s.drop_last(), size);
    }
}

} // verus!
