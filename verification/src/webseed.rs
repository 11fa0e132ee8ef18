//! Web seeds (BEP 19): fetching pieces over HTTP with Range requests. A web
//! seed is a virtual peer with every piece; this module picks the piece to
//! fetch, plans the Range requests of a piece (one for a single-file torrent,
//! one per file the piece overlaps for a multi-file torrent), sorts the HTTP
//! status of an answer, and decides what the worker does after each fetch.
use vstd::prelude::*;
use crate::scenarios::{append_num, append_str};
use crate::seeder::{is_alnum, upper_hex};
use crate::text::push_char;
use vstd::string::StringSliceAdditionalSpecFns;

verus! {

/// How long one request may take: thirty seconds.
pub const WEBSEED_REQUEST_TIMEOUT_MS: u64 = 30_000;

/// The least time between two requests to one web seed: half a second.
pub const WEBSEED_MIN_INTERVAL_MS: u64 = 500;

/// The pause after a server error or a failed request: thirty seconds.
pub const WEBSEED_ERROR_BACKOFF_MS: u64 = 30_000;

/// The pause after `429 Too Many Requests`: a minute.
pub const WEBSEED_RATE_LIMIT_BACKOFF_MS: u64 = 60_000;

/// The pause when no piece is left to fetch for now: five seconds.
pub const WEBSEED_IDLE_MS: u64 = 5_000;

// ----- which piece -----

/// A piece the web seed should fetch: not had yet, selected, and not being
/// fetched from a peer.
pub open spec fn wanted_piece(have: Seq<bool>, selected: Seq<bool>, inflight: Seq<bool>, i: int) -> bool {
    !have[i] && selected[i] && !inflight[i]
}

/// The first of the `total_pieces` pieces that the web seed should fetch.
pub fn pick_webseed_piece(have: &[bool], selected: &[bool], inflight: &[bool], total_pieces: u32) -> (r: Option<u32>)
    requires
        have@.len() >= total_pieces,
        selected@.len() >= total_pieces,
        inflight@.len() >= total_pieces,
    ensures
        match r {
            Some(i) => i < total_pieces && wanted_piece(have@, selected@, inflight@, i as int) && forall|j: int|
                0 <= j < i ==> !wanted_piece(have@, selected@, inflight@, j),
            None => forall|j: int| 0 <= j < total_pieces ==> !wanted_piece(have@, selected@, inflight@, j),
        },
{
    let mut idx: u32 = 0;
    while idx < total_pieces
        invariant
            0 <= idx <= total_pieces,
            have@.len() >= total_pieces,
            selected@.len() >= total_pieces,
            inflight@.len() >= total_pieces,
            forall|j: int| 0 <= j < idx ==> !wanted_piece(have@, selected@, inflight@, j),
        decreases total_pieces - idx,
    {
        let i = idx as usize;
        if !have[i] && selected[i] && !inflight[i] {
            return Some(idx);
        }
        idx = idx + 1;
    }
    None
}

// ----- Range requests -----

/// A Range request: the URL and the first and last byte wanted.
pub struct RangeRequest {
    pub url: String,
    pub start: u64,
    pub end: u64,
}

/// The text of a Range header: `bytes=<start>-<end>`.
pub open spec fn range_text(start: u64, end: u64) -> Seq<char> {
    "bytes="@ + crate::scenarios::dec(start as nat) + "-"@ + crate::scenarios::dec(end as nat)
}

/// The Range header of a request.
pub fn range_header(start: u64, end: u64) -> (s: String)
    ensures
        s@ == range_text(start, end),
{
    let mut s = String::new();
    append_str(&mut s, "bytes=");
    append_num(&mut s, start);
    append_str(&mut s, "-");
    append_num(&mut s, end);
    proof {
        reveal_strlit("bytes=");
        reveal_strlit("-");
    }
    assert(s@ =~= range_text(start, end));
    s
}

/// The request of a piece of a single-file torrent: the web seed's URL is
/// the file, and the piece is the bytes from its offset on.
pub fn single_file_request(base_url: &str, piece_offset: u64, piece_length: u64) -> (r: RangeRequest)
    requires
        piece_offset + piece_length >= 1,
        piece_offset + piece_length <= u64::MAX,
    ensures
        r.url@ == base_url@,
        r.start == piece_offset,
        r.end == piece_offset + piece_length - 1,
{
    let mut url = String::new();
    append_str(&mut url, base_url);
    assert(url@ =~= base_url@);
    RangeRequest { url, start: piece_offset, end: piece_offset + piece_length - 1 }
}

/// A byte that `urlencoding::encode` keeps as it is: a letter, a digit, `-`,
/// `.`, `_` or `~`.
pub open spec fn is_unreserved(b: u8) -> bool {
    is_alnum(b) || b == 45 || b == 46 || b == 95 || b == 126
}

/// The bytes percent-encoded, every byte but the unreserved ones as `%XX`.
pub open spec fn url_escaped(d: Seq<u8>) -> Seq<char>
    decreases d.len(),
{
    if d.len() == 0 {
        Seq::empty()
    } else {
        let b = d.last();
        url_escaped(d.drop_last()) + if is_unreserved(b) {
            seq![b as char]
        } else {
            seq!['%', upper_hex(b / 16), upper_hex(b % 16)]
        }
    }
}

/// `urlencoding::encode`: the UTF-8 bytes of the text, percent-encoded.
#[verifier::external_body]
fn url_encode(s: &str) -> (r: String)
    ensures
        r@ == url_escaped(s.spec_bytes()),
{
    urlencoding::encode(s).into_owned()
}

/// The text without the slashes at its end.
pub open spec fn without_trailing_slashes(s: Seq<char>) -> Seq<char>
    decreases s.len(),
{
    if s.len() > 0 && s.last() == '/' {
        without_trailing_slashes(s.drop_last())
    } else {
        s
    }
}

/// The path components, each percent-encoded, joined by `/`.
pub open spec fn joined_path(cs: Seq<Seq<char>>) -> Seq<char>
    decreases cs.len(),
{
    if cs.len() == 0 {
        Seq::empty()
    } else if cs.len() == 1 {
        url_escaped(vstd::utf8::encode_utf8(cs[0]))
    } else {
        joined_path(cs.drop_last()) + "/"@ + url_escaped(vstd::utf8::encode_utf8(cs.last()))
    }
}

/// The URL of a file of a multi-file torrent: the web seed's URL, without
/// its trailing slashes, then `/` and the file's path.
pub open spec fn file_url_text(base_url: Seq<char>, components: Seq<Seq<char>>) -> Seq<char> {
    without_trailing_slashes(base_url) + "/"@ + joined_path(components)
}

/// How many times `c` occurs in `s`.
pub open spec fn char_count(s: Seq<char>, c: char) -> nat
    decreases s.len(),
{
    if s.len() == 0 {
        0
    } else {
        char_count(s.drop_last(), c) + if s.last() == c { 1nat } else { 0nat }
    }
}

proof fn lemma_char_count_concat(a: Seq<char>, b: Seq<char>, c: char)
    ensures
        char_count(a + b, c) == char_count(a, c) + char_count(b, c),
    decreases b.len(),
{
    if b.len() == 0 {
        assert(a + b =~= a);
    } else {
        assert((a + b).drop_last() =~= a + b.drop_last());
        lemma_char_count_concat(a, b.drop_last(), c);
    }
}

/// Percent-encoding leaves no `/`: a `/` is not unreserved, so it is escaped,
/// and an escape is `%` and two hex digits.
pub proof fn lemma_escaped_has_no_slash(d: Seq<u8>)
    ensures
        char_count(url_escaped(d), '/') == 0,
    decreases d.len(),
{
    if d.len() > 0 {
        lemma_escaped_has_no_slash(d.drop_last());
        let b = d.last();
        let tail = if is_unreserved(b) {
            seq![b as char]
        } else {
            seq!['%', upper_hex(b / 16), upper_hex(b % 16)]
        };
        lemma_char_count_concat(url_escaped(d.drop_last()), tail, '/');
        reveal_with_fuel(char_count, 4);
        if is_unreserved(b) {
            assert(tail.drop_last() =~= Seq::<char>::empty());
        } else {
            assert(tail.drop_last().drop_last().drop_last() =~= Seq::<char>::empty());
        }
    }
}

/// Joined path components: a path of `n` components holds exactly `n - 1`
/// slashes, one between each pair of consecutive components, as no
/// component's percent-encoding holds one.
pub proof fn lemma_joined_path_separators(cs: Seq<Seq<char>>)
    requires
        cs.len() >= 1,
    ensures
        char_count(joined_path(cs), '/') == cs.len() - 1,
        forall|k: int| 0 <= k < cs.len() ==> char_count(#[trigger] url_escaped(vstd::utf8::encode_utf8(cs[k])), '/') == 0,
    decreases cs.len(),
{
    assert forall|k: int| 0 <= k < cs.len() implies char_count(#[trigger] url_escaped(vstd::utf8::encode_utf8(cs[k])), '/') == 0 by {
        lemma_escaped_has_no_slash(vstd::utf8::encode_utf8(cs[k]));
    }
    if cs.len() > 1 {
        lemma_joined_path_separators(cs.drop_last());
        let last = url_escaped(vstd::utf8::encode_utf8(cs.last()));
        reveal_strlit("/");
        reveal_with_fuel(char_count, 2);
        assert("/"@.drop_last() =~= Seq::<char>::empty());
        lemma_char_count_concat(joined_path(cs.drop_last()), "/"@, '/');
        lemma_char_count_concat(joined_path(cs.drop_last()) + "/"@, last, '/');
    }
}

/// Joined path components, read from the front: the first component's
/// encoding, one `/`, then the rest joined.
pub proof fn lemma_joined_path_front(c: Seq<char>, cs: Seq<Seq<char>>)
    requires
        cs.len() >= 1,
    ensures
        joined_path(seq![c] + cs) == url_escaped(vstd::utf8::encode_utf8(c)) + "/"@ + joined_path(cs),
    decreases cs.len(),
{
    let s = seq![c] + cs;
    assert(s.last() == cs.last());
    let e = url_escaped(vstd::utf8::encode_utf8(c));
    let l = url_escaped(vstd::utf8::encode_utf8(cs.last()));
    assert(joined_path(s) == joined_path(s.drop_last()) + "/"@ + l);
    if cs.len() == 1 {
        assert(s.drop_last() =~= seq![c]);
        assert(seq![c][0] == c);
        assert(joined_path(seq![c]) == e);
        assert(joined_path(cs) == l);
    } else {
        assert(s.drop_last() =~= seq![c] + cs.drop_last());
        lemma_joined_path_front(c, cs.drop_last());
        assert(joined_path(cs) == joined_path(cs.drop_last()) + "/"@ + l);
        assert(e + "/"@ + joined_path(cs.drop_last()) + "/"@ + l =~= e + "/"@ + (joined_path(cs.drop_last()) + "/"@ + l));
    }
}

/// The URL of a file: the web seed's URL without its trailing slashes (it
/// then does not end in `/`, and only slashes were cut from it), exactly one
/// `/`, and the path, whose `n` components are separated by `n - 1` slashes.
pub proof fn lemma_file_url_layout(base_url: Seq<char>, cs: Seq<Seq<char>>)
    requires
        cs.len() >= 1,
    ensures
        ({
            let t = without_trailing_slashes(base_url);
            let u = file_url_text(base_url, cs);
            &&& t.len() == 0 || t.last() != '/'
            &&& t.len() <= base_url.len() && base_url.take(t.len() as int) == t
            &&& forall|j: int| t.len() <= j < base_url.len() ==> base_url[j] == '/'
            &&& u.len() > t.len() && u.take(t.len() as int) == t && u[t.len() as int] == '/'
            &&& char_count(u.skip(t.len() as int + 1), '/') == cs.len() - 1
        }),
{
    lemma_trailing_slashes_cut(base_url);
    lemma_joined_path_separators(cs);
    reveal_strlit("/");
    let t = without_trailing_slashes(base_url);
    let u = file_url_text(base_url, cs);
    assert(u.take(t.len() as int) =~= t);
    assert(u.skip(t.len() as int + 1) =~= joined_path(cs));
}

proof fn lemma_trailing_slashes_cut(s: Seq<char>)
    ensures
        ({
            let t = without_trailing_slashes(s);
            &&& t.len() == 0 || t.last() != '/'
            &&& t.len() <= s.len() && s.take(t.len() as int) == t
            &&& forall|j: int| t.len() <= j < s.len() ==> s[j] == '/'
        }),
    decreases s.len(),
{
    if s.len() > 0 && s.last() == '/' {
        lemma_trailing_slashes_cut(s.drop_last());
        let t = without_trailing_slashes(s);
        assert(t == without_trailing_slashes(s.drop_last()));
        assert(s.take(t.len() as int) =~= s.drop_last().take(t.len() as int));
        assert forall|j: int| t.len() <= j < s.len() implies s[j] == '/' by {
            if j < s.len() - 1 {
                assert(s.drop_last()[j] == s[j]);
            }
        }
    } else {
        assert(s.take(s.len() as int) =~= s);
    }
}

/// The views of path components.
pub open spec fn component_views(cs: Seq<String>) -> Seq<Seq<char>> {
    Seq::new(cs.len(), |k: int| cs[k]@)
}

proof fn lemma_without_trailing_prefix(s: Seq<char>, k: int)
    requires
        0 <= k <= s.len(),
        forall|j: int| k <= j < s.len() ==> s[j] == '/',
        k == 0 || s[k - 1] != '/',
    ensures
        without_trailing_slashes(s) == s.take(k),
    decreases s.len(),
{
    if s.len() > k {
        assert(s.drop_last().take(k) =~= s.take(k));
        lemma_without_trailing_prefix(s.drop_last(), k);
    } else {
        assert(s.take(k) =~= s);
    }
}

/// The URL of a file of a multi-file torrent.
pub fn file_url(base_url: &str, components: &[String]) -> (u: String)
    ensures
        u@ == file_url_text(base_url@, component_views(components@)),
{
    let n = base_url.unicode_len();
    let mut k = n;
    while k > 0 && base_url.get_char(k - 1) == '/'
        invariant
            0 <= k <= n,
            n == base_url@.len(),
            forall|j: int| k <= j < n ==> base_url@[j] == '/',
        decreases k,
    {
        k = k - 1;
    }
    proof {
        lemma_without_trailing_prefix(base_url@, k as int);
    }
    let mut u = String::new();
    let mut i: usize = 0;
    while i < k
        invariant
            0 <= i <= k <= n,
            n == base_url@.len(),
            u@ == base_url@.take(i as int),
        decreases k - i,
    {
        push_char(&mut u, base_url.get_char(i));
        assert(base_url@.take(i + 1) =~= base_url@.take(i as int).push(base_url@[i as int]));
        i = i + 1;
    }
    push_char(&mut u, '/');
    let ghost head = u@;
    let mut c: usize = 0;
    while c < components.len()
        invariant
            0 <= c <= components@.len(),
            u@ == head + joined_path(component_views(components@).take(c as int)),
        decreases components@.len() - c,
    {
        let ghost before = u@;
        let ghost cs = component_views(components@);
        if c > 0 {
            push_char(&mut u, '/');
        }
        let part = url_encode(components[c].as_str());
        append_str(&mut u, part.as_str());
        proof {
            reveal_strlit("/");
            let t = cs.take(c + 1);
            assert(t.drop_last() =~= cs.take(c as int));
            assert(t.last() == components@[c as int]@);
            if c == 0 {
                assert(joined_path(cs.take(0)) =~= Seq::<char>::empty());
            }
            assert(u@ =~= head + joined_path(t));
        }
        c = c + 1;
    }
    proof {
        assert(component_views(components@).take(components@.len() as int) =~= component_views(components@));
        reveal_strlit("/");
    }
    assert(u@ =~= file_url_text(base_url@, component_views(components@)));
    u
}

/// A file of a multi-file torrent: where it starts in the torrent's data,
/// its length, and its path.
pub struct WebSeedFile {
    pub offset: u64,
    pub len: u64,
    pub path: Vec<String>,
}

/// The files lie one after another from the start of the data, and the data
/// fits in a `u64`.
pub open spec fn contiguous(files: Seq<WebSeedFile>) -> bool {
    &&& files.len() > 0 ==> files[0].offset == 0
    &&& forall|k: int| 0 < k < files.len() ==> #[trigger] files[k].offset == files[k - 1].offset + files[k - 1].len
    &&& forall|k: int| 0 <= k < files.len() ==> #[trigger] files[k].offset + files[k].len <= u64::MAX
}

pub open spec fn larger(a: int, b: int) -> int {
    if a >= b { a } else { b }
}

pub open spec fn smaller(a: int, b: int) -> int {
    if a <= b { a } else { b }
}

proof fn lemma_offsets_grow(files: Seq<WebSeedFile>, k: int, j: int)
    requires
        contiguous(files),
        0 <= k <= j < files.len(),
    ensures
        files[k].offset <= files[j].offset,
    decreases j - k,
{
    if k < j {
        lemma_offsets_grow(files, k, j - 1);
        assert(files[j].offset == files[j - 1].offset + files[j - 1].len);
    }
}

/// The piece `[lo, hi)` and the file have bytes in common.
pub open spec fn overlaps(f: WebSeedFile, lo: int, hi: int) -> bool {
    larger(lo, f.offset as int) < smaller(hi, f.offset + f.len)
}

/// The parts of the piece `[lo, hi)` in each file it overlaps, in file order:
/// the file's index and the first and last byte of the part within the file.
pub open spec fn file_segments(files: Seq<WebSeedFile>, lo: int, hi: int) -> Seq<(int, int, int)>
    decreases files.len(),
{
    if files.len() == 0 {
        Seq::empty()
    } else {
        let r = file_segments(files.drop_last(), lo, hi);
        let k = files.len() - 1;
        let f = files.last();
        if overlaps(f, lo, hi) {
            r.push((k, larger(lo, f.offset as int) - f.offset, smaller(hi, f.offset + f.len) - f.offset - 1))
        } else {
            r
        }
    }
}

proof fn lemma_segments_prefix(files: Seq<WebSeedFile>, k: int, lo: int, hi: int)
    requires
        0 <= k < files.len(),
    ensures
        file_segments(files.take(k + 1), lo, hi) == if overlaps(files[k], lo, hi) {
            file_segments(files.take(k), lo, hi).push(
                (k, larger(lo, files[k].offset as int) - files[k].offset, smaller(hi, files[k].offset + files[k].len) - files[k].offset - 1),
            )
        } else {
            file_segments(files.take(k), lo, hi)
        },
{
    assert(files.take(k + 1).drop_last() =~= files.take(k));
}

/// The requests of a piece of a multi-file torrent: for each file the piece
/// overlaps, in order, the part of the piece in it, from the file's URL.
#[verifier::rlimit(40)]
pub fn multi_file_requests(base_url: &str, files: &[WebSeedFile], piece_offset: u64, piece_length: u64) -> (r: Vec<
    RangeRequest,
>)
    requires
        contiguous(files@),
        piece_offset + piece_length <= u64::MAX,
    ensures
        ({
            let segs = file_segments(files@, piece_offset as int, piece_offset + piece_length);
            &&& r@.len() == segs.len()
            &&& forall|i: int|
                0 <= i < r@.len() ==> {
                    let s = #[trigger] segs[i];
                    &&& 0 <= s.0 < files@.len()
                    &&& r@[i].url@ == file_url_text(base_url@, component_views(files@[s.0].path@))
                    &&& r@[i].start == s.1
                    &&& r@[i].end == s.2
                }
        }),
{
    let ghost lo = piece_offset as int;
    let ghost hi = piece_offset + piece_length;
    let ghost fs = files@;
    let mut out: Vec<RangeRequest> = Vec::new();
    let mut remaining = piece_length;
    let mut abs_offset = piece_offset;
    let mut k: usize = 0;
    let mut done = false;
    while k < files.len()
        invariant
            0 <= k <= fs.len(),
            fs == files@,
            contiguous(fs),
            lo == piece_offset,
            hi == piece_offset + piece_length,
            hi <= u64::MAX,
            !done ==> k < fs.len() ==> abs_offset == larger(lo, smaller(hi, fs[k as int].offset as int)),
            !done ==> k > 0 ==> abs_offset == larger(lo, smaller(hi, fs[k - 1].offset + fs[k - 1].len)),
            !done ==> k == 0 ==> abs_offset == lo,
            !done ==> remaining == hi - abs_offset,
            done ==> abs_offset == hi && remaining == 0 && k == fs.len(),
            lo <= abs_offset <= hi,
            out@.len() == file_segments(fs.take(k as int), lo, hi).len(),
            forall|i: int|
                0 <= i < out@.len() ==> {
                    let s = #[trigger] file_segments(fs.take(k as int), lo, hi)[i];
                    &&& 0 <= s.0 < fs.len()
                    &&& out@[i].url@ == file_url_text(base_url@, component_views(fs[s.0].path@))
                    &&& out@[i].start == s.1
                    &&& out@[i].end == s.2
                },
        decreases fs.len() - k,
    {
        let f = &files[k];
        proof {
            lemma_segments_prefix(fs, k as int, lo, hi);
            if k > 0 {
                assert(fs[k as int].offset == fs[k - 1].offset + fs[k - 1].len);
            } else {
                assert(fs[0].offset == 0);
            }
            assert(fs[k as int].offset + fs[k as int].len <= u64::MAX);
        }
        if abs_offset >= f.offset + f.len {
            proof {
                assert(!overlaps(fs[k as int], lo, hi));
            }
            k = k + 1;
        } else if remaining == 0 {
            proof {
                assert forall|j: int| k <= j < fs.len() implies !overlaps(fs[j], lo, hi) by {
                    lemma_offsets_grow(fs, k as int, j);
                }
                lemma_segments_none_after(fs, k as int, lo, hi);
                assert(fs.take(fs.len() as int) =~= fs);
            }
            done = true;
            k = files.len();
        } else {
            let file_start = if abs_offset > f.offset { abs_offset - f.offset } else { 0 };
            let available_in_file = f.len - file_start;
            let to_read = if remaining < available_in_file { remaining } else { available_in_file };
            let range_end = file_start + to_read - 1;
            let url = file_url(base_url, f.path.as_slice());
            proof {
                assert(overlaps(fs[k as int], lo, hi));
                assert(file_start == larger(lo, fs[k as int].offset as int) - fs[k as int].offset);
                assert(range_end == smaller(hi, fs[k as int].offset + fs[k as int].len) - fs[k as int].offset - 1);
            }
            out.push(RangeRequest { url, start: file_start, end: range_end });
            remaining = remaining - to_read;
            abs_offset = abs_offset + to_read;
            proof {
                let t = file_segments(fs.take(k + 1), lo, hi);
                assert forall|i: int| 0 <= i < out@.len() implies {
                    let s = #[trigger] t[i];
                    &&& 0 <= s.0 < fs.len()
                    &&& out@[i].url@ == file_url_text(base_url@, component_views(fs[s.0].path@))
                    &&& out@[i].start == s.1
                    &&& out@[i].end == s.2
                } by {
                    if i < out@.len() - 1 {
                        assert(t[i] == file_segments(fs.take(k as int), lo, hi)[i]);
                    }
                }
            }
            k = k + 1;
        }
    }
    proof {
        assert(fs.take(fs.len() as int) =~= fs);
    }
    out
}

proof fn lemma_segments_none_after(files: Seq<WebSeedFile>, k: int, lo: int, hi: int)
    requires
        0 <= k <= files.len(),
        forall|j: int| k <= j < files.len() ==> !overlaps(files[j], lo, hi),
    ensures
        file_segments(files, lo, hi) == file_segments(files.take(k), lo, hi),
    decreases files.len() - k,
{
    if k < files.len() {
        lemma_segments_prefix(files, files.len() - 1, lo, hi);
        assert(files.take(files.len() - 1 + 1) =~= files);
        let d = files.drop_last();
        assert forall|j: int| k <= j < d.len() implies !overlaps(d[j], lo, hi) by {
            assert(d[j] == files[j]);
        }
        lemma_segments_none_after(d, k, lo, hi);
        assert(d.take(k) =~= files.take(k));
        assert(files.take(files.len() - 1) =~= d);
    } else {
        assert(files.take(k) =~= files);
    }
}

/// Where the data of the files ends.
pub open spec fn data_end(files: Seq<WebSeedFile>) -> int {
    if files.len() == 0 {
        0
    } else {
        files.last().offset + files.last().len
    }
}

/// How many bytes the parts cover.
pub open spec fn segments_total(segs: Seq<(int, int, int)>) -> int
    decreases segs.len(),
{
    if segs.len() == 0 {
        0
    } else {
        segments_total(segs.drop_last()) + (segs.last().2 - segs.last().1 + 1)
    }
}

/// The parts of a piece in the files it overlaps are the whole piece, as
/// far as the data goes: together they cover every byte of `[lo, hi)` that
/// lies within the files, once.
pub proof fn lemma_segments_cover(files: Seq<WebSeedFile>, lo: int, hi: int)
    requires
        contiguous(files),
        0 <= lo <= hi,
    ensures
        segments_total(file_segments(files, lo, hi)) == smaller(hi, data_end(files)) - smaller(lo, data_end(files)),
    decreases files.len(),
{
    if files.len() > 0 {
        let d = files.drop_last();
        assert(contiguous(d)) by {
            assert forall|k: int| 0 < k < d.len() implies #[trigger] d[k].offset == d[k - 1].offset + d[k - 1].len by {
                assert(d[k] == files[k]);
                assert(d[k - 1] == files[k - 1]);
            }
            assert forall|k: int| 0 <= k < d.len() implies #[trigger] d[k].offset + d[k].len <= u64::MAX by {
                assert(d[k] == files[k]);
            }
        }
        lemma_segments_cover(d, lo, hi);
        let f = files.last();
        assert(data_end(d) == f.offset) by {
            if files.len() > 1 {
                assert(files[files.len() - 1].offset == files[files.len() - 2].offset + files[files.len() - 2].len);
            }
        }
        let segs = file_segments(files, lo, hi);
        if overlaps(f, lo, hi) {
            assert(segs.drop_last() == file_segments(d, lo, hi));
        }
    }
}

// ----- answers -----

/// Why fetching from a web seed failed.
#[derive(Debug, Clone, Copy, PartialEq, Eq, Structural)]
pub enum WebSeedFetchError {
    /// `404 Not Found`: the web seed does not have the file.
    NotFound,
    /// `429 Too Many Requests`.
    RateLimited,
    /// A `5xx` status.
    ServerError(u16),
    /// Another status that is not a success.
    UnexpectedStatus(u16),
    /// The request itself failed (connection, timeout, body).
    RequestFailed,
}

/// How an HTTP status is taken: `2xx` is success (`206 Partial Content`
/// among them), `404` and `429` have their own errors, `5xx` is a server
/// error, anything else unexpected.
pub open spec fn status_outcome(status: u16) -> Result<(), WebSeedFetchError> {
    if 200 <= status <= 299 {
        Ok(())
    } else if status == 404 {
        Err(WebSeedFetchError::NotFound)
    } else if status == 429 {
        Err(WebSeedFetchError::RateLimited)
    } else if 500 <= status <= 599 {
        Err(WebSeedFetchError::ServerError(status))
    } else {
        Err(WebSeedFetchError::UnexpectedStatus(status))
    }
}

/// Whether the status of an answer lets its body be used.
pub fn check_response_status(status: u16) -> (r: Result<(), WebSeedFetchError>)
    ensures
        r == status_outcome(status),
{
    if 200 <= status && status <= 299 {
        Ok(())
    } else if status == 404 {
        Err(WebSeedFetchError::NotFound)
    } else if status == 429 {
        Err(WebSeedFetchError::RateLimited)
    } else if 500 <= status && status <= 599 {
        Err(WebSeedFetchError::ServerError(status))
    } else {
        Err(WebSeedFetchError::UnexpectedStatus(status))
    }
}

/// What a fetch of a piece came to: the data was written and its hash
/// checked, or the fetch failed.
#[derive(Debug, Clone, Copy, PartialEq, Eq, Structural)]
pub enum FetchOutcome {
    Checked { hash_ok: bool },
    Failed(WebSeedFetchError),
}

/// What the worker does next.
#[derive(Debug, Clone, Copy, PartialEq, Eq, Structural)]
pub enum WorkerStep {
    /// Mark the piece as had, count its bytes, and tell the peers; then wait
    /// the least interval.
    PieceVerified,
    /// Mark the piece's hash as failed, so that it is fetched again; then
    /// wait the least interval.
    PieceFailed,
    /// Stop this web seed for good.
    Stop,
    /// Wait this long, then the least interval.
    Backoff { ms: u64 },
}

/// The worker's decision after a fetch.
pub open spec fn step_after(outcome: FetchOutcome) -> WorkerStep {
    match outcome {
        FetchOutcome::Checked { hash_ok } => if hash_ok {
            WorkerStep::PieceVerified
        } else {
            WorkerStep::PieceFailed
        },
        FetchOutcome::Failed(WebSeedFetchError::NotFound) => WorkerStep::Stop,
        FetchOutcome::Failed(WebSeedFetchError::RateLimited) => WorkerStep::Backoff { ms: WEBSEED_RATE_LIMIT_BACKOFF_MS },
        FetchOutcome::Failed(_) => WorkerStep::Backoff { ms: WEBSEED_ERROR_BACKOFF_MS },
    }
}

/// What the worker does after fetching a piece.
pub fn worker_step(outcome: FetchOutcome) -> (s: WorkerStep)
    ensures
        s == step_after(outcome),
{
    match outcome {
        FetchOutcome::Checked { hash_ok } => if hash_ok {
            WorkerStep::PieceVerified
        } else {
            WorkerStep::PieceFailed
        },
        FetchOutcome::Failed(WebSeedFetchError::NotFound) => WorkerStep::Stop,
        FetchOutcome::Failed(WebSeedFetchError::RateLimited) => WorkerStep::Backoff { ms: WEBSEED_RATE_LIMIT_BACKOFF_MS },
        FetchOutcome::Failed(_) => WorkerStep::Backoff { ms: WEBSEED_ERROR_BACKOFF_MS },
    }
}

/// The web seeds to start: none for a private torrent, else all of them.
pub fn webseeds_to_start(private: bool, urls: &[String]) -> (r: Vec<String>)
    ensures
        private ==> r@.len() == 0,
        !private ==> r@.len() == urls@.len() && forall|i: int| 0 <= i < urls@.len() ==> #[trigger] r@[i]@ == urls@[i]@,
{
    let mut r: Vec<String> = Vec::new();
    if private {
        return r;
    }
    let mut i: usize = 0;
    while i < urls.len()
        invariant
            0 <= i <= urls@.len(),
            r@.len() == i,
            forall|j: int| 0 <= j < i ==> #[trigger] r@[j]@ == urls@[j]@,
        decreases urls@.len() - i,
    {
        let mut u = String::new();
        append_str(&mut u, urls[i].as_str());
        assert(u@ =~= urls@[i as int]@);
        r.push(u);
        i = i + 1;
    }
    r
}

} // verus!
