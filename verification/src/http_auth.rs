//! Authentication of the HTTP API: the constant-time comparison of
//! credentials, and the store of access and refresh tokens with their
//! expiry times. Time is passed in as milliseconds on a monotonic clock.
use vstd::prelude::*;
use vstd::string::StringSliceAdditionalSpecFns;
use crate::text::str_eq;

verus! {

/// Compares two byte strings in time that depends only on their lengths.
pub fn constant_time_eq(a: &[u8], b: &[u8]) -> (r: bool)
    ensures
        r == (a@ == b@),
{
    if a.len() != b.len() {
        return false;
    }
    let mut acc: u8 = 0;
    let mut i: usize = 0;
    while i < a.len()
        invariant
            0 <= i <= a@.len(),
            a@.len() == b@.len(),
            (acc == 0) == (forall|k: int| 0 <= k < i ==> a@[k] == b@[k]),
        decreases a@.len() - i,
    {
        let x = a[i];
        let y = b[i];
        let next = acc | (x ^ y);
        assert((next == 0) == (acc == 0 && x == y)) by (bit_vector)
            requires
                next == acc | (x ^ y),
        ;
        acc = next;
        i = i + 1;
    }
    assert((acc == 0) ==> a@ =~= b@);
    acc == 0
}

/// How long an access token lives, in milliseconds (15 minutes).
pub const ACCESS_TOKEN_TTL_MS: u64 = 15 * 60 * 1000;

/// How long a refresh token lives, in milliseconds (30 days).
pub const REFRESH_TOKEN_TTL_MS: u64 = 30 * 24 * 60 * 60 * 1000;

/// What `create_tokens` hands out.
pub struct TokenResponse {
    pub access_token: String,
    pub refresh_token: String,
    pub token_type: &'static str,
    pub expires_in: u64,
}

/// A login request.
pub struct LoginRequest {
    pub username: String,
    pub password: String,
}

/// A request for new tokens.
pub struct RefreshRequest {
    pub refresh_token: String,
}

/// A request to revoke a refresh token.
pub struct LogoutRequest {
    pub refresh_token: String,
}

/// The lowercase hexadecimal digit of a value below 16.
pub open spec fn hex_digit(v: u8) -> char {
    if v < 10 {
        (('0' as u8) + v) as char
    } else {
        (('a' as u8) + v - 10) as char
    }
}

/// Bytes as lowercase hexadecimal, two digits per byte, high half first.
pub open spec fn hex_lower(b: Seq<u8>) -> Seq<char> {
    Seq::new(
        2 * b.len(),
        |k: int| if k % 2 == 0 { hex_digit(b[k / 2] / 16) } else { hex_digit(b[k / 2] % 16) },
    )
}

/// `hex::encode`: the bytes as lowercase hexadecimal.
#[verifier::external_body]
fn hex_encode(data: &[u8]) -> (s: String)
    ensures
        s@ == hex_lower(data@),
{
    hex::encode(data)
}

/// 32 random bytes (`rand::random`). Nothing is promised of their values.
#[verifier::external_body]
fn random_bytes32() -> [u8; 32] {
    rand::random::<[u8; 32]>()
}

/// A fresh random token: 32 random bytes as 64 lowercase hex digits.
pub fn generate_token() -> (t: String)
    ensures
        t@.len() == 64,
        exists|b: Seq<u8>| b.len() == 32 && t@ == hex_lower(b),
{
    let bytes = random_bytes32();
    let t = hex_encode(bytes.as_slice());
    assert(bytes@.len() == 32 && t@ == hex_lower(bytes@));
    t
}

/// A token and the time it expires at.
struct TokenEntry {
    token: String,
    expires_at: u64,
}

/// The tokens of a list as a map to their expiry times.
pub open spec fn as_map(s: Seq<(Seq<char>, u64)>) -> Map<Seq<char>, u64> {
    Map::new(
        |k: Seq<char>| exists|i: int| 0 <= i < s.len() && s[i].0 == k,
        |k: Seq<char>| s[choose|i: int| 0 <= i < s.len() && s[i].0 == k].1,
    )
}

/// No token occurs twice.
pub open spec fn keys_distinct(s: Seq<(Seq<char>, u64)>) -> bool {
    forall|i: int, j: int| 0 <= i < s.len() && 0 <= j < s.len() && i != j ==> s[i].0 != s[j].0
}

spec fn entry_views(v: Seq<TokenEntry>) -> Seq<(Seq<char>, u64)> {
    Seq::new(v.len(), |k: int| (v[k].token@, v[k].expires_at))
}

proof fn lemma_map_lookup(s: Seq<(Seq<char>, u64)>, i: int)
    requires
        keys_distinct(s),
        0 <= i < s.len(),
    ensures
        as_map(s).contains_key(s[i].0),
        as_map(s)[s[i].0] == s[i].1,
{
    let k = s[i].0;
    assert(exists|j: int| 0 <= j < s.len() && s[j].0 == k);
    let j = choose|j: int| 0 <= j < s.len() && s[j].0 == k;
    assert(j == i);
}

proof fn lemma_map_update(s: Seq<(Seq<char>, u64)>, i: int, e: u64)
    requires
        keys_distinct(s),
        0 <= i < s.len(),
    ensures
        keys_distinct(s.update(i, (s[i].0, e))),
        as_map(s.update(i, (s[i].0, e))) == as_map(s).insert(s[i].0, e),
{
    let t = s.update(i, (s[i].0, e));
    assert forall|k: Seq<char>| #[trigger] as_map(t).contains_key(k) == as_map(s).insert(s[i].0, e).contains_key(k) by {
        if as_map(t).contains_key(k) {
            let j = choose|j: int| 0 <= j < t.len() && t[j].0 == k;
            assert(s[j].0 == k);
        }
        if as_map(s).contains_key(k) {
            let j = choose|j: int| 0 <= j < s.len() && s[j].0 == k;
            assert(t[j].0 == k);
        }
    }
    assert forall|k: Seq<char>| #[trigger] as_map(t).contains_key(k) implies as_map(t)[k] == as_map(s).insert(s[i].0, e)[k] by {
        let j = choose|j: int| 0 <= j < t.len() && t[j].0 == k;
        lemma_map_lookup(t, j);
        if j != i {
            lemma_map_lookup(s, j);
        }
    }
    assert(as_map(t) =~= as_map(s).insert(s[i].0, e));
}

proof fn lemma_map_push(s: Seq<(Seq<char>, u64)>, k0: Seq<char>, e: u64)
    requires
        keys_distinct(s),
        !as_map(s).contains_key(k0),
    ensures
        keys_distinct(s.push((k0, e))),
        as_map(s.push((k0, e))) == as_map(s).insert(k0, e),
{
    let t = s.push((k0, e));
    assert forall|i: int| 0 <= i < s.len() implies s[i].0 != k0 by {
        if s[i].0 == k0 {
            assert(as_map(s).contains_key(k0));
        }
    }
    assert forall|k: Seq<char>| #[trigger] as_map(t).contains_key(k) == as_map(s).insert(k0, e).contains_key(k) by {
        if as_map(t).contains_key(k) && k != k0 {
            let j = choose|j: int| 0 <= j < t.len() && t[j].0 == k;
            assert(s[j].0 == k);
        }
        if as_map(s).contains_key(k) {
            let j = choose|j: int| 0 <= j < s.len() && s[j].0 == k;
            assert(t[j].0 == k);
        }
        if k == k0 {
            assert(t[s.len() as int].0 == k);
        }
    }
    assert forall|k: Seq<char>| #[trigger] as_map(t).contains_key(k) implies as_map(t)[k] == as_map(s).insert(k0, e)[k] by {
        let j = choose|j: int| 0 <= j < t.len() && t[j].0 == k;
        lemma_map_lookup(t, j);
        if j < s.len() {
            lemma_map_lookup(s, j);
        }
    }
    assert(as_map(t) =~= as_map(s).insert(k0, e));
}

proof fn lemma_map_remove(s: Seq<(Seq<char>, u64)>, i: int)
    requires
        keys_distinct(s),
        0 <= i < s.len(),
    ensures
        keys_distinct(s.remove(i)),
        as_map(s.remove(i)) == as_map(s).remove(s[i].0),
{
    let t = s.remove(i);
    let k0 = s[i].0;
    assert forall|a: int, b: int| 0 <= a < t.len() && 0 <= b < t.len() && a != b implies t[a].0 != t[b].0 by {
        let sa = if a < i { a } else { a + 1 };
        let sb = if b < i { b } else { b + 1 };
        assert(t[a] == s[sa] && t[b] == s[sb]);
    }
    assert forall|k: Seq<char>| #[trigger] as_map(t).contains_key(k) == as_map(s).remove(k0).contains_key(k) by {
        if as_map(t).contains_key(k) {
            let j = choose|j: int| 0 <= j < t.len() && t[j].0 == k;
            let sj = if j < i { j } else { j + 1 };
            assert(s[sj].0 == k);
            assert(sj != i);
        }
        if as_map(s).contains_key(k) && k != k0 {
            let j = choose|j: int| 0 <= j < s.len() && s[j].0 == k;
            assert(j != i);
            let tj = if j < i { j } else { j - 1 };
            assert(t[tj].0 == k);
        }
    }
    assert forall|k: Seq<char>| #[trigger] as_map(t).contains_key(k) implies as_map(t)[k] == as_map(s).remove(k0)[k] by {
        let j = choose|j: int| 0 <= j < t.len() && t[j].0 == k;
        lemma_map_lookup(t, j);
        let sj = if j < i { j } else { j + 1 };
        assert(s[sj] == t[j]);
        lemma_map_lookup(s, sj);
    }
    assert(as_map(t) =~= as_map(s).remove(k0));
}

/// Where `token` is in `v`, if it is.
fn index_of(v: &Vec<TokenEntry>, token: &str) -> (r: Option<usize>)
    ensures
        match r {
            Some(i) => i < v@.len() && entry_views(v@)[i as int].0 == token@,
            None => forall|i: int| 0 <= i < v@.len() ==> entry_views(v@)[i].0 != token@,
        },
{
    let mut i: usize = 0;
    while i < v.len()
        invariant
            0 <= i <= v@.len(),
            forall|j: int| 0 <= j < i ==> entry_views(v@)[j].0 != token@,
        decreases v@.len() - i,
    {
        if str_eq(v[i].token.as_str(), token) {
            return Some(i);
        }
        i = i + 1;
    }
    None
}

proof fn lemma_absent(s: Seq<(Seq<char>, u64)>, k: Seq<char>)
    requires
        forall|i: int| 0 <= i < s.len() ==> s[i].0 != k,
    ensures
        !as_map(s).contains_key(k),
{
}

/// Sets the expiry of `token`, adding it if absent.
fn set_expiry(v: &mut Vec<TokenEntry>, token: String, expires_at: u64)
    requires
        keys_distinct(entry_views(old(v)@)),
    ensures
        keys_distinct(entry_views(final(v)@)),
        as_map(entry_views(final(v)@)) == as_map(entry_views(old(v)@)).insert(token@, expires_at),
{
    let ghost s = entry_views(v@);
    match index_of(v, token.as_str()) {
        Some(i) => {
            proof {
                lemma_map_update(s, i as int, expires_at);
            }
            v.set(i, TokenEntry { token, expires_at });
            assert(entry_views(v@) =~= s.update(i as int, (s[i as int].0, expires_at)));
        },
        None => {
            proof {
                lemma_absent(s, token@);
                lemma_map_push(s, token@, expires_at);
            }
            let ghost k = token@;
            v.push(TokenEntry { token, expires_at });
            assert(entry_views(v@) =~= s.push((k, expires_at)));
        },
    }
}

/// Removes `token` if present.
fn remove_token(v: &mut Vec<TokenEntry>, token: &str)
    requires
        keys_distinct(entry_views(old(v)@)),
    ensures
        keys_distinct(entry_views(final(v)@)),
        as_map(entry_views(final(v)@)) == as_map(entry_views(old(v)@)).remove(token@),
{
    let ghost s = entry_views(v@);
    match index_of(v, token) {
        Some(i) => {
            proof {
                lemma_map_remove(s, i as int);
            }
            v.remove(i);
            assert(entry_views(v@) =~= s.remove(i as int));
        },
        None => {
            proof {
                lemma_absent(s, token@);
            }
            assert(as_map(s) =~= as_map(s).remove(token@));
        },
    }
}

/// The entries of `m` that expire after `now`.
pub open spec fn unexpired(m: Map<Seq<char>, u64>, now: u64) -> Map<Seq<char>, u64> {
    m.restrict(m.dom().filter(|k: Seq<char>| m[k] > now))
}

/// The entries of `s` that expire after `now`, in order.
pub open spec fn kept(s: Seq<(Seq<char>, u64)>, now: u64) -> Seq<(Seq<char>, u64)>
    decreases s.len(),
{
    if s.len() == 0 {
        s
    } else {
        let r = kept(s.drop_last(), now);
        if s.last().1 > now {
            r.push(s.last())
        } else {
            r
        }
    }
}

proof fn lemma_kept(s: Seq<(Seq<char>, u64)>, now: u64)
    requires
        keys_distinct(s),
    ensures
        keys_distinct(kept(s, now)),
        as_map(kept(s, now)) == unexpired(as_map(s), now),
    decreases s.len(),
{
    if s.len() == 0 {
        assert(as_map(s) =~= Map::<Seq<char>, u64>::empty());
        assert(as_map(kept(s, now)) =~= unexpired(as_map(s), now));
    } else {
        let p = s.drop_last();
        let x = s.last();
        assert(keys_distinct(p));
        lemma_kept(p, now);
        assert(s =~= p.push(x));
        assert forall|i: int| 0 <= i < p.len() implies p[i].0 != x.0 by {
            assert(s[i].0 != s[s.len() - 1].0);
        }
        lemma_absent(p, x.0);
        lemma_map_push(p, x.0, x.1);
        if x.1 > now {
            assert(!as_map(kept(p, now)).contains_key(x.0));
            lemma_map_push(kept(p, now), x.0, x.1);
            assert(unexpired(as_map(p).insert(x.0, x.1), now) =~= unexpired(as_map(p), now).insert(x.0, x.1));
        } else {
            assert(unexpired(as_map(p).insert(x.0, x.1), now) =~= unexpired(as_map(p), now));
        }
    }
}

/// Keeps the entries that expire after `now`.
fn retain_unexpired(v: &mut Vec<TokenEntry>, now: u64)
    requires
        keys_distinct(entry_views(old(v)@)),
    ensures
        keys_distinct(entry_views(final(v)@)),
        as_map(entry_views(final(v)@)) == unexpired(as_map(entry_views(old(v)@)), now),
{
    let ghost s = entry_views(v@);
    let mut out: Vec<TokenEntry> = Vec::new();
    let mut i: usize = 0;
    while i < v.len()
        invariant
            0 <= i <= v@.len(),
            s == entry_views(v@),
            entry_views(out@) == kept(s.take(i as int), now),
        decreases v@.len() - i,
    {
        let ghost before = entry_views(out@);
        proof {
            assert(s.take(i + 1).drop_last() =~= s.take(i as int));
            assert(s.take(i + 1).last() == s[i as int]);
        }
        if v[i].expires_at > now {
            out.push(TokenEntry { token: v[i].token.clone(), expires_at: v[i].expires_at });
            assert(entry_views(out@) =~= before.push(s[i as int]));
        }
        i = i + 1;
    }
    proof {
        assert(s.take(i as int) =~= s);
        lemma_kept(s, now);
    }
    *v = out;
}

/// The token store's contents: each token with the time it expires at.
pub struct TokenStoreView {
    pub access: Map<Seq<char>, u64>,
    pub refresh: Map<Seq<char>, u64>,
}

/// The access and refresh tokens handed out, with their expiry times.
pub struct TokenStore {
    access_tokens: Vec<TokenEntry>,
    refresh_tokens: Vec<TokenEntry>,
}

impl View for TokenStore {
    type V = TokenStoreView;

    closed spec fn view(&self) -> TokenStoreView {
        TokenStoreView {
            access: as_map(entry_views(self.access_tokens@)),
            refresh: as_map(entry_views(self.refresh_tokens@)),
        }
    }
}

/// A token is valid while its expiry lies after now.
pub open spec fn is_valid(m: Map<Seq<char>, u64>, token: Seq<char>, now: u64) -> bool {
    m.contains_key(token) && m[token] > now
}

impl TokenStore {
    /// No token occurs twice in a list.
    pub closed spec fn wf(&self) -> bool {
        keys_distinct(entry_views(self.access_tokens@)) && keys_distinct(entry_views(self.refresh_tokens@))
    }

    /// An empty store.
    pub fn new() -> (s: TokenStore)
        ensures
            s.wf(),
            s@.access == Map::<Seq<char>, u64>::empty(),
            s@.refresh == Map::<Seq<char>, u64>::empty(),
    {
        let s = TokenStore { access_tokens: Vec::new(), refresh_tokens: Vec::new() };
        assert(s@.access =~= Map::<Seq<char>, u64>::empty());
        assert(s@.refresh =~= Map::<Seq<char>, u64>::empty());
        s
    }

    /// Hands out a fresh access token, valid for 15 minutes, and a fresh
    /// refresh token, valid for 30 days.
    pub fn create_tokens(&mut self, now: u64) -> (r: TokenResponse)
        requires
            old(self).wf(),
            now <= u64::MAX - REFRESH_TOKEN_TTL_MS,
        ensures
            final(self).wf(),
            final(self)@.access == old(self)@.access.insert(r.access_token@, (now + ACCESS_TOKEN_TTL_MS) as u64),
            final(self)@.refresh == old(self)@.refresh.insert(r.refresh_token@, (now + REFRESH_TOKEN_TTL_MS) as u64),
            r.token_type@ == "Bearer"@,
            r.expires_in == ACCESS_TOKEN_TTL_MS / 1000,
            r.access_token@.len() == 64,
            r.refresh_token@.len() == 64,
            exists|b: Seq<u8>| b.len() == 32 && r.access_token@ == hex_lower(b),
            exists|b: Seq<u8>| b.len() == 32 && r.refresh_token@ == hex_lower(b),
    {
        let access_token = generate_token();
        let refresh_token = generate_token();
        let r = TokenResponse {
            access_token: access_token.clone(),
            refresh_token: refresh_token.clone(),
            token_type: "Bearer",
            expires_in: ACCESS_TOKEN_TTL_MS / 1000,
        };
        set_expiry(&mut self.access_tokens, access_token, now + ACCESS_TOKEN_TTL_MS);
        set_expiry(&mut self.refresh_tokens, refresh_token, now + REFRESH_TOKEN_TTL_MS);
        r
    }

    /// Whether `token` is an access token that has not expired at `now`.
    pub fn validate_access_token(&self, token: &str, now: u64) -> (b: bool)
        requires
            self.wf(),
        ensures
            b == is_valid(self@.access, token@, now),
    {
        match index_of(&self.access_tokens, token) {
            Some(i) => {
                proof {
                    lemma_map_lookup(entry_views(self.access_tokens@), i as int);
                }
                self.access_tokens[i].expires_at > now
            },
            None => {
                proof {
                    lemma_absent(entry_views(self.access_tokens@), token@);
                }
                false
            },
        }
    }

    fn refresh_token_valid(&self, token: &str, now: u64) -> (b: bool)
        requires
            self.wf(),
        ensures
            b == is_valid(self@.refresh, token@, now),
    {
        match index_of(&self.refresh_tokens, token) {
            Some(i) => {
                proof {
                    lemma_map_lookup(entry_views(self.refresh_tokens@), i as int);
                }
                self.refresh_tokens[i].expires_at > now
            },
            None => {
                proof {
                    lemma_absent(entry_views(self.refresh_tokens@), token@);
                }
                false
            },
        }
    }

    /// Exchanges a valid refresh token for new tokens; the old refresh token
    /// is revoked. An invalid or expired one changes nothing.
    pub fn refresh(&mut self, refresh_token: &str, now: u64) -> (r: Option<TokenResponse>)
        requires
            old(self).wf(),
            now <= u64::MAX - REFRESH_TOKEN_TTL_MS,
        ensures
            final(self).wf(),
            r is Some <==> is_valid(old(self)@.refresh, refresh_token@, now),
            r is None ==> final(self)@ == old(self)@,
            r matches Some(t) ==> {
                &&& final(self)@.access == old(self)@.access.insert(t.access_token@, (now + ACCESS_TOKEN_TTL_MS) as u64)
                &&& final(self)@.refresh == old(self)@.refresh.remove(refresh_token@).insert(
                    t.refresh_token@,
                    (now + REFRESH_TOKEN_TTL_MS) as u64,
                )
                &&& t.token_type@ == "Bearer"@
                &&& t.expires_in == ACCESS_TOKEN_TTL_MS / 1000
                &&& t.access_token@.len() == 64
                &&& t.refresh_token@.len() == 64
                &&& exists|b: Seq<u8>| b.len() == 32 && t.access_token@ == hex_lower(b)
                &&& exists|b: Seq<u8>| b.len() == 32 && t.refresh_token@ == hex_lower(b)
            },
    {
        if !self.refresh_token_valid(refresh_token, now) {
            return None;
        }
        remove_token(&mut self.refresh_tokens, refresh_token);
        Some(self.create_tokens(now))
    }

    /// Revokes a refresh token.
    pub fn revoke_refresh_token(&mut self, refresh_token: &str)
        requires
            old(self).wf(),
        ensures
            final(self).wf(),
            final(self)@.access == old(self)@.access,
            final(self)@.refresh == old(self)@.refresh.remove(refresh_token@),
    {
        remove_token(&mut self.refresh_tokens, refresh_token);
    }

    /// Drops every token that has expired at `now`.
    pub fn cleanup_expired(&mut self, now: u64)
        requires
            old(self).wf(),
        ensures
            final(self).wf(),
            final(self)@.access == unexpired(old(self)@.access, now),
            final(self)@.refresh == unexpired(old(self)@.refresh, now),
    {
        retain_unexpired(&mut self.access_tokens, now);
        retain_unexpired(&mut self.refresh_tokens, now);
    }
}

// ----- HTTP basic authentication -----

/// What the standard base64 engine (`base64::engine::general_purpose::STANDARD`)
/// decodes `text` to, if it is valid: a function of the text alone.
pub uninterp spec fn base64_decoded(text: Seq<u8>) -> Option<Seq<u8>>;

/// `STANDARD.decode(text)`, its error dropped.
#[verifier::external_body]
fn base64_decode(text: &[u8]) -> (r: Option<Vec<u8>>)
    ensures
        match r {
            Some(v) => base64_decoded(text@) == Some(v@),
            None => base64_decoded(text@) is None,
        },
{
    base64::Engine::decode(&base64::engine::general_purpose::STANDARD, text).ok()
}

/// `std::str::from_utf8(bytes).is_ok()`: whether the bytes are valid UTF-8.
#[verifier::external_body]
fn is_utf8(bytes: &[u8]) -> (r: bool)
    ensures
        r == vstd::utf8::valid_utf8(bytes@),
{
    std::str::from_utf8(bytes).is_ok()
}

/// A header value reads as text when every byte is visible ASCII or a tab
/// (what `http::HeaderValue::to_str` accepts).
pub open spec fn header_is_text(h: Seq<u8>) -> bool {
    forall|k: int| 0 <= k < h.len() ==> ((32 <= #[trigger] h[k] && h[k] < 127) || h[k] == 9)
}

/// The bytes of `Basic `.
pub open spec fn basic_prefix() -> Seq<u8> {
    "Basic "@.map_values(|c: char| c as u8)
}

/// What the authentication middleware does with a request.
#[derive(Debug, Clone, Copy, PartialEq, Eq, Structural)]
pub enum BasicAuthDecision {
    /// No credentials are configured: the request passes.
    NotRequired,
    /// The request carries no readable credentials: answer 401 with a
    /// `WWW-Authenticate: Basic` challenge.
    Challenge,
    /// The credentials match: the request passes.
    Accept,
    /// The credentials do not match: answer 401.
    Reject,
}

/// The middleware's decision. Credentials are read from an `Authorization`
/// header that is text and starts with `Basic `, whose rest decodes as
/// standard base64 to UTF-8 text; they are split at the first `:` and both
/// halves compared with the expected user and password.
pub open spec fn basic_auth_outcome(expected: Option<(Seq<u8>, Seq<u8>)>, header: Option<Seq<u8>>) -> BasicAuthDecision {
    match expected {
        None => BasicAuthDecision::NotRequired,
        Some((user, pass)) => {
            let creds = match header {
                Some(h) => if header_is_text(h) && basic_prefix().is_prefix_of(h) {
                    match base64_decoded(h.skip(6)) {
                        Some(d) => if vstd::utf8::valid_utf8(d) { Some(d) } else { None },
                        None => None,
                    }
                } else {
                    None
                },
                None => None,
            };
            match creds {
                None => BasicAuthDecision::Challenge,
                Some(d) => match crate::bencode::first_index(d, 58) {
                    Some(i) => if d.take(i as int) == user && d.skip(i + 1int) == pass {
                        BasicAuthDecision::Accept
                    } else {
                        BasicAuthDecision::Reject
                    },
                    None => BasicAuthDecision::Reject,
                },
            }
        },
    }
}

fn header_text_ok(h: &[u8]) -> (r: bool)
    ensures
        r == header_is_text(h@),
{
    let mut k: usize = 0;
    while k < h.len()
        invariant
            0 <= k <= h@.len(),
            forall|m: int| 0 <= m < k ==> ((32 <= #[trigger] h@[m] && h@[m] < 127) || h@[m] == 9),
        decreases h@.len() - k,
    {
        let b = h[k];
        if !((32 <= b && b < 127) || b == 9) {
            return false;
        }
        k = k + 1;
    }
    true
}

fn has_basic_prefix(h: &[u8]) -> (r: bool)
    ensures
        r == basic_prefix().is_prefix_of(h@),
        r ==> h@.len() >= 6,
{
    proof {
        reveal_strlit("Basic ");
    }
    let p: [u8; 6] = [66, 97, 115, 105, 99, 32];
    assert(p@ =~= basic_prefix());
    if h.len() < 6 {
        return false;
    }
    let head = vstd::slice::slice_subrange(h, 0, 6);
    let r = crate::bencode::bytes_equal(head, p.as_slice());
    assert(head@ =~= h@.take(6));
    r
}

/// Decides whether a request passes, given the configured user and password
/// (both, or neither) and the raw `Authorization` header, if any.
pub fn basic_auth_decision(expected: Option<(&str, &str)>, header: Option<&[u8]>) -> (d: BasicAuthDecision)
    ensures
        d == basic_auth_outcome(
            match expected {
                Some((u, p)) => Some((u.spec_bytes(), p.spec_bytes())),
                None => None,
            },
            match header {
                Some(h) => Some(h@),
                None => None,
            },
        ),
{
    let (user, pass) = match expected {
        Some((u, p)) => (u, p),
        None => return BasicAuthDecision::NotRequired,
    };
    let h = match header {
        Some(h) => h,
        None => return BasicAuthDecision::Challenge,
    };
    if !header_text_ok(h) || !has_basic_prefix(h) {
        return BasicAuthDecision::Challenge;
    }
    let rest = vstd::slice::slice_subrange(h, 6, h.len());
    assert(rest@ =~= h@.skip(6));
    let decoded = match base64_decode(rest) {
        Some(d) => d,
        None => return BasicAuthDecision::Challenge,
    };
    if !is_utf8(decoded.as_slice()) {
        return BasicAuthDecision::Challenge;
    }
    proof {
        crate::bencode::lemma_first_index(decoded@, 58);
    }
    match crate::bencode::find_byte(decoded.as_slice(), 58) {
        Some(i) => {
            assert(i < decoded.len());
            let u = vstd::slice::slice_subrange(decoded.as_slice(), 0, i);
            let p = vstd::slice::slice_subrange(decoded.as_slice(), i + 1, decoded.len());
            assert(u@ =~= decoded@.take(i as int));
            assert(p@ =~= decoded@.skip(i + 1int));
            if constant_time_eq(u, user.as_bytes()) && constant_time_eq(p, pass.as_bytes()) {
                BasicAuthDecision::Accept
            } else {
                BasicAuthDecision::Reject
            }
        },
        None => BasicAuthDecision::Reject,
    }
}

/// The login decision: the given credentials must both match, compared in
/// constant time.
pub fn credentials_match(username: &str, password: &str, expected_user: &str, expected_pass: &str) -> (r: bool)
    ensures
        r == (username.spec_bytes() == expected_user.spec_bytes() && password.spec_bytes() == expected_pass.spec_bytes()),
{
    constant_time_eq(username.as_bytes(), expected_user.as_bytes()) && constant_time_eq(password.as_bytes(), expected_pass.as_bytes())
}

// ----- the authentication endpoints -----

/// What an authentication endpoint answers.
pub enum AuthReply {
    /// 200, with new tokens.
    Tokens(TokenResponse),
    /// 404: no user and password are configured.
    AuthNotConfigured,
    /// 404: tokens are not in use.
    TokensNotConfigured,
    /// 401: the user or the password does not match.
    InvalidCredentials,
    /// 401: the refresh token is unknown or has expired.
    InvalidRefreshToken,
}

/// `POST /auth/login`: with the configured user and password, and tokens in
/// use, the expired tokens are dropped and new tokens handed out.
pub fn auth_login(expected: Option<(&str, &str)>, store: &mut Option<TokenStore>, req: &LoginRequest, now: u64) -> (r:
    AuthReply)
    requires
        *old(store) matches Some(s) ==> s.wf(),
        now <= u64::MAX - REFRESH_TOKEN_TTL_MS,
    ensures
        *final(store) matches Some(s) ==> s.wf(),
        match expected {
            None => r is AuthNotConfigured && *final(store) == *old(store),
            Some((u, p)) => if !(vstd::utf8::encode_utf8(req.username@) == u.spec_bytes()
                && vstd::utf8::encode_utf8(req.password@) == p.spec_bytes()) {
                r is InvalidCredentials && *final(store) == *old(store)
            } else {
                match *old(store) {
                    None => r is TokensNotConfigured && *final(store) == *old(store),
                    Some(s0) => match (r, *final(store)) {
                        (AuthReply::Tokens(t), Some(s1)) => {
                            &&& s1@.access == unexpired(s0@.access, now).insert(
                                t.access_token@,
                                (now + ACCESS_TOKEN_TTL_MS) as u64,
                            )
                            &&& s1@.refresh == unexpired(s0@.refresh, now).insert(
                                t.refresh_token@,
                                (now + REFRESH_TOKEN_TTL_MS) as u64,
                            )
                            &&& t.token_type@ == "Bearer"@
                            &&& t.expires_in == ACCESS_TOKEN_TTL_MS / 1000
                        },
                        _ => false,
                    },
                }
            },
        },
{
    let (user, pass) = match expected {
        Some((u, p)) => (u, p),
        None => return AuthReply::AuthNotConfigured,
    };
    if !credentials_match(req.username.as_str(), req.password.as_str(), user, pass) {
        return AuthReply::InvalidCredentials;
    }
    match store {
        None => AuthReply::TokensNotConfigured,
        Some(s) => {
            s.cleanup_expired(now);
            AuthReply::Tokens(s.create_tokens(now))
        },
    }
}

/// `POST /auth/refresh`: a valid refresh token is exchanged for new tokens.
pub fn auth_refresh(store: &mut Option<TokenStore>, req: &RefreshRequest, now: u64) -> (r: AuthReply)
    requires
        *old(store) matches Some(s) ==> s.wf(),
        now <= u64::MAX - REFRESH_TOKEN_TTL_MS,
    ensures
        *final(store) matches Some(s) ==> s.wf(),
        match *old(store) {
            None => r is TokensNotConfigured && *final(store) == *old(store),
            Some(s0) => if !is_valid(s0@.refresh, req.refresh_token@, now) {
                r is InvalidRefreshToken && (match *final(store) {
                    Some(s1) => s1@ == s0@,
                    None => false,
                })
            } else {
                match (r, *final(store)) {
                    (AuthReply::Tokens(t), Some(s1)) => {
                        &&& s1@.access == s0@.access.insert(t.access_token@, (now + ACCESS_TOKEN_TTL_MS) as u64)
                        &&& s1@.refresh == s0@.refresh.remove(req.refresh_token@).insert(
                            t.refresh_token@,
                            (now + REFRESH_TOKEN_TTL_MS) as u64,
                        )
                        &&& t.token_type@ == "Bearer"@
                    },
                    _ => false,
                }
            },
        },
{
    match store {
        None => AuthReply::TokensNotConfigured,
        Some(s) => match s.refresh(req.refresh_token.as_str(), now) {
            Some(t) => AuthReply::Tokens(t),
            None => AuthReply::InvalidRefreshToken,
        },
    }
}

/// `POST /auth/logout`: the refresh token is revoked, when tokens are in use.
pub fn auth_logout(store: &mut Option<TokenStore>, req: &LogoutRequest)
    requires
        *old(store) matches Some(s) ==> s.wf(),
    ensures
        match (*old(store), *final(store)) {
            (None, None) => true,
            (Some(s0), Some(s1)) => s1.wf() && s1@.access == s0@.access && s1@.refresh == s0@.refresh.remove(
                req.refresh_token@,
            ),
            _ => false,
        },
{
    if let Some(s) = store {
        s.revoke_refresh_token(req.refresh_token.as_str());
    }
}

// ----- the API's authentication layer -----

/// The bytes of `Bearer `.
pub open spec fn bearer_prefix() -> Seq<u8> {
    "Bearer "@.map_values(|c: char| c as u8)
}

/// What the API's authentication layer does with a request.
#[derive(Debug, Clone, Copy, PartialEq, Eq, Structural)]
pub enum ApiAuthDecision {
    /// The request passes.
    Pass,
    /// Answer 401.
    Unauthorized,
    /// Answer 401 with a `WWW-Authenticate: Basic` challenge.
    Challenge,
}

/// The authentication layer's decision, when a user and password are
/// configured: the login and refresh endpoints pass; when tokens are in use
/// and the request carries `Authorization: Bearer <token>`, the token
/// decides (an unknown or expired one is refused, with no fallback); else
/// basic authentication with the configured user and password decides.
pub open spec fn api_auth_outcome(
    path: Seq<char>,
    access_tokens: Option<Map<Seq<char>, u64>>,
    now: u64,
    header: Option<Seq<u8>>,
    user: Seq<u8>,
    pass: Seq<u8>,
) -> ApiAuthDecision {
    if path == "/auth/login"@ || path == "/auth/refresh"@ {
        ApiAuthDecision::Pass
    } else {
        let bearer = match (access_tokens, header) {
            (Some(m), Some(h)) => if header_is_text(h) && bearer_prefix().is_prefix_of(h) {
                Some(is_valid(m, crate::text::ascii_chars(h.skip(7)), now))
            } else {
                None
            },
            _ => None,
        };
        match bearer {
            Some(true) => ApiAuthDecision::Pass,
            Some(false) => ApiAuthDecision::Unauthorized,
            None => match basic_auth_outcome(Some((user, pass)), header) {
                BasicAuthDecision::Accept => ApiAuthDecision::Pass,
                BasicAuthDecision::NotRequired => ApiAuthDecision::Pass,
                BasicAuthDecision::Reject => ApiAuthDecision::Unauthorized,
                BasicAuthDecision::Challenge => ApiAuthDecision::Challenge,
            },
        }
    }
}

fn has_bearer_prefix(h: &[u8]) -> (r: bool)
    ensures
        r == bearer_prefix().is_prefix_of(h@),
        r ==> h@.len() >= 7,
{
    proof {
        reveal_strlit("Bearer ");
    }
    let p: [u8; 7] = [66, 101, 97, 114, 101, 114, 32];
    assert(p@ =~= bearer_prefix());
    if h.len() < 7 {
        return false;
    }
    let head = vstd::slice::slice_subrange(h, 0, 7);
    let r = crate::bencode::bytes_equal(head, p.as_slice());
    assert(head@ =~= h@.take(7));
    r
}

/// Decides a request to the API at `path` at time `now`, given the token
/// store if tokens are in use, the raw `Authorization` header if any, and
/// the configured user and password.
pub fn api_auth_decision(
    path: &str,
    tokens: Option<&TokenStore>,
    now: u64,
    header: Option<&[u8]>,
    user: &str,
    pass: &str,
) -> (d: ApiAuthDecision)
    requires
        tokens matches Some(t) ==> t.wf(),
    ensures
        d == api_auth_outcome(
            path@,
            match tokens {
                Some(t) => Some(t@.access),
                None => None,
            },
            now,
            match header {
                Some(h) => Some(h@),
                None => None,
            },
            user.spec_bytes(),
            pass.spec_bytes(),
        ),
{
    proof {
        reveal_strlit("/auth/login");
        reveal_strlit("/auth/refresh");
    }
    if crate::text::str_eq(path, "/auth/login") || crate::text::str_eq(path, "/auth/refresh") {
        return ApiAuthDecision::Pass;
    }
    if let Some(store) = tokens {
        if let Some(h) = header {
            if header_text_ok(h) && has_bearer_prefix(h) {
                let rest = vstd::slice::slice_subrange(h, 7, h.len());
                assert(rest@ =~= h@.skip(7));
                let mut token = String::new();
                crate::text::push_ascii(&mut token, rest);
                assert(token@ =~= crate::text::ascii_chars(h@.skip(7)));
                if store.validate_access_token(token.as_str(), now) {
                    return ApiAuthDecision::Pass;
                }
                return ApiAuthDecision::Unauthorized;
            }
        }
    }
    match basic_auth_decision(Some((user, pass)), header) {
        BasicAuthDecision::Accept => ApiAuthDecision::Pass,
        BasicAuthDecision::NotRequired => ApiAuthDecision::Pass,
        BasicAuthDecision::Reject => ApiAuthDecision::Unauthorized,
        BasicAuthDecision::Challenge => ApiAuthDecision::Challenge,
    }
}

// ----- cross-origin requests -----

/// The origins always allowed to call the API: the web UI's development
/// server, and the desktop application in development and in production.
pub open spec fn allowed_origins() -> Seq<Seq<char>> {
    seq!["http://localhost:3031"@, "http://127.0.0.1:3031"@, "http://localhost:1420"@, "tauri://localhost"@]
}

/// Whether an origin may call the API: it is one of the allowed origins, or
/// the configured pattern matched it.
pub open spec fn origin_allowed(origin: Seq<u8>, pattern_matched: bool) -> bool {
    (exists|k: int| 0 <= k < 4 && origin == #[trigger] vstd::utf8::encode_utf8(allowed_origins()[k])) || pattern_matched
}

/// Whether `regex::bytes::Regex::new` accepts the pattern: a function of the
/// pattern alone.
pub uninterp spec fn pattern_compiles(pattern: Seq<char>) -> bool;

/// Whether the expression compiled from `pattern` by `regex::bytes::Regex::new`
/// matches somewhere in `text` (`Regex::is_match`): a function of the pattern
/// and the text alone.
pub uninterp spec fn regex_is_match(pattern: Seq<char>, text: Seq<u8>) -> bool;

/// `regex::bytes::Regex::new(pattern).is_ok()`: whether the pattern is a
/// valid expression.
#[verifier::external_body]
fn pattern_is_valid(pattern: &str) -> (r: bool)
    ensures
        r == pattern_compiles(pattern@),
{
    regex::bytes::Regex::new(pattern).is_ok()
}

/// `regex::bytes::Regex::new(pattern)`, then `is_match(text)` on the
/// compiled expression.
#[verifier::external_body]
fn pattern_matches(pattern: &str, text: &[u8]) -> (r: bool)
    requires
        pattern_compiles(pattern@),
    ensures
        r == regex_is_match(pattern@, text@),
{
    match regex::bytes::Regex::new(pattern) {
        Ok(re) => re.is_match(text),
        Err(_) => false,
    }
}

fn is_allowed_origin(origin: &[u8]) -> (r: bool)
    ensures
        r == exists|k: int| 0 <= k < 4 && origin@ == #[trigger] vstd::utf8::encode_utf8(allowed_origins()[k]),
{
    let a = "http://localhost:3031";
    let b = "http://127.0.0.1:3031";
    let c = "http://localhost:1420";
    let d = "tauri://localhost";
    let ra = crate::bencode::bytes_equal(origin, a.as_bytes());
    let rb = crate::bencode::bytes_equal(origin, b.as_bytes());
    let rc = crate::bencode::bytes_equal(origin, c.as_bytes());
    let rd = crate::bencode::bytes_equal(origin, d.as_bytes());
    proof {
        let o = allowed_origins();
        assert(o[0] == a@ && o[1] == b@ && o[2] == c@ && o[3] == d@);
        if ra || rb || rc || rd {
            if ra {
                assert(origin@ == vstd::utf8::encode_utf8(o[0]));
            } else if rb {
                assert(origin@ == vstd::utf8::encode_utf8(o[1]));
            } else if rc {
                assert(origin@ == vstd::utf8::encode_utf8(o[2]));
            } else {
                assert(origin@ == vstd::utf8::encode_utf8(o[3]));
            }
        }
    }
    ra || rb || rc || rd
}

/// The API's cross-origin policy: the allowed origins, and the origins that
/// an optional configured pattern matches.
pub struct CorsPolicy {
    pattern: Option<String>,
}

impl CorsPolicy {
    /// The pattern in use, if any.
    pub closed spec fn pattern(&self) -> Option<Seq<char>> {
        match self.pattern {
            Some(p) => Some(p@),
            None => None,
        }
    }

    /// A pattern in use is a valid expression.
    pub closed spec fn wf(&self) -> bool {
        self.pattern matches Some(p) ==> pattern_compiles(p@)
    }

    /// The policy with the configured pattern, if any; a pattern that is not
    /// a valid expression is left out.
    pub fn new(pattern: Option<&str>) -> (p: CorsPolicy)
        ensures
            p.wf(),
            p.pattern() == match pattern {
                Some(text) => if pattern_compiles(text@) { Some(text@) } else { None },
                None => None,
            },
    {
        match pattern {
            Some(text) => if pattern_is_valid(text) {
                CorsPolicy { pattern: Some(text.to_owned()) }
            } else {
                CorsPolicy { pattern: None }
            },
            None => CorsPolicy { pattern: None },
        }
    }

    /// Whether `origin` may call the API: one of the allowed origins, or one
    /// that the pattern in use matches.
    pub fn allows(&self, origin: &[u8]) -> (r: bool)
        requires
            self.wf(),
        ensures
            r == origin_allowed(origin@, self.pattern() matches Some(p) && regex_is_match(p, origin@)),
    {
        if is_allowed_origin(origin) {
            return true;
        }
        match &self.pattern {
            Some(p) => pattern_matches(p.as_str(), origin),
            None => false,
        }
    }
}

// ----- laws -----

/// Refresh tokens rotate: once a refresh has exchanged a token for a new one
/// (which, being random, differs from it), the old token is valid no more.
pub proof fn lemma_refresh_token_used_once(
    refresh: Map<Seq<char>, u64>,
    used: Seq<char>,
    fresh: Seq<char>,
    expires_at: u64,
    later: u64,
)
    requires
        fresh != used,
    ensures
        !is_valid(refresh.remove(used).insert(fresh, expires_at), used, later),
{
}

/// Encoding two texts one after the other is encoding their concatenation.
proof fn lemma_encode_utf8_concat(a: Seq<char>, b: Seq<char>)
    ensures
        vstd::utf8::encode_utf8(a + b) == vstd::utf8::encode_utf8(a) + vstd::utf8::encode_utf8(b),
    decreases a.len(),
{
    if a.len() > 0 {
        lemma_encode_utf8_concat(a.drop_first(), b);
        assert((a + b).drop_first() =~= a.drop_first() + b);
        assert((a + b)[0] == a[0]);
        assert(vstd::utf8::encode_utf8(a + b) =~= vstd::utf8::encode_utf8(a) + vstd::utf8::encode_utf8(b));
    } else {
        assert(a + b =~= b);
        assert(vstd::utf8::encode_utf8(a) =~= Seq::<u8>::empty());
    }
}

/// Valid UTF-8 around a `:` is valid UTF-8.
proof fn lemma_valid_around_colon(u: Seq<u8>, p: Seq<u8>)
    requires
        vstd::utf8::valid_utf8(u),
        vstd::utf8::valid_utf8(p),
    ensures
        vstd::utf8::valid_utf8(u + seq![58u8] + p),
{
    let cu = vstd::utf8::decode_utf8(u);
    let cp = vstd::utf8::decode_utf8(p);
    vstd::utf8::decode_utf8_encode_utf8(u);
    vstd::utf8::decode_utf8_encode_utf8(p);
    let colon = seq![':'];
    assert(colon.drop_first() =~= Seq::<char>::empty());
    assert(vstd::utf8::encode_utf8(Seq::<char>::empty()) =~= Seq::<u8>::empty());
    assert((':' as u32) == 58u32);
    assert(vstd::utf8::has_width_1_encoding(58u32));
    assert(vstd::utf8::leading_byte_width_1(58u32) == 58u8) by (bit_vector);
    assert(vstd::utf8::encode_utf8(colon) =~= seq![58u8]);
    lemma_encode_utf8_concat(cu, colon);
    lemma_encode_utf8_concat(cu + colon, cp);
    vstd::utf8::encode_utf8_valid_utf8(cu + colon + cp);
}

/// The right credentials are accepted: with a user name and a password
/// configured (their texts' bytes, the user name without a `:`), a header
/// `Basic ` followed by the standard base64 of `user:password` passes.
pub proof fn lemma_correct_credentials_accepted(user: Seq<char>, pass: Seq<char>, header: Seq<u8>)
    requires
        !vstd::utf8::encode_utf8(user).contains(58u8),
        header_is_text(header),
        basic_prefix().is_prefix_of(header),
        base64_decoded(header.skip(6)) == Some(
            vstd::utf8::encode_utf8(user) + seq![58u8] + vstd::utf8::encode_utf8(pass),
        ),
    ensures
        basic_auth_outcome(Some((vstd::utf8::encode_utf8(user), vstd::utf8::encode_utf8(pass))), Some(header))
            == BasicAuthDecision::Accept,
{
    let u = vstd::utf8::encode_utf8(user);
    let p = vstd::utf8::encode_utf8(pass);
    let d = u + seq![58u8] + p;
    vstd::utf8::encode_utf8_valid_utf8(user);
    vstd::utf8::encode_utf8_valid_utf8(pass);
    lemma_valid_around_colon(u, p);
    assert forall|i: int| 0 <= i < u.len() implies d[i] != 58u8 by {
        assert(d[i] == u[i]);
        if u[i] == 58u8 {
            assert(u.contains(58u8));
        }
    }
    assert(d[u.len() as int] == 58u8);
    crate::bencode::lemma_first_index_at(d, 58u8, u.len());
    assert(d.take(u.len() as int) =~= u);
    assert(d.skip(u.len() + 1int) =~= p);
}

/// Every token of the map is 64 characters long, as handed-out tokens are.
pub open spec fn tokens_shaped(m: Map<Seq<char>, u64>) -> bool {
    forall|k: Seq<char>| #[trigger] m.contains_key(k) ==> k.len() == 64
}

/// Handing out tokens keeps every token 64 characters long, with or without
/// revoking one; and a text of another length is then never a valid token,
/// so a text that was never handed out, such as `unknown`, is refused.
pub proof fn lemma_tokens_shaped(m: Map<Seq<char>, u64>, used: Seq<char>, fresh: Seq<char>, expires_at: u64, other: Seq<char>, t: u64)
    requires
        tokens_shaped(m),
        fresh.len() == 64,
        other.len() != 64,
    ensures
        tokens_shaped(Map::<Seq<char>, u64>::empty()),
        tokens_shaped(m.insert(fresh, expires_at)),
        tokens_shaped(m.remove(used).insert(fresh, expires_at)),
        !is_valid(m, other, t),
{
}

/// A token handed out at `now` is valid until its time to live has passed.
pub proof fn lemma_created_token_valid(m: Map<Seq<char>, u64>, token: Seq<char>, now: u64, ttl: u64, t: u64)
    requires
        now + ttl <= u64::MAX,
        now <= t < now + ttl,
    ensures
        is_valid(m.insert(token, (now + ttl) as u64), token, t),
{
}

/// After a refresh the old refresh token is no longer valid, unless the new
/// one happens to be the same text.
pub proof fn lemma_refresh_rotates(m: Map<Seq<char>, u64>, old_token: Seq<char>, new_token: Seq<char>, e: u64, t: u64)
    requires
        new_token != old_token,
    ensures
        !is_valid(m.remove(old_token).insert(new_token, e), old_token, t),
{
}

/// A revoked refresh token is no longer valid.
pub proof fn lemma_revoked_invalid(m: Map<Seq<char>, u64>, token: Seq<char>, t: u64)
    ensures
        !is_valid(m.remove(token), token, t),
{
}

/// Cleaning up at `now` keeps exactly the tokens valid at `now`.
pub proof fn lemma_cleanup_keeps_valid(m: Map<Seq<char>, u64>, token: Seq<char>, now: u64)
    ensures
        unexpired(m, now).contains_key(token) == is_valid(m, token, now),
        is_valid(unexpired(m, now), token, now) == is_valid(m, token, now),
{
}

/// A later clock never makes an invalid token valid again.
pub proof fn lemma_validity_monotone(m: Map<Seq<char>, u64>, token: Seq<char>, t1: u64, t2: u64)
    requires
        t1 <= t2,
    ensures
        is_valid(m, token, t2) ==> is_valid(m, token, t1),
{
}

/// The login and refresh endpoints are always reachable: the
/// authentication layer lets every request to them pass.
pub proof fn lemma_auth_endpoints_open(
    access_tokens: Option<Map<Seq<char>, u64>>,
    now: u64,
    header: Option<Seq<u8>>,
    user: Seq<u8>,
    pass: Seq<u8>,
)
    ensures
        api_auth_outcome("/auth/login"@, access_tokens, now, header, user, pass) == ApiAuthDecision::Pass,
        api_auth_outcome("/auth/refresh"@, access_tokens, now, header, user, pass) == ApiAuthDecision::Pass,
{
}

/// With tokens in use, a readable `Bearer` header decides alone: the request
/// passes exactly when its token is valid now, whatever the user and
/// password, and a refused token gets no second chance with them.
pub proof fn lemma_bearer_decides(
    path: Seq<char>,
    access_tokens: Map<Seq<char>, u64>,
    now: u64,
    h: Seq<u8>,
    user: Seq<u8>,
    pass: Seq<u8>,
)
    requires
        path != "/auth/login"@,
        path != "/auth/refresh"@,
        header_is_text(h),
        bearer_prefix().is_prefix_of(h),
    ensures
        api_auth_outcome(path, Some(access_tokens), now, Some(h), user, pass) == if is_valid(
            access_tokens,
            crate::text::ascii_chars(h.skip(7)),
            now,
        ) {
            ApiAuthDecision::Pass
        } else {
            ApiAuthDecision::Unauthorized
        },
{
}

} // verus!
