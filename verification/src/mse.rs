//! MSE/PE (Message Stream Encryption / Protocol Encryption).
//!
//! BitTorrent traffic is obfuscated with a Diffie-Hellman key exchange followed
//! by RC4 stream encryption. This module holds the handshake's computations
//! and decisions: the key exchange, the key derivation, the messages each side
//! sends, the scan for a synchronisation pattern and the choice of crypto
//! method, and the state of the encrypting reader and writer. The network
//! exchange that drives them runs outside the library.
pub mod handshake;
pub mod stream;
pub mod machine;

use vstd::prelude::*;
use crate::rc4::Rc4;
use rand::RngCore;
use sha1::Digest;

verus! {

/// Number of bytes to discard from RC4 keystream (standard MSE requirement).
pub const RC4_DISCARD_BYTES: usize = 1024;

/// Maximum padding size.
pub const MAX_PAD_LEN: usize = 512;

/// Crypto methods bitmask: plaintext.
pub const CRYPTO_PLAINTEXT: u32 = 0x01;

/// Crypto methods bitmask: RC4.
pub const CRYPTO_RC4: u32 = 0x02;

/// The first byte of a plain BitTorrent handshake (the length of "BitTorrent protocol").
pub const BT_HANDSHAKE_FIRST_BYTE: u8 = 0x13;

/// Encryption mode configuration.
#[derive(Debug, Clone, Copy, PartialEq, Eq, Structural)]
pub enum EncryptionMode {
    /// No encryption attempted or accepted.
    Disabled,
    /// Prefer encrypted connections, but allow plaintext as fallback.
    Enabled,
    /// Require encryption; reject plaintext connections.
    Forced,
}

impl Default for EncryptionMode {
    fn default() -> (m: Self)
        ensures
            m == EncryptionMode::Enabled,
    {
        EncryptionMode::Enabled
    }
}

/// The text that names a mode.
pub open spec fn mode_name(m: EncryptionMode) -> Seq<char> {
    match m {
        EncryptionMode::Disabled => seq!['d', 'i', 's', 'a', 'b', 'l', 'e', 'd'],
        EncryptionMode::Enabled => seq!['e', 'n', 'a', 'b', 'l', 'e', 'd'],
        EncryptionMode::Forced => seq!['f', 'o', 'r', 'c', 'e', 'd'],
    }
}

/// A mode name that is none of `disabled`, `enabled` and `forced`, in any case.
#[derive(Debug, Clone, PartialEq, Eq)]
pub struct InvalidEncryptionMode {
    /// The name, lowercased.
    pub name: String,
}

impl EncryptionMode {
    /// The mode's name, as it is displayed.
    pub fn as_str(&self) -> (s: &'static str)
        ensures
            s@ == mode_name(*self),
    {
        match self {
            EncryptionMode::Disabled => {
                proof { reveal_strlit("disabled"); }
                "disabled"
            },
            EncryptionMode::Enabled => {
                proof { reveal_strlit("enabled"); }
                "enabled"
            },
            EncryptionMode::Forced => {
                proof { reveal_strlit("forced"); }
                "forced"
            },
        }
    }

    /// The mode's name, as `to_string` gives it.
    pub fn to_string(&self) -> (s: String)
        ensures
            s@ == mode_name(*self),
    {
        String::from_str(self.as_str())
    }

    /// The mode that `s` names, compared without regard to case.
    pub fn from_name(s: &str) -> (r: Result<EncryptionMode, InvalidEncryptionMode>)
        ensures
            match r {
                Ok(m) => mode_name(m) == crate::text::lowercase(s@),
                Err(e) => e.name@ == crate::text::lowercase(s@)
                    && forall|m: EncryptionMode| mode_name(m) != crate::text::lowercase(s@),
            },
    {
        let lower = crate::text::to_lowercase(s);
        let modes = [EncryptionMode::Disabled, EncryptionMode::Enabled, EncryptionMode::Forced];
        let mut i: usize = 0;
        while i < 3
            invariant
                0 <= i <= 3,
                lower@ == crate::text::lowercase(s@),
                modes@ == seq![EncryptionMode::Disabled, EncryptionMode::Enabled, EncryptionMode::Forced],
                forall|k: int| 0 <= k < i ==> mode_name(#[trigger] modes@[k]) != lower@,
            decreases 3 - i,
        {
            let m = modes[i];
            if crate::text::str_eq(lower.as_str(), m.as_str()) {
                return Ok(m);
            }
            i = i + 1;
        }
        proof {
            assert forall|m: EncryptionMode| mode_name(m) != crate::text::lowercase(s@) by {
                match m {
                    EncryptionMode::Disabled => assert(mode_name(modes@[0]) != lower@),
                    EncryptionMode::Enabled => assert(mode_name(modes@[1]) != lower@),
                    EncryptionMode::Forced => assert(mode_name(modes@[2]) != lower@),
                }
            }
        }
        Err(InvalidEncryptionMode { name: lower })
    }
}

impl std::str::FromStr for EncryptionMode {
    type Err = InvalidEncryptionMode;

    fn from_str(s: &str) -> (r: Result<Self, Self::Err>)
        ensures
            match r {
                Ok(m) => mode_name(m) == crate::text::lowercase(s@),
                Err(e) => e.name@ == crate::text::lowercase(s@)
                    && forall|m: EncryptionMode| mode_name(m) != crate::text::lowercase(s@),
            },
    {
        EncryptionMode::from_name(s)
    }
}

/// Encryption status of a peer connection.
#[derive(Debug, Clone, Copy, PartialEq, Eq, Structural)]
pub enum EncryptionStatus {
    /// No encryption (plain BitTorrent protocol).
    Plaintext,
    /// RC4 encrypted via MSE/PE.
    Rc4,
}

impl EncryptionStatus {
    /// The status's name, as it is displayed.
    pub fn as_str(&self) -> (s: &'static str)
        ensures
            s@ == (match *self {
                EncryptionStatus::Plaintext => seq!['p', 'l', 'a', 'i', 'n', 't', 'e', 'x', 't'],
                EncryptionStatus::Rc4 => seq!['r', 'c', '4'],
            }),
    {
        match self {
            EncryptionStatus::Plaintext => {
                proof { reveal_strlit("plaintext"); }
                "plaintext"
            },
            EncryptionStatus::Rc4 => {
                proof { reveal_strlit("rc4"); }
                "rc4"
            },
        }
    }
}

/// Why a handshake is abandoned.
#[derive(Debug, Clone, Copy, PartialEq, Eq)]
pub enum MseError {
    /// The peer's DH public key is 0 or 1.
    WeakPublicKey,
    /// The initiator found no verification constant within the padding limit.
    VcNotFound,
    /// The responder found no `HASH('req1', S)` within the padding limit.
    Req1NotFound,
    /// A padding length above the maximum.
    PadTooLong(usize),
    /// The peer selected plaintext but encryption is forced.
    PlaintextRefused,
    /// The peer selected a crypto method we do not know.
    UnknownCryptoSelect(u32),
    /// The responder has no info hashes to match against.
    NoInfoHashes,
    /// No active info hash matches the initiator's.
    NoMatchingInfoHash,
    /// The decrypted verification constant is not all zeros.
    VcMismatch,
    /// The peer does not provide RC4 but encryption is forced.
    Rc4NotProvided,
    /// The peer provides no method we support.
    NoCompatibleCrypto(u32),
}

// ----- outside computations -----

/// What SHA-1 gives for `data`: a function of the data alone.
pub uninterp spec fn sha1_of(data: Seq<u8>) -> Seq<u8>;

/// A number written big-endian, as `BigUint::from_bytes_be` reads it (no
/// bytes read as zero).
pub open spec fn be_value(b: Seq<u8>) -> nat
    decreases b.len(),
{
    if b.len() == 0 {
        0
    } else {
        be_value(b.drop_last()) * 256 + (b.last() as nat)
    }
}

/// A number written big-endian in as few bytes as it takes, zero as one zero
/// byte, as `BigUint::to_bytes_be` writes it.
pub open spec fn be_bytes(n: nat) -> Seq<u8>
    decreases n,
{
    if n < 256 {
        seq![n as u8]
    } else {
        be_bytes(n / 256).push((n % 256) as u8)
    }
}

/// `base ^ exponent mod modulus` on numbers written big-endian, written back
/// big-endian.
pub open spec fn modpow_bytes(base: Seq<u8>, exponent: Seq<u8>, modulus: Seq<u8>) -> Seq<u8> {
    be_bytes(
        (vstd::arithmetic::power::pow(be_value(base) as int, be_value(exponent)) % (be_value(modulus) as int)) as nat,
    )
}

/// SHA-1 of `data`, by the `sha1` crate (`Digest::digest`).
#[verifier::external_body]
pub(crate) fn sha1_digest(data: &[u8]) -> (r: [u8; 20])
    ensures
        r@ == sha1_of(data@),
{
    let h = sha1::Sha1::digest(data);
    let mut out = [0u8; 20];
    out.copy_from_slice(&h);
    out
}

/// `base ^ exponent mod modulus` by `num_bigint::BigUint::modpow`, each number
/// read and the result written big-endian (`from_bytes_be`, `to_bytes_be`).
/// `modpow` panics on a zero modulus, and a modulus of one is left out too.
#[verifier::external_body]
fn modpow_be(base: &[u8], exponent: &[u8], modulus: &[u8]) -> (r: Vec<u8>)
    requires
        be_value(modulus@) > 1,
    ensures
        r@ == modpow_bytes(base@, exponent@, modulus@),
{
    let b = num_bigint::BigUint::from_bytes_be(base);
    let e = num_bigint::BigUint::from_bytes_be(exponent);
    let m = num_bigint::BigUint::from_bytes_be(modulus);
    b.modpow(&e, &m).to_bytes_be()
}

/// Fills `buf` with random bytes (`rand::RngCore::fill_bytes` on `rand::rng()`).
/// Only the length is promised: the bytes are random.
#[verifier::external_body]
pub(crate) fn fill_random(buf: &mut [u8])
    ensures
        final(buf)@.len() == old(buf)@.len(),
{
    rand::rng().fill_bytes(buf);
}

/// A random `u16` (`rand::random`). Nothing is promised of the value.
#[verifier::external_body]
fn random_u16() -> u16 {
    rand::random::<u16>()
}

} // verus!

verus! {

// ----- Diffie-Hellman -----

/// The 768-bit DH prime used by MSE, big-endian.
pub open spec fn dh_prime_seq() -> Seq<u8> {
    seq![0xFF, 0xFF, 0xFF, 0xFF, 0xFF, 0xFF, 0xFF, 0xFF, 0xC9, 0x0F, 0xDA, 0xA2, 0x21, 0x68, 0xC2, 0x34, 0xC4, 0xC6, 0x62, 0x8B, 0x80, 0xDC, 0x1C, 0xD1, 0x29, 0x02, 0x4E, 0x08, 0x8A, 0x67, 0xCC, 0x74, 0x02, 0x0B, 0xBE, 0xA6, 0x3B, 0x13, 0x9B, 0x22, 0x51, 0x4A, 0x08, 0x79, 0x8E, 0x34, 0x04, 0xDD, 0xEF, 0x95, 0x19, 0xB3, 0xCD, 0x3A, 0x43, 0x1B, 0x30, 0x2B, 0x0A, 0x6D, 0xF2, 0x5F, 0x14, 0x37, 0x4F, 0xE1, 0x35, 0x6D, 0x6D, 0x51, 0xC2, 0x45, 0xE4, 0x85, 0xB5, 0x76, 0x62, 0x5E, 0x7E, 0xC6, 0xF4, 0x4C, 0x42, 0xE9, 0xA6, 0x3A, 0x36, 0x21, 0x00, 0x00, 0x00, 0x00, 0x00, 0x09, 0x05, 0x63]
}

/// The 768-bit DH prime used by MSE, big-endian.
pub fn dh_prime() -> (p: Vec<u8>)
    ensures
        p@ == dh_prime_seq(),
{
    let a: [u8; 96] = [0xFF, 0xFF, 0xFF, 0xFF, 0xFF, 0xFF, 0xFF, 0xFF, 0xC9, 0x0F, 0xDA, 0xA2, 0x21, 0x68, 0xC2, 0x34, 0xC4, 0xC6, 0x62, 0x8B, 0x80, 0xDC, 0x1C, 0xD1, 0x29, 0x02, 0x4E, 0x08, 0x8A, 0x67, 0xCC, 0x74, 0x02, 0x0B, 0xBE, 0xA6, 0x3B, 0x13, 0x9B, 0x22, 0x51, 0x4A, 0x08, 0x79, 0x8E, 0x34, 0x04, 0xDD, 0xEF, 0x95, 0x19, 0xB3, 0xCD, 0x3A, 0x43, 0x1B, 0x30, 0x2B, 0x0A, 0x6D, 0xF2, 0x5F, 0x14, 0x37, 0x4F, 0xE1, 0x35, 0x6D, 0x6D, 0x51, 0xC2, 0x45, 0xE4, 0x85, 0xB5, 0x76, 0x62, 0x5E, 0x7E, 0xC6, 0xF4, 0x4C, 0x42, 0xE9, 0xA6, 0x3A, 0x36, 0x21, 0x00, 0x00, 0x00, 0x00, 0x00, 0x09, 0x05, 0x63];
    let v = vstd::slice::slice_to_vec(a.as_slice());
    assert(v@ =~= dh_prime_seq());
    v
}

/// DH generator.
pub const DH_GENERATOR: u8 = 2;

/// Generate a DH keypair: (private key, public key), big-endian. The private
/// key is 160 random bits; the public key is `g^private mod p`.
pub fn dh_keypair() -> (r: (Vec<u8>, Vec<u8>))
    ensures
        r.0@.len() == 20,
        r.1@ == modpow_bytes(seq![DH_GENERATOR], r.0@, dh_prime_seq()),
{
    let p = dh_prime();
    let mut private_key = vec![0u8; 20];
    fill_random(private_key.as_mut_slice());
    let g = [DH_GENERATOR];
    proof {
        lemma_prime_value();
    }
    let public_key = modpow_be(g.as_slice(), private_key.as_slice(), p.as_slice());
    assert(g@ =~= seq![DH_GENERATOR]);
    (private_key, public_key)
}

/// Compute shared secret: S = other_public^my_private mod p.
pub fn dh_secret(my_private: &[u8], other_public: &[u8]) -> (s: Vec<u8>)
    ensures
        s@ == modpow_bytes(other_public@, my_private@, dh_prime_seq()),
{
    let p = dh_prime();
    proof {
        lemma_prime_value();
    }
    modpow_be(other_public, my_private, p.as_slice())
}

/// A big-endian number as exactly 96 bytes: zero-padded on the left, or
/// its last 96 bytes when longer.
pub open spec fn to_96_bytes(n: Seq<u8>) -> Seq<u8> {
    if n.len() <= 96 {
        Seq::new((96 - n.len()) as nat, |k: int| 0u8) + n
    } else {
        n.skip(n.len() - 96)
    }
}

/// Encode a number, given big-endian, as a 96-byte big-endian array (768
/// bits), zero-padding on the left.
pub fn biguint_to_96_bytes(n: &[u8]) -> (out: [u8; 96])
    ensures
        out@ == to_96_bytes(n@),
{
    let len = n.len();
    let mut out = [0u8; 96];
    if len <= 96 {
        let mut k: usize = 0;
        while k < len
            invariant
                0 <= k <= len,
                len == n@.len(),
                len <= 96,
                out@.len() == 96,
                forall|m: int| 0 <= m < 96 - len ==> out@[m] == 0,
                forall|m: int| 0 <= m < k ==> out@[96 - len + m] == n@[m],
                forall|m: int| 96 - len + k <= m < 96 ==> out@[m] == 0,
            decreases len - k,
        {
            out[96 - len + k] = n[k];
            k = k + 1;
        }
        assert(out@ =~= to_96_bytes(n@));
    } else {
        // Should not happen with 768-bit prime, but truncate if it does.
        let mut k: usize = 0;
        while k < 96
            invariant
                0 <= k <= 96,
                len == n@.len(),
                len > 96,
                out@.len() == 96,
                forall|m: int| 0 <= m < k ==> out@[m] == n@[len - 96 + m],
            decreases 96 - k,
        {
            out[k] = n[len - 96 + k];
            k = k + 1;
        }
        assert(out@ =~= to_96_bytes(n@));
    }
    out
}

/// Reading back what was written gives the number.
pub proof fn lemma_be_roundtrip(n: nat)
    ensures
        be_value(be_bytes(n)) == n,
    decreases n,
{
    if n >= 256 {
        lemma_be_roundtrip(n / 256);
        let b = be_bytes(n);
        assert(b.drop_last() =~= be_bytes(n / 256));
        assert(b.last() == (n % 256) as u8);
        assert(((n % 256) as u8) as nat == n % 256);
        assert(n == (n / 256) * 256 + n % 256) by (nonlinear_arith);
        assert(be_value(b) == be_value(be_bytes(n / 256)) * 256 + (n % 256));
    } else {
        let b = seq![n as u8];
        assert(b.drop_last() =~= Seq::<u8>::empty());
        assert(be_value(b) == be_value(b.drop_last()) * 256 + (b.last() as nat));
    }
}

/// A number below `256^k` is written in at most `k` bytes.
pub proof fn lemma_be_bytes_len(n: nat, k: nat)
    requires
        k >= 1,
        n < vstd::arithmetic::power::pow(256, k),
    ensures
        be_bytes(n).len() <= k,
    decreases n,
{
    reveal(vstd::arithmetic::power::pow);
    if n >= 256 {
        let k1 = (k - 1) as nat;
        vstd::arithmetic::power::lemma_pow0(256);
        if k == 1 {
            vstd::arithmetic::power::lemma_pow1(256);
        }
        assert(k >= 2);
        assert(vstd::arithmetic::power::pow(256, k) == 256 * vstd::arithmetic::power::pow(256, k1));
        let q = vstd::arithmetic::power::pow(256, k1);
        assert(n / 256 < q) by (nonlinear_arith)
            requires
                n < 256 * q,
        ;
        lemma_be_bytes_len(n / 256, k1);
    }
}

/// A number written in `k` bytes is below `256^k`.
pub proof fn lemma_be_value_bound(b: Seq<u8>)
    ensures
        be_value(b) < vstd::arithmetic::power::pow(256, b.len()),
    decreases b.len(),
{
    reveal(vstd::arithmetic::power::pow);
    vstd::arithmetic::power::lemma_pow0(256);
    if b.len() > 0 {
        let p = b.drop_last();
        lemma_be_value_bound(p);
        let q = vstd::arithmetic::power::pow(256, p.len());
        assert(vstd::arithmetic::power::pow(256, b.len()) == 256 * q);
        let v = be_value(p);
        let l = b.last();
        assert(v * 256 + l < 256 * q) by (nonlinear_arith)
            requires
                v < q,
                l < 256,
        ;
    }
}

/// Zero bytes in front do not change the number.
pub proof fn lemma_be_value_padded(b: Seq<u8>, z: nat)
    ensures
        be_value(Seq::new(z, |k: int| 0u8) + b) == be_value(b),
    decreases b.len(), z,
{
    let zs = Seq::new(z, |k: int| 0u8);
    if b.len() == 0 {
        assert(zs + b =~= zs);
        if z > 0 {
            assert(zs.drop_last() =~= Seq::new((z - 1) as nat, |k: int| 0u8));
            lemma_be_value_padded(b, (z - 1) as nat);
            assert(Seq::new((z - 1) as nat, |k: int| 0u8) + b =~= Seq::new((z - 1) as nat, |k: int| 0u8));
        }
    } else {
        lemma_be_value_padded(b.drop_last(), z);
        assert((zs + b).drop_last() =~= zs + b.drop_last());
    }
}

/// The 96-byte form of a number written in at most 96 bytes is the same number.
pub proof fn lemma_be_value_96(b: Seq<u8>)
    requires
        b.len() <= 96,
    ensures
        be_value(to_96_bytes(b)) == be_value(b),
{
    lemma_be_value_padded(b, (96 - b.len()) as nat);
}

/// Dropping the last bytes never makes the number larger.
proof fn lemma_be_value_take(b: Seq<u8>, k: int)
    requires
        0 <= k <= b.len(),
    ensures
        be_value(b.take(k)) <= be_value(b),
    decreases b.len(),
{
    if k < b.len() {
        lemma_be_value_take(b.drop_last(), k);
        assert(b.drop_last().take(k) =~= b.take(k));
    } else {
        assert(b.take(k) =~= b);
    }
}

/// The DH prime is above one and written in 96 bytes.
pub proof fn lemma_prime_value()
    ensures
        be_value(dh_prime_seq()) > 1,
        dh_prime_seq().len() == 96,
{
    let p = dh_prime_seq();
    lemma_be_value_take(p, 1);
    assert(p.take(1).drop_last() =~= Seq::<u8>::empty());
}

/// The number written big-endian is 0 or 1.
pub open spec fn is_zero_or_one(b: Seq<u8>) -> bool {
    &&& forall|k: int| 0 <= k < b.len() - 1 ==> b[k] == 0
    &&& (b.len() == 0 || b[b.len() - 1] <= 1)
}

/// Whether a received DH public key is weak: 0 or 1.
pub fn is_weak_public_key(b: &[u8]) -> (r: bool)
    ensures
        r == is_zero_or_one(b@),
{
    let n = b.len();
    if n == 0 {
        return true;
    }
    let mut k: usize = 0;
    while k < n - 1
        invariant
            0 <= k <= n - 1,
            n == b@.len(),
            n > 0,
            forall|m: int| 0 <= m < k ==> b@[m] == 0,
        decreases n - 1 - k,
    {
        if b[k] != 0 {
            return false;
        }
        k = k + 1;
    }
    b[n - 1] <= 1
}

// ----- hashing and key derivation -----

/// The parts written one after another.
pub open spec fn concat_parts(parts: Seq<Seq<u8>>) -> Seq<u8>
    decreases parts.len(),
{
    if parts.len() == 0 {
        Seq::empty()
    } else {
        concat_parts(parts.drop_last()) + parts.last()
    }
}

/// SHA-1 of multiple slices concatenated.
pub fn sha1_multi(parts: &[&[u8]]) -> (r: [u8; 20])
    ensures
        r@ == sha1_of(concat_parts(Seq::new(parts@.len(), |k: int| parts@[k]@))),
{
    let ghost views = Seq::new(parts@.len(), |k: int| parts@[k]@);
    let mut data: Vec<u8> = Vec::new();
    let mut k: usize = 0;
    while k < parts.len()
        invariant
            0 <= k <= parts@.len(),
            views == Seq::new(parts@.len(), |m: int| parts@[m]@),
            data@ == concat_parts(views.take(k as int)),
        decreases parts@.len() - k,
    {
        assert(views.take(k + 1).drop_last() =~= views.take(k as int));
        data.extend_from_slice(parts[k]);
        k = k + 1;
    }
    assert(views.take(k as int) =~= views);
    sha1_digest(data.as_slice())
}

/// The tag bytes the key derivation hashes in front of its inputs.
pub open spec fn tag(name: Seq<char>) -> Seq<u8> {
    Seq::new(name.len(), |k: int| name[k] as u8)
}

/// `HASH(t, a)`: SHA-1 of the tag followed by `a`.
pub open spec fn hash2(t: Seq<char>, a: Seq<u8>) -> Seq<u8> {
    sha1_of(tag(t) + a)
}

/// `HASH(t, a, b)`: SHA-1 of the tag followed by `a` and `b`.
pub open spec fn hash3(t: Seq<char>, a: Seq<u8>, b: Seq<u8>) -> Seq<u8> {
    sha1_of(tag(t) + a + b)
}

/// Byte-wise exclusive or, as long as `a`.
pub open spec fn xor_bytes(a: Seq<u8>, b: Seq<u8>) -> Seq<u8> {
    Seq::new(a.len(), |k: int| a[k] ^ b[k])
}

/// The values both sides derive from the shared secret `S` and the info hash `SKEY`.
pub struct HandshakeKeys {
    /// HASH('req1', S)
    pub req1: [u8; 20],
    /// HASH('req2', SKEY) xor HASH('req3', S)
    pub req2_xor_req3: [u8; 20],
    /// HASH('keyA', S, SKEY): the initiator's encryption key.
    pub key_a: [u8; 20],
    /// HASH('keyB', S, SKEY): the responder's encryption key.
    pub key_b: [u8; 20],
}

pub(crate) fn sha1_tagged(t: &[u8; 4], a: &[u8], b: &[u8]) -> (r: [u8; 20])
    ensures
        r@ == sha1_of(t@ + a@ + b@),
{
    let parts: [&[u8]; 3] = [t.as_slice(), a, b];
    let r = sha1_multi(parts.as_slice());
    proof {
        let views = Seq::new(parts@.len(), |k: int| parts@[k]@);
        assert(views =~= seq![t@, a@, b@]);
        assert(views.drop_last() =~= seq![t@, a@]);
        assert(views.drop_last().drop_last() =~= seq![t@]);
        assert(views.drop_last().drop_last().drop_last() =~= Seq::<Seq<u8>>::empty());
        assert(concat_parts(views.drop_last().drop_last().drop_last()) =~= Seq::<u8>::empty());
        assert(concat_parts(views.drop_last().drop_last()) =~= t@);
        assert(concat_parts(views.drop_last()) =~= t@ + a@);
        assert(concat_parts(views) =~= t@ + a@ + b@);
    }
    r
}

fn xor20(a: &[u8; 20], b: &[u8; 20]) -> (r: [u8; 20])
    ensures
        r@ == xor_bytes(a@, b@),
{
    let mut r = [0u8; 20];
    let mut i: usize = 0;
    while i < 20
        invariant
            0 <= i <= 20,
            r@.len() == 20,
            forall|m: int| 0 <= m < i ==> r@[m] == a@[m] ^ b@[m],
        decreases 20 - i,
    {
        r[i] = a[i] ^ b[i];
        i = i + 1;
    }
    assert(r@ =~= xor_bytes(a@, b@));
    r
}

/// Derives the handshake values from `S` (96 bytes) and `SKEY` (the info hash).
pub fn handshake_keys(s_bytes: &[u8; 96], skey: &[u8; 20]) -> (k: HandshakeKeys)
    ensures
        k.req1@ == hash2(seq!['r', 'e', 'q', '1'], s_bytes@),
        k.req2_xor_req3@ == xor_bytes(hash2(seq!['r', 'e', 'q', '2'], skey@), hash2(seq!['r', 'e', 'q', '3'], s_bytes@)),
        k.key_a@ == hash3(seq!['k', 'e', 'y', 'A'], s_bytes@, skey@),
        k.key_b@ == hash3(seq!['k', 'e', 'y', 'B'], s_bytes@, skey@),
{
    let empty: [u8; 0] = [];
    let t_req1: [u8; 4] = [114, 101, 113, 49];
    let t_req2: [u8; 4] = [114, 101, 113, 50];
    let t_req3: [u8; 4] = [114, 101, 113, 51];
    let t_key_a: [u8; 4] = [107, 101, 121, 65];
    let t_key_b: [u8; 4] = [107, 101, 121, 66];
    proof {
        assert(t_req1@ =~= tag(seq!['r', 'e', 'q', '1']));
        assert(t_req2@ =~= tag(seq!['r', 'e', 'q', '2']));
        assert(t_req3@ =~= tag(seq!['r', 'e', 'q', '3']));
        assert(t_key_a@ =~= tag(seq!['k', 'e', 'y', 'A']));
        assert(t_key_b@ =~= tag(seq!['k', 'e', 'y', 'B']));
        assert(s_bytes@ + empty@ =~= s_bytes@);
        assert(t_req1@ + s_bytes@ + empty@ =~= t_req1@ + s_bytes@);
        assert(t_req2@ + skey@ + empty@ =~= t_req2@ + skey@);
        assert(t_req3@ + s_bytes@ + empty@ =~= t_req3@ + s_bytes@);
    }
    let req1 = sha1_tagged(&t_req1, s_bytes.as_slice(), empty.as_slice());
    let req2 = sha1_tagged(&t_req2, skey.as_slice(), empty.as_slice());
    let req3 = sha1_tagged(&t_req3, s_bytes.as_slice(), empty.as_slice());
    let key_a = sha1_tagged(&t_key_a, s_bytes.as_slice(), skey.as_slice());
    let key_b = sha1_tagged(&t_key_b, s_bytes.as_slice(), skey.as_slice());
    HandshakeKeys { req1, req2_xor_req3: xor20(&req2, &req3), key_a, key_b }
}

/// The first of the candidate info hashes whose `HASH('req2', SKEY) xor
/// HASH('req3', S)` is the value the initiator sent.
pub fn match_info_hash(s_bytes: &[u8; 96], received: &[u8; 20], info_hashes: &[[u8; 20]]) -> (r: Option<usize>)
    ensures
        match r {
            Some(i) => i < info_hashes@.len()
                && handshake_keys_match(s_bytes@, info_hashes@[i as int]@, received@)
                && forall|j: int| 0 <= j < i ==> !handshake_keys_match(s_bytes@, #[trigger] info_hashes@[j]@, received@),
            None => forall|j: int| 0 <= j < info_hashes@.len() ==> !handshake_keys_match(s_bytes@, #[trigger] info_hashes@[j]@, received@),
        },
{
    let mut i: usize = 0;
    while i < info_hashes.len()
        invariant
            0 <= i <= info_hashes@.len(),
            forall|j: int| 0 <= j < i ==> !handshake_keys_match(s_bytes@, #[trigger] info_hashes@[j]@, received@),
        decreases info_hashes@.len() - i,
    {
        let ih = info_hashes[i];
        let keys = handshake_keys(s_bytes, &ih);
        if bytes20_eq(&keys.req2_xor_req3, received) {
            return Some(i);
        }
        i = i + 1;
    }
    None
}

/// The info hash `skey` is the one behind `received`.
pub open spec fn handshake_keys_match(s: Seq<u8>, skey: Seq<u8>, received: Seq<u8>) -> bool {
    xor_bytes(hash2(seq!['r', 'e', 'q', '2'], skey), hash2(seq!['r', 'e', 'q', '3'], s)) == received
}

fn bytes20_eq(a: &[u8; 20], b: &[u8; 20]) -> (r: bool)
    ensures
        r == (a@ == b@),
{
    let mut i: usize = 0;
    while i < 20
        invariant
            0 <= i <= 20,
            forall|m: int| 0 <= m < i ==> a@[m] == b@[m],
        decreases 20 - i,
    {
        if a[i] != b[i] {
            return false;
        }
        i = i + 1;
    }
    assert(a@ =~= b@);
    true
}

} // verus!
