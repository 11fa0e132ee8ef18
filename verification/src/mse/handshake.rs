//! The steps of the MSE handshake that lie between its network reads and
//! writes: what each side sends, what it expects, and what it decides from
//! what it received. The order of the steps is that of the protocol:
//!
//! initiator: send `Ya ++ PadA`; read `Yb`; send `req1 ++ req2^req3 ++
//! ENCRYPT(VC, crypto_provide, len(PadC), PadC, len(IA))`; scan for the
//! encrypted VC; read `crypto_select`, `len(PadD)` and `PadD`.
//!
//! responder: read `Ya`; send `Yb ++ PadB`; scan for `HASH('req1', S)`; read
//! `req2^req3` and find the info hash; read and check VC; read
//! `crypto_provide`, `len(PadC)`, `PadC`, `len(IA)` and `IA`; send
//! `ENCRYPT(VC, crypto_select, len(PadD), PadD)`.
use vstd::prelude::*;
use crate::rc4::Rc4;
use crate::bencode::bytes_equal;
use crate::mse::{
    EncryptionMode, EncryptionStatus, MseError, biguint_to_96_bytes, dh_secret, fill_random,
    random_u16, is_weak_public_key, match_info_hash, sha1_tagged, CRYPTO_PLAINTEXT, CRYPTO_RC4,
    MAX_PAD_LEN, RC4_DISCARD_BYTES,
};

verus! {

// ----- wire encodings -----

/// `x` as four big-endian bytes.
pub open spec fn be32(x: u32) -> Seq<u8> {
    seq![(x / 0x100_0000) as u8, ((x / 0x1_0000) % 0x100) as u8, ((x / 0x100) % 0x100) as u8, (x % 0x100) as u8]
}

/// `x` as two big-endian bytes.
pub open spec fn be16(x: u16) -> Seq<u8> {
    seq![(x / 0x100) as u8, (x % 0x100) as u8]
}

/// The number that four big-endian bytes write.
pub open spec fn from_be32(b: Seq<u8>) -> int {
    b[0] * 0x100_0000 + b[1] * 0x1_0000 + b[2] * 0x100 + b[3]
}

/// The number that two big-endian bytes write.
pub open spec fn from_be16(b: Seq<u8>) -> int {
    b[0] * 0x100 + b[1]
}

fn push_be32(out: &mut Vec<u8>, x: u32)
    ensures
        final(out)@ == old(out)@ + be32(x),
{
    out.push((x / 0x100_0000) as u8);
    out.push(((x / 0x1_0000) % 0x100) as u8);
    out.push(((x / 0x100) % 0x100) as u8);
    out.push((x % 0x100) as u8);
    assert(out@ =~= old(out)@ + be32(x));
}

fn push_be16(out: &mut Vec<u8>, x: u16)
    ensures
        final(out)@ == old(out)@ + be16(x),
{
    out.push((x / 0x100) as u8);
    out.push((x % 0x100) as u8);
    assert(out@ =~= old(out)@ + be16(x));
}

fn push_all(out: &mut Vec<u8>, data: &[u8])
    ensures
        final(out)@ == old(out)@ + data@,
{
    let mut k: usize = 0;
    while k < data.len()
        invariant
            0 <= k <= data@.len(),
            out@ == old(out)@ + data@.take(k as int),
        decreases data@.len() - k,
    {
        out.push(data[k]);
        k = k + 1;
        assert(out@ =~= old(out)@ + data@.take(k as int));
    }
    assert(data@.take(k as int) =~= data@);
}

/// The verification constant: eight zero bytes.
pub open spec fn vc() -> Seq<u8> {
    Seq::new(8, |k: int| 0u8)
}

// ----- randomness -----

/// Random padding of length 0..=MAX_PAD_LEN.
pub fn random_pad() -> (pad: Vec<u8>)
    ensures
        pad@.len() <= MAX_PAD_LEN,
{
    let len = (random_u16() as usize) % (MAX_PAD_LEN + 1);
    let mut buf = vec![0u8; len];
    fill_random(buf.as_mut_slice());
    buf
}

// ----- key exchange -----

/// What a side sends first: its public key as 96 bytes, then its padding.
pub fn key_exchange_message(public_key: &[u8], pad: &[u8]) -> (m: Vec<u8>)
    ensures
        m@ == crate::mse::to_96_bytes(public_key@) + pad@,
{
    let key = biguint_to_96_bytes(public_key);
    let mut m: Vec<u8> = Vec::new();
    push_all(&mut m, key.as_slice());
    push_all(&mut m, pad);
    m
}

/// A received public key is refused when it is 0 or 1.
pub fn check_peer_key(peer_public: &[u8]) -> (r: Result<(), MseError>)
    ensures
        r is Err <==> crate::mse::is_zero_or_one(peer_public@),
        r is Err ==> r == Err::<(), MseError>(MseError::WeakPublicKey),
{
    if is_weak_public_key(peer_public) {
        Err(MseError::WeakPublicKey)
    } else {
        Ok(())
    }
}

/// The shared secret `S` as both sides write it: 96 big-endian bytes.
pub open spec fn shared_secret_bytes(my_private: Seq<u8>, peer_public: Seq<u8>) -> Seq<u8> {
    crate::mse::to_96_bytes(
        crate::mse::modpow_bytes(peer_public, my_private, crate::mse::dh_prime_seq()),
    )
}

/// `S = peer_public ^ my_private mod p`, as 96 bytes.
pub fn shared_secret(my_private: &[u8], peer_public: &[u8]) -> (s: [u8; 96])
    ensures
        s@ == shared_secret_bytes(my_private@, peer_public@),
{
    let secret = dh_secret(my_private, peer_public);
    biguint_to_96_bytes(secret.as_slice())
}

// ----- derived keys -----

/// `HASH('req1', S)`.
pub open spec fn req1_of(s: Seq<u8>) -> Seq<u8> {
    crate::mse::hash2(seq!['r', 'e', 'q', '1'], s)
}

/// `HASH('req2', SKEY) xor HASH('req3', S)`.
pub open spec fn obfuscated_skey(s: Seq<u8>, skey: Seq<u8>) -> Seq<u8> {
    crate::mse::xor_bytes(
        crate::mse::hash2(seq!['r', 'e', 'q', '2'], skey),
        crate::mse::hash2(seq!['r', 'e', 'q', '3'], s),
    )
}

/// `HASH('keyA', S, SKEY)`: the key of what the initiator sends.
pub open spec fn key_a_of(s: Seq<u8>, skey: Seq<u8>) -> Seq<u8> {
    crate::mse::hash3(seq!['k', 'e', 'y', 'A'], s, skey)
}

/// `HASH('keyB', S, SKEY)`: the key of what the responder sends.
pub open spec fn key_b_of(s: Seq<u8>, skey: Seq<u8>) -> Seq<u8> {
    crate::mse::hash3(seq!['k', 'e', 'y', 'B'], s, skey)
}

/// An RC4 cipher keyed with `key` whose first 1024 bytes are discarded.
pub open spec fn keyed_cipher(key: Seq<u8>) -> crate::rc4::Rc4View {
    crate::rc4::advance(crate::rc4::initial_view(key), RC4_DISCARD_BYTES as nat)
}

fn new_keyed_cipher(key: &[u8; 20]) -> (c: Rc4)
    ensures
        c@ == keyed_cipher(key@),
{
    let mut c = Rc4::new(key.as_slice());
    c.discard(RC4_DISCARD_BYTES);
    c
}

/// What the responder scans for: `HASH('req1', S)`.
pub fn req1_pattern(s_bytes: &[u8; 96]) -> (p: Vec<u8>)
    ensures
        p@ == req1_of(s_bytes@),
{
    let empty: [u8; 0] = [];
    let t: [u8; 4] = [114, 101, 113, 49];
    let h = sha1_tagged(&t, s_bytes.as_slice(), empty.as_slice());
    proof {
        assert(t@ =~= crate::mse::tag(seq!['r', 'e', 'q', '1']));
        assert(t@ + s_bytes@ + empty@ =~= t@ + s_bytes@);
    }
    vstd::slice::slice_to_vec(h.as_slice())
}

// ----- the initiator -----

/// The methods the initiator offers: RC4 alone when encryption is forced,
/// plaintext and RC4 otherwise.
pub open spec fn crypto_provide(mode: EncryptionMode) -> u32 {
    if mode == EncryptionMode::Forced {
        CRYPTO_RC4
    } else {
        CRYPTO_PLAINTEXT | CRYPTO_RC4
    }
}

/// The initiator's payload before encryption:
/// `VC, crypto_provide, len(PadC), PadC, len(IA) = 0`.
pub open spec fn initiator_payload(mode: EncryptionMode, pad_c: Seq<u8>) -> Seq<u8> {
    vc() + be32(crypto_provide(mode)) + be16(pad_c.len() as u16) + pad_c + be16(0)
}

/// The initiator's second message: `HASH('req1', S)`, `HASH('req2', SKEY) xor
/// HASH('req3', S)`, then the payload encrypted with key A.
pub open spec fn initiator_message(
    s: Seq<u8>,
    skey: Seq<u8>,
    mode: EncryptionMode,
    pad_c: Seq<u8>,
) -> Seq<u8> {
    req1_of(s) + obfuscated_skey(s, skey) + crate::rc4::apply_keystream(
        keyed_cipher(key_a_of(s, skey)),
        initiator_payload(mode, pad_c),
    )
}

/// What the initiator holds once it has the peer's key.
pub struct InitiatorSession {
    /// What to send next.
    pub message: Vec<u8>,
    /// Encrypts what the initiator sends from now on.
    pub encrypt: Rc4,
    /// Decrypts what the responder sends.
    pub decrypt: Rc4,
}

fn crypto_provide_for(mode: EncryptionMode) -> (r: u32)
    ensures
        r == crypto_provide(mode),
{
    match mode {
        EncryptionMode::Forced => CRYPTO_RC4,
        _ => CRYPTO_PLAINTEXT | CRYPTO_RC4,
    }
}

/// The initiator's payload before encryption.
pub fn build_initiator_payload(mode: EncryptionMode, pad_c: &[u8]) -> (p: Vec<u8>)
    requires
        pad_c@.len() <= MAX_PAD_LEN,
    ensures
        p@ == initiator_payload(mode, pad_c@),
{
    let mut p: Vec<u8> = vec![0u8; 8];
    assert(p@ =~= vc());
    push_be32(&mut p, crypto_provide_for(mode));
    push_be16(&mut p, pad_c.len() as u16);
    push_all(&mut p, pad_c);
    push_be16(&mut p, 0);
    p
}

/// Encrypts `data` with `cipher`, advancing it.
pub fn encrypt_to_vec(cipher: &mut Rc4, data: &[u8]) -> (r: Vec<u8>)
    ensures
        r@ == crate::rc4::apply_keystream(old(cipher)@, data@),
        final(cipher)@ == crate::rc4::advance(old(cipher)@, data@.len()),
{
    let mut buf = vstd::slice::slice_to_vec(data);
    cipher.process_in_place(buf.as_mut_slice());
    buf
}

/// The initiator's step after reading the responder's key `Yb`: refuse a weak
/// key, else derive the secret and the keys, and build the second message.
pub fn initiator_on_peer_key(
    my_private: &[u8],
    peer_public: &[u8; 96],
    info_hash: &[u8; 20],
    mode: EncryptionMode,
    pad_c: &[u8],
) -> (r: Result<InitiatorSession, MseError>)
    requires
        pad_c@.len() <= MAX_PAD_LEN,
    ensures
        match r {
            Err(e) => e == MseError::WeakPublicKey && crate::mse::is_zero_or_one(peer_public@),
            Ok(sess) => {
                let s = shared_secret_bytes(my_private@, peer_public@);
                &&& !crate::mse::is_zero_or_one(peer_public@)
                &&& sess.message@ == initiator_message(s, info_hash@, mode, pad_c@)
                &&& sess.encrypt@ == crate::rc4::advance(
                    keyed_cipher(key_a_of(s, info_hash@)),
                    initiator_payload(mode, pad_c@).len(),
                )
                &&& sess.decrypt@ == keyed_cipher(key_b_of(s, info_hash@))
            },
        },
{
    if is_weak_public_key(peer_public.as_slice()) {
        return Err(MseError::WeakPublicKey);
    }
    let s_bytes = shared_secret(my_private, peer_public.as_slice());
    let keys = crate::mse::handshake_keys(&s_bytes, info_hash);
    let mut encrypt = new_keyed_cipher(&keys.key_a);
    let decrypt = new_keyed_cipher(&keys.key_b);
    let payload = build_initiator_payload(mode, pad_c);
    let sealed = encrypt_to_vec(&mut encrypt, payload.as_slice());
    let mut message: Vec<u8> = Vec::new();
    push_all(&mut message, keys.req1.as_slice());
    push_all(&mut message, keys.req2_xor_req3.as_slice());
    push_all(&mut message, sealed.as_slice());
    Ok(InitiatorSession { message, encrypt, decrypt })
}

proof fn lemma_xor_zero(st: crate::rc4::Rc4View, n: nat)
    ensures
        crate::rc4::apply_keystream(st, Seq::new(n, |k: int| 0u8)) == crate::rc4::keystream(st, n),
{
    crate::rc4::lemma_keystream_len(st, n);
    assert forall|x: u8| (0u8 ^ x) == x by {
        assert((0u8 ^ x) == x) by (bit_vector);
    }
    assert(crate::rc4::apply_keystream(st, Seq::new(n, |k: int| 0u8)) =~= crate::rc4::keystream(st, n));
}

/// What the responder's VC looks like on the wire: VC is zero, so it is the
/// next eight bytes of the decrypting keystream.
pub fn encrypted_vc(decrypt: &Rc4) -> (r: Vec<u8>)
    ensures
        r@ == crate::rc4::keystream(decrypt@, 8),
{
    let mut c = *decrypt;
    let mut buf = vec![0u8; 8];
    proof {
        assert(buf@ =~= Seq::new(8, |k: int| 0u8));
        lemma_xor_zero(c@, 8);
    }
    c.process_in_place(buf.as_mut_slice());
    buf
}

/// Decrypts `data` with `cipher`, advancing it.
pub fn decrypt_to_vec(cipher: &mut Rc4, data: &[u8]) -> (r: Vec<u8>)
    ensures
        r@ == crate::rc4::apply_keystream(old(cipher)@, data@),
        final(cipher)@ == crate::rc4::advance(old(cipher)@, data@.len()),
{
    encrypt_to_vec(cipher, data)
}

/// Decrypts four bytes and reads them as a big-endian `u32`.
pub fn decrypt_u32(cipher: &mut Rc4, data: &[u8]) -> (r: u32)
    requires
        data@.len() == 4,
    ensures
        r == from_be32(crate::rc4::apply_keystream(old(cipher)@, data@)),
        final(cipher)@ == crate::rc4::advance(old(cipher)@, 4),
{
    let plain = decrypt_to_vec(cipher, data);
    proof {
        crate::rc4::lemma_keystream_len(old(cipher)@, 4);
    }
    (plain[0] as u32) * 0x100_0000 + (plain[1] as u32) * 0x1_0000 + (plain[2] as u32) * 0x100
        + (plain[3] as u32)
}

/// Decrypts two bytes and reads them as a big-endian `u16`.
pub fn decrypt_u16(cipher: &mut Rc4, data: &[u8]) -> (r: u16)
    requires
        data@.len() == 2,
    ensures
        r == from_be16(crate::rc4::apply_keystream(old(cipher)@, data@)),
        final(cipher)@ == crate::rc4::advance(old(cipher)@, 2),
{
    let plain = decrypt_to_vec(cipher, data);
    proof {
        crate::rc4::lemma_keystream_len(old(cipher)@, 2);
    }
    (plain[0] as u16) * 0x100 + (plain[1] as u16)
}

/// A padding length is refused above `MAX_PAD_LEN`.
pub open spec fn pad_len_checked(len: u16) -> Result<usize, MseError> {
    if len > MAX_PAD_LEN {
        Err(MseError::PadTooLong(len as usize))
    } else {
        Ok(len as usize)
    }
}

/// Checks a padding length read from the peer.
pub fn check_pad_len(len: u16) -> (r: Result<usize, MseError>)
    ensures
        r == pad_len_checked(len),
{
    if len as usize > MAX_PAD_LEN {
        Err(MseError::PadTooLong(len as usize))
    } else {
        Ok(len as usize)
    }
}

/// The encryption the initiator ends with, given the responder's
/// `crypto_select`: RC4 when selected; plaintext when selected instead and
/// encryption is not forced; an error otherwise.
pub open spec fn initiator_outcome(select: u32, mode: EncryptionMode) -> Result<EncryptionStatus, MseError> {
    if select & CRYPTO_RC4 != 0 {
        Ok(EncryptionStatus::Rc4)
    } else if select & CRYPTO_PLAINTEXT != 0 {
        if mode == EncryptionMode::Forced {
            Err(MseError::PlaintextRefused)
        } else {
            Ok(EncryptionStatus::Plaintext)
        }
    } else {
        Err(MseError::UnknownCryptoSelect(select))
    }
}

/// Decides the initiator's encryption from the responder's `crypto_select`.
pub fn initiator_status(select: u32, mode: EncryptionMode) -> (r: Result<EncryptionStatus, MseError>)
    ensures
        r == initiator_outcome(select, mode),
{
    if select & CRYPTO_RC4 != 0 {
        Ok(EncryptionStatus::Rc4)
    } else if select & CRYPTO_PLAINTEXT != 0 {
        match mode {
            EncryptionMode::Forced => Err(MseError::PlaintextRefused),
            _ => Ok(EncryptionStatus::Plaintext),
        }
    } else {
        Err(MseError::UnknownCryptoSelect(select))
    }
}

// ----- the responder -----

/// The responder refuses to start without info hashes to match.
pub fn check_info_hashes(info_hashes: &[[u8; 20]]) -> (r: Result<(), MseError>)
    ensures
        r is Err <==> info_hashes@.len() == 0,
        r is Err ==> r == Err::<(), MseError>(MseError::NoInfoHashes),
{
    if info_hashes.len() == 0 {
        Err(MseError::NoInfoHashes)
    } else {
        Ok(())
    }
}

/// What the responder holds once it knows the info hash.
pub struct ResponderSession {
    /// The index of the matched info hash.
    pub info_hash_index: usize,
    /// Decrypts what the initiator sends.
    pub decrypt: Rc4,
    /// Encrypts what the responder sends.
    pub encrypt: Rc4,
}

/// The responder's step after reading `req2^req3`: find the first info hash
/// that gives it, and key both ciphers with it.
pub fn responder_on_obfuscated_hash(
    s_bytes: &[u8; 96],
    received: &[u8; 20],
    info_hashes: &[[u8; 20]],
) -> (r: Result<ResponderSession, MseError>)
    ensures
        match r {
            Err(e) => e == MseError::NoMatchingInfoHash && forall|j: int|
                0 <= j < info_hashes@.len() ==> obfuscated_skey(s_bytes@, #[trigger] info_hashes@[j]@)
                    != received@,
            Ok(sess) => {
                let i = sess.info_hash_index as int;
                let skey = info_hashes@[i]@;
                &&& 0 <= i < info_hashes@.len()
                &&& obfuscated_skey(s_bytes@, skey) == received@
                &&& forall|j: int|
                    0 <= j < i ==> obfuscated_skey(s_bytes@, #[trigger] info_hashes@[j]@) != received@
                &&& sess.decrypt@ == keyed_cipher(key_a_of(s_bytes@, skey))
                &&& sess.encrypt@ == keyed_cipher(key_b_of(s_bytes@, skey))
            },
        },
{
    match match_info_hash(s_bytes, received, info_hashes) {
        None => Err(MseError::NoMatchingInfoHash),
        Some(i) => {
            let ih = info_hashes[i];
            let keys = crate::mse::handshake_keys(s_bytes, &ih);
            let decrypt = new_keyed_cipher(&keys.key_a);
            let encrypt = new_keyed_cipher(&keys.key_b);
            Ok(ResponderSession { info_hash_index: i, decrypt, encrypt })
        },
    }
}

/// Decrypts the initiator's VC and refuses it unless it is all zeros.
pub fn check_vc(decrypt: &mut Rc4, vc_enc: &[u8]) -> (r: Result<(), MseError>)
    requires
        vc_enc@.len() == 8,
    ensures
        r is Ok <==> crate::rc4::apply_keystream(old(decrypt)@, vc_enc@) == vc(),
        r is Err ==> r == Err::<(), MseError>(MseError::VcMismatch),
        final(decrypt)@ == crate::rc4::advance(old(decrypt)@, 8),
{
    let plain = decrypt_to_vec(decrypt, vc_enc);
    let zeros = vec![0u8; 8];
    proof {
        crate::rc4::lemma_keystream_len(old(decrypt)@, 8);
        assert(zeros@ =~= vc());
    }
    if bytes_equal(plain.as_slice(), zeros.as_slice()) {
        Ok(())
    } else {
        Err(MseError::VcMismatch)
    }
}

/// The responder's choice among the methods the initiator provides: RC4 when
/// forced (and an error without it); else RC4 if provided, else plaintext if
/// provided, else an error.
pub open spec fn crypto_selection(provide: u32, mode: EncryptionMode) -> Result<u32, MseError> {
    if mode == EncryptionMode::Forced {
        if provide & CRYPTO_RC4 == 0 {
            Err(MseError::Rc4NotProvided)
        } else {
            Ok(CRYPTO_RC4)
        }
    } else if provide & CRYPTO_RC4 != 0 {
        Ok(CRYPTO_RC4)
    } else if provide & CRYPTO_PLAINTEXT != 0 {
        Ok(CRYPTO_PLAINTEXT)
    } else {
        Err(MseError::NoCompatibleCrypto(provide))
    }
}

/// Chooses the crypto method from the initiator's `crypto_provide`.
pub fn select_crypto(provide: u32, mode: EncryptionMode) -> (r: Result<u32, MseError>)
    ensures
        r == crypto_selection(provide, mode),
{
    match mode {
        EncryptionMode::Forced => {
            if provide & CRYPTO_RC4 == 0 {
                Err(MseError::Rc4NotProvided)
            } else {
                Ok(CRYPTO_RC4)
            }
        },
        _ => {
            if provide & CRYPTO_RC4 != 0 {
                Ok(CRYPTO_RC4)
            } else if provide & CRYPTO_PLAINTEXT != 0 {
                Ok(CRYPTO_PLAINTEXT)
            } else {
                Err(MseError::NoCompatibleCrypto(provide))
            }
        },
    }
}

/// The responder's answer before encryption: `VC, crypto_select, len(PadD), PadD`.
pub open spec fn responder_payload(select: u32, pad_d: Seq<u8>) -> Seq<u8> {
    vc() + be32(select) + be16(pad_d.len() as u16) + pad_d
}

/// The responder's answer, encrypted with key B.
pub fn responder_response(encrypt: &mut Rc4, select: u32, pad_d: &[u8]) -> (r: Vec<u8>)
    requires
        pad_d@.len() <= MAX_PAD_LEN,
    ensures
        r@ == crate::rc4::apply_keystream(old(encrypt)@, responder_payload(select, pad_d@)),
        final(encrypt)@ == crate::rc4::advance(old(encrypt)@, responder_payload(select, pad_d@).len()),
{
    let mut p: Vec<u8> = vec![0u8; 8];
    assert(p@ =~= vc());
    push_be32(&mut p, select);
    push_be16(&mut p, pad_d.len() as u16);
    push_all(&mut p, pad_d);
    encrypt_to_vec(encrypt, p.as_slice())
}

/// The encryption the responder ends with: RC4 exactly when it selected RC4.
pub fn responder_status(select: u32) -> (r: EncryptionStatus)
    ensures
        r == (if select == CRYPTO_RC4 { EncryptionStatus::Rc4 } else { EncryptionStatus::Plaintext }),
{
    if select == CRYPTO_RC4 {
        EncryptionStatus::Rc4
    } else {
        EncryptionStatus::Plaintext
    }
}

/// Whether an incoming connection speaks MSE: a plain BitTorrent handshake
/// starts with byte 19, the length of "BitTorrent protocol".
pub fn detect_mse(first_byte: u8) -> (r: bool)
    ensures
        r == (first_byte != crate::mse::BT_HANDSHAKE_FIRST_BYTE),
{
    first_byte != crate::mse::BT_HANDSHAKE_FIRST_BYTE
}

// ----- scanning for a synchronisation pattern -----

/// Where a scan stands.
#[derive(Debug, Clone, Copy, PartialEq, Eq, Structural)]
pub enum ScanStatus {
    /// The pattern has not been seen yet; feed another byte.
    Searching,
    /// The bytes fed so far end with the pattern.
    Found,
    /// The limit was reached without the pattern.
    Exhausted,
}

/// The bytes fed to a scanner, the pattern and the limit.
pub struct ScannerView {
    pub pattern: Seq<u8>,
    pub fed: Seq<u8>,
    pub limit: nat,
}

/// `fed` has `pattern` ending at position `t`.
pub open spec fn matches_at(fed: Seq<u8>, pattern: Seq<u8>, t: int) -> bool {
    &&& pattern.len() <= t <= fed.len()
    &&& fed.subrange(t - pattern.len(), t) == pattern
}

/// The status a scan has after the bytes in the view.
pub open spec fn scan_status(v: ScannerView) -> ScanStatus {
    if matches_at(v.fed, v.pattern, v.fed.len() as int) {
        ScanStatus::Found
    } else if v.fed.len() >= v.limit {
        ScanStatus::Exhausted
    } else {
        ScanStatus::Searching
    }
}

/// Looks for `pattern` in a stream fed byte by byte, giving up once `limit`
/// bytes were fed without it.
pub struct PatternScanner {
    pattern: Vec<u8>,
    window: Vec<u8>,
    seen: usize,
    limit: usize,
    fed: Ghost<Seq<u8>>,
}

impl View for PatternScanner {
    type V = ScannerView;

    closed spec fn view(&self) -> ScannerView {
        ScannerView { pattern: self.pattern@, fed: self.fed@, limit: self.limit as nat }
    }
}

impl PatternScanner {
    /// The scanner's internal consistency: the window holds the last bytes fed,
    /// and no earlier position matched.
    pub closed spec fn wf(&self) -> bool {
        let n = self.pattern@.len();
        let fed = self.fed@;
        &&& n > 0
        &&& self.limit >= n
        &&& self.seen == fed.len()
        &&& fed.len() <= self.limit
        &&& self.window@ == fed.subrange(if fed.len() >= n { fed.len() - n } else { 0 }, fed.len() as int)
        &&& forall|t: int| 0 <= t < fed.len() ==> !matches_at(fed, self.pattern@, t)
    }

    /// A scanner for `pattern` that gives up after `limit` bytes.
    pub fn new(pattern: Vec<u8>, limit: usize) -> (s: PatternScanner)
        requires
            pattern@.len() > 0,
            limit >= pattern@.len(),
        ensures
            s.wf(),
            s@ == (ScannerView { pattern: pattern@, fed: Seq::empty(), limit: limit as nat }),
    {
        let s = PatternScanner { pattern, window: Vec::new(), seen: 0, limit, fed: Ghost(Seq::empty()) };
        assert(s.window@ =~= s.fed@.subrange(0, 0));
        s
    }

    /// Where the scan stands.
    pub fn status(&self) -> (r: ScanStatus)
        requires
            self.wf(),
        ensures
            r == scan_status(self@),
    {
        let n = self.pattern.len();
        if self.window.len() == n && bytes_equal(self.window.as_slice(), self.pattern.as_slice()) {
            ScanStatus::Found
        } else if self.seen >= self.limit {
            ScanStatus::Exhausted
        } else {
            ScanStatus::Searching
        }
    }

    /// Feeds one more byte and says where the scan stands. No position before
    /// the last matches: a scan stops at the first occurrence.
    pub fn push(&mut self, b: u8) -> (r: ScanStatus)
        requires
            old(self).wf(),
            scan_status(old(self)@) == ScanStatus::Searching,
        ensures
            final(self).wf(),
            final(self)@ == (ScannerView { fed: old(self)@.fed.push(b), ..old(self)@ }),
            r == scan_status(final(self)@),
            forall|t: int| 0 <= t < final(self)@.fed.len() ==> !matches_at(final(self)@.fed, final(self)@.pattern, t),
    {
        let ghost old_fed = self.fed@;
        let ghost n = self.pattern@.len();
        let ghost new_fed = old_fed.push(b);
        proof {
            assert forall|t: int| 0 <= t < new_fed.len() implies !matches_at(new_fed, self.pattern@, t) by {
                if t < old_fed.len() {
                    assert(!matches_at(old_fed, self.pattern@, t));
                    if matches_at(new_fed, self.pattern@, t) {
                        assert(new_fed.subrange(t - n, t) =~= old_fed.subrange(t - n, t));
                    }
                } else {
                    assert(t == old_fed.len());
                    assert(!matches_at(old_fed, self.pattern@, t));
                    if matches_at(new_fed, self.pattern@, t) {
                        assert(new_fed.subrange(t - n, t) =~= old_fed.subrange(t - n, t));
                    }
                }
            }
        }
        self.window.push(b);
        if self.window.len() > self.pattern.len() {
            self.window.remove(0);
        }
        self.seen = self.seen + 1;
        self.fed = Ghost(new_fed);
        proof {
            let lo = if new_fed.len() >= n { new_fed.len() - n } else { 0int };
            assert(self.window@ =~= new_fed.subrange(lo, new_fed.len() as int));
        }
        self.status()
    }
}

// ----- laws -----

/// The public key of a private key: `2 ^ private mod p`.
pub open spec fn public_key_of(private: Seq<u8>) -> Seq<u8> {
    crate::mse::modpow_bytes(seq![crate::mse::DH_GENERATOR], private, crate::mse::dh_prime_seq())
}

/// Key agreement: two sides with private keys `a` and `b`, each sending its
/// public key as 96 bytes, derive the same secret `S` from what the other
/// sent, and so the same RC4 keys for each direction.
pub proof fn lemma_key_agreement(a: Seq<u8>, b: Seq<u8>, skey: Seq<u8>)
    ensures
        shared_secret_bytes(a, crate::mse::to_96_bytes(public_key_of(b)))
            == shared_secret_bytes(b, crate::mse::to_96_bytes(public_key_of(a))),
        key_a_of(shared_secret_bytes(a, crate::mse::to_96_bytes(public_key_of(b))), skey)
            == key_a_of(shared_secret_bytes(b, crate::mse::to_96_bytes(public_key_of(a))), skey),
        key_b_of(shared_secret_bytes(a, crate::mse::to_96_bytes(public_key_of(b))), skey)
            == key_b_of(shared_secret_bytes(b, crate::mse::to_96_bytes(public_key_of(a))), skey),
{
    let va = crate::mse::be_value(a);
    let vb = crate::mse::be_value(b);
    lemma_agreed_value(a, b);
    lemma_agreed_value(b, a);
    assert(vb * va == va * vb) by (nonlinear_arith);
}

/// The secret one side derives from the other's public key is
/// `2 ^ (b * a) mod p`.
proof fn lemma_agreed_value(a: Seq<u8>, b: Seq<u8>)
    ensures
        shared_secret_bytes(a, crate::mse::to_96_bytes(public_key_of(b))) == crate::mse::to_96_bytes(
            crate::mse::be_bytes(
                (vstd::arithmetic::power::pow(2, crate::mse::be_value(b) * crate::mse::be_value(a))
                    % (crate::mse::be_value(crate::mse::dh_prime_seq()) as int)) as nat,
            ),
        ),
{
    let pr = crate::mse::dh_prime_seq();
    let p = crate::mse::be_value(pr) as int;
    crate::mse::lemma_prime_value();
    crate::mse::lemma_be_value_bound(pr);
    let g = seq![crate::mse::DH_GENERATOR];
    assert(g.drop_last() =~= Seq::<u8>::empty());
    assert(crate::mse::be_value(Seq::<u8>::empty()) == 0);
    assert(g.last() == 2u8);
    assert(crate::mse::be_value(g) == crate::mse::be_value(g.drop_last()) * 256 + (g.last() as nat));
    assert(crate::mse::be_value(g) == 2);
    let va = crate::mse::be_value(a);
    let vb = crate::mse::be_value(b);
    let yb_val = vstd::arithmetic::power::pow(2, vb) % p;
    let yb = public_key_of(b);
    assert(yb == crate::mse::be_bytes(yb_val as nat));
    crate::mse::lemma_be_bytes_len(yb_val as nat, 96);
    crate::mse::lemma_be_roundtrip(yb_val as nat);
    crate::mse::lemma_be_value_96(yb);
    assert(crate::mse::be_value(crate::mse::to_96_bytes(yb)) == yb_val);
    vstd::arithmetic::power::lemma_pow_mod_noop(vstd::arithmetic::power::pow(2, vb), va, p);
    vstd::arithmetic::power::lemma_pow_multiplies(2, vb, va);
}


/// Whatever the two sides' modes, the methods an initiator offers make the
/// responder select RC4, and the initiator then ends encrypted with RC4: two
/// peers of this library always encrypt.
pub proof fn lemma_negotiation_selects_rc4(initiator_mode: EncryptionMode, responder_mode: EncryptionMode)
    ensures
        crypto_selection(crypto_provide(initiator_mode), responder_mode) == Ok::<u32, MseError>(CRYPTO_RC4),
        initiator_outcome(CRYPTO_RC4, initiator_mode) == Ok::<EncryptionStatus, MseError>(EncryptionStatus::Rc4),
{
    assert((1u32 | 2u32) & 2u32 != 0u32) by (bit_vector);
    assert(2u32 & 2u32 != 0u32) by (bit_vector);
}

/// A responder that shares the secret `S` and has the info hash `SKEY`
/// finds in the initiator's message, right after its key exchange, what it
/// looks for: `HASH('req1', S)` first, then `HASH('req2', SKEY) xor
/// HASH('req3', S)`, then bytes that its key-A cipher decrypts to the
/// initiator's payload, whose first eight bytes are the VC. (SHA-1 gives 20
/// bytes.)
pub proof fn lemma_initiator_message_readable(s: Seq<u8>, skey: Seq<u8>, mode: EncryptionMode, pad_c: Seq<u8>)
    requires
        req1_of(s).len() == 20,
        crate::mse::hash2(seq!['r', 'e', 'q', '2'], skey).len() == 20,
    ensures
        ({
            let m = initiator_message(s, skey, mode, pad_c);
            let c = keyed_cipher(key_a_of(s, skey));
            &&& m.subrange(0, 20) == req1_of(s)
            &&& m.subrange(20, 40) == obfuscated_skey(s, skey)
            &&& crate::rc4::apply_keystream(c, m.skip(40)) == initiator_payload(mode, pad_c)
            &&& crate::rc4::apply_keystream(c, m.skip(40)).take(8) == vc()
        }),
{
    let m = initiator_message(s, skey, mode, pad_c);
    let c = keyed_cipher(key_a_of(s, skey));
    let p = initiator_payload(mode, pad_c);
    let sealed = crate::rc4::apply_keystream(c, p);
    assert(obfuscated_skey(s, skey).len() == 20);
    assert(m.subrange(0, 20) =~= req1_of(s));
    assert(m.subrange(20, 40) =~= obfuscated_skey(s, skey));
    assert(m.skip(40) =~= sealed);
    crate::rc4::lemma_rc4_symmetric(c, p);
    assert(p.take(8) =~= vc());
}

/// The responder's answer, decrypted with the initiator's key-B cipher at the
/// same position, is the VC followed by `crypto_select`, the padding length
/// and the padding; on the wire its first eight bytes are the keystream,
/// which is what the initiator scans for.
pub proof fn lemma_responder_answer_readable(c: crate::rc4::Rc4View, select: u32, pad_d: Seq<u8>)
    ensures
        crate::rc4::apply_keystream(c, crate::rc4::apply_keystream(c, responder_payload(select, pad_d)))
            == responder_payload(select, pad_d),
        crate::rc4::apply_keystream(c, crate::rc4::apply_keystream(c, responder_payload(select, pad_d))).take(8)
            == vc(),
        crate::rc4::apply_keystream(c, responder_payload(select, pad_d)).take(8) == crate::rc4::keystream(c, 8),
{
    let p = responder_payload(select, pad_d);
    crate::rc4::lemma_rc4_symmetric(c, p);
    assert(p.take(8) =~= vc());
    lemma_xor_zero(c, 8);
    crate::rc4::lemma_process_in_pieces(c, vc(), p.skip(8));
    assert(vc() + p.skip(8) =~= p);
    crate::rc4::lemma_keystream_len(c, 8);
    assert(crate::rc4::apply_keystream(c, p).take(8) =~= crate::rc4::apply_keystream(c, vc()));
}

/// Bytes of padding followed by the pattern, fed to a scanner whose limit
/// they do not exceed, end the scan at the pattern.
pub proof fn lemma_scan_finds_pattern(pattern: Seq<u8>, pad: Seq<u8>, limit: nat)
    requires
        pattern.len() > 0,
        pad.len() + pattern.len() <= limit,
    ensures
        scan_status(ScannerView { pattern, fed: pad + pattern, limit }) == ScanStatus::Found,
{
    let fed = pad + pattern;
    assert(fed.subrange(fed.len() - pattern.len(), fed.len() as int) =~= pattern);
}

} // verus!
