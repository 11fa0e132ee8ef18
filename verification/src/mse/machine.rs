//! The MSE handshake of either side as a machine stepped by the network
//! driver: each step takes what was read and gives what to do next, in the
//! protocol's order. The driver only reads, writes and scans.
use vstd::prelude::*;
use crate::rc4::Rc4;
use crate::mse::{EncryptionMode, EncryptionStatus, MseError, MAX_PAD_LEN, dh_keypair};
use crate::mse::handshake::{
    check_info_hashes, check_pad_len, check_peer_key, check_vc, crypto_selection, decrypt_to_vec, decrypt_u16,
    decrypt_u32, encrypted_vc, from_be16, from_be32, initiator_on_peer_key, initiator_outcome, initiator_status,
    key_exchange_message, pad_len_checked, random_pad, req1_of, req1_pattern, responder_on_obfuscated_hash,
    responder_payload, responder_response, responder_status, select_crypto, shared_secret, shared_secret_bytes, vc,
};

verus! {

/// What the driver does next.
pub enum HandshakeAction {
    /// Read this many bytes and step with them.
    Read(usize),
    /// Send the bytes, then read this many and step with them.
    SendThenRead(Vec<u8>, usize),
    /// Send the bytes, then feed the stream to a `PatternScanner` for the
    /// pattern within the limit, and step with nothing once it is found;
    /// the handshake fails with the error when it is not.
    SendThenScan(Vec<u8>, Vec<u8>, usize, MseError),
    /// Send the bytes (if any): the handshake is complete, with this encryption.
    Finish(Vec<u8>, EncryptionStatus),
    /// The handshake fails.
    Fail(MseError),
}

/// The responder's last step: the crypto method selected from what the
/// initiator provides, and the answer encrypted with the cipher as it stood
/// (`before`), which then stands `after`.
pub open spec fn responder_finished(
    before: Option<crate::rc4::Rc4View>,
    after: Option<crate::rc4::Rc4View>,
    provide: u32,
    mode: EncryptionMode,
    a: HandshakeAction,
) -> bool {
    match crypto_selection(provide, mode) {
        Err(e) => a == HandshakeAction::Fail(e),
        Ok(select) => a matches HandshakeAction::Finish(m, st) && st == (if select == crate::mse::CRYPTO_RC4 {
            EncryptionStatus::Rc4
        } else {
            EncryptionStatus::Plaintext
        }) && exists|pad: Seq<u8>| #[trigger] responder_payload(select, pad).len() >= 0 && pad.len() <= MAX_PAD_LEN
            && m@ == crate::rc4::apply_keystream(before->0, responder_payload(select, pad))
            && after == Some(crate::rc4::advance(before->0, responder_payload(select, pad).len())),
    }
}

/// The responder after reading the initiator's key: a weak key fails;
/// otherwise it sends its own key and padding, and scans for `HASH('req1', S)`
/// of the secret it shares.
pub open spec fn responder_after_key(input: Seq<u8>, new: ResponderHandshake, a: HandshakeAction) -> bool {
    if crate::mse::is_zero_or_one(input) {
        a == HandshakeAction::Fail(MseError::WeakPublicKey) && new.stage() == ResponderStage::Done
    } else {
        &&& new.stage() == ResponderStage::Req1
        &&& a matches HandshakeAction::SendThenScan(m, pattern, limit, e)
        &&& pattern@ == req1_of(new.secret())
        &&& limit == MAX_PAD_LEN + 20
        &&& e == MseError::Req1NotFound
        &&& exists|private: Seq<u8>, pad: Seq<u8>|
            private.len() == 20 && pad.len() <= MAX_PAD_LEN
            && new.secret() == shared_secret_bytes(private, input)
            && m@ == #[trigger] (crate::mse::to_96_bytes(crate::mse::handshake::public_key_of(private)) + pad)
    }
}

/// The responder after reading `req2^req3`: the first info hash that gives
/// it keys both ciphers; none fails.
pub open spec fn responder_after_hash(old: ResponderHandshake, input: Seq<u8>, new: ResponderHandshake, a: HandshakeAction) -> bool {
    if forall|j: int| 0 <= j < old.hashes().len()
        ==> crate::mse::handshake::obfuscated_skey(old.secret(), #[trigger] old.hashes()[j]@) != input {
        a == HandshakeAction::Fail(MseError::NoMatchingInfoHash) && new.stage() == ResponderStage::Done
    } else {
        let i = new.matched();
        let skey = old.hashes()[i]@;
        &&& a == HandshakeAction::Read(8)
        &&& new.stage() == ResponderStage::Vc
        &&& 0 <= i < old.hashes().len()
        &&& crate::mse::handshake::obfuscated_skey(old.secret(), skey) == input
        &&& forall|j: int| 0 <= j < i ==> crate::mse::handshake::obfuscated_skey(old.secret(), #[trigger] old.hashes()[j]@) != input
        &&& new.decrypt_view() == Some(crate::mse::handshake::keyed_cipher(crate::mse::handshake::key_a_of(old.secret(), skey)))
        &&& new.encrypt_view() == Some(crate::mse::handshake::keyed_cipher(crate::mse::handshake::key_b_of(old.secret(), skey)))
    }
}

/// Where the responder's handshake stands: what it waits for.
#[derive(Debug, Clone, Copy, PartialEq, Eq, Structural)]
pub enum ResponderStage {
    /// Nothing yet.
    Start,
    /// The initiator's public key `Ya`.
    PeerKey,
    /// `HASH('req1', S)` was found in the stream.
    Req1,
    /// `HASH('req2', SKEY) xor HASH('req3', S)`.
    ObfuscatedHash,
    /// The encrypted verification constant.
    Vc,
    /// `crypto_provide`.
    Provide,
    /// `len(PadC)`.
    PadCLen,
    /// `PadC`.
    PadC,
    /// `len(IA)`.
    IaLen,
    /// `IA`.
    Ia,
    /// Complete or failed.
    Done,
}

/// The responder's handshake.
pub struct ResponderHandshake {
    stage: ResponderStage,
    mode: EncryptionMode,
    info_hashes: Vec<[u8; 20]>,
    s_bytes: [u8; 96],
    decrypt: Option<Rc4>,
    encrypt: Option<Rc4>,
    info_hash_index: usize,
    provide: u32,
    pending: usize,
    ia: Vec<u8>,
}

impl ResponderHandshake {
    pub closed spec fn stage(&self) -> ResponderStage {
        self.stage
    }

    /// The encryption mode.
    pub closed spec fn mode_of(&self) -> EncryptionMode {
        self.mode
    }

    /// The shared secret, once the initiator's key is read.
    pub closed spec fn secret(&self) -> Seq<u8> {
        self.s_bytes@
    }

    /// The decrypting cipher's state, once the info hash is known.
    pub closed spec fn decrypt_view(&self) -> Option<crate::rc4::Rc4View> {
        crate::mse::stream::cipher_state(self.decrypt)
    }

    /// The encrypting cipher's state, once the info hash is known.
    pub closed spec fn encrypt_view(&self) -> Option<crate::rc4::Rc4View> {
        crate::mse::stream::cipher_state(self.encrypt)
    }

    /// The info hashes it matches against.
    pub closed spec fn hashes(&self) -> Seq<[u8; 20]> {
        self.info_hashes@
    }

    /// The index of the matched info hash.
    pub closed spec fn matched(&self) -> int {
        self.info_hash_index as int
    }

    /// The `crypto_provide` read.
    pub closed spec fn provided(&self) -> u32 {
        self.provide
    }

    /// The initial payload `IA` read.
    pub closed spec fn initial_payload(&self) -> Seq<u8> {
        self.ia@
    }

    /// The ciphers are there from the info hash on, and the matched index
    /// names an info hash.
    pub closed spec fn wf(&self) -> bool {
        let keyed = match self.stage {
            ResponderStage::Start | ResponderStage::PeerKey | ResponderStage::Req1 | ResponderStage::ObfuscatedHash
                | ResponderStage::Done => false,
            _ => true,
        };
        &&& keyed ==> self.decrypt is Some && self.encrypt is Some && self.info_hash_index < self.info_hashes@.len()
        &&& self.pending <= u16::MAX
    }

    /// How many bytes the next step takes.
    pub closed spec fn expected_len(&self) -> nat {
        match self.stage {
            ResponderStage::PeerKey => 96,
            ResponderStage::ObfuscatedHash => 20,
            ResponderStage::Vc => 8,
            ResponderStage::Provide => 4,
            ResponderStage::PadCLen => 2,
            ResponderStage::IaLen => 2,
            ResponderStage::PadC | ResponderStage::Ia => self.pending as nat,
            _ => 0,
        }
    }

    /// A responder trying `info_hashes`, under `mode`.
    pub fn new(info_hashes: Vec<[u8; 20]>, mode: EncryptionMode) -> (h: ResponderHandshake)
        ensures
            h.wf(),
            h.stage() == ResponderStage::Start,
            h.hashes() == info_hashes@,
    {
        ResponderHandshake {
            stage: ResponderStage::Start,
            mode,
            info_hashes,
            s_bytes: [0u8; 96],
            decrypt: None,
            encrypt: None,
            info_hash_index: 0,
            provide: 0,
            pending: 0,
            ia: Vec::new(),
        }
    }

    /// How many bytes the next step takes.
    pub fn expects(&self) -> (n: usize)
        requires
            self.wf(),
        ensures
            n == self.expected_len(),
    {
        match self.stage {
            ResponderStage::PeerKey => 96,
            ResponderStage::ObfuscatedHash => 20,
            ResponderStage::Vc => 8,
            ResponderStage::Provide => 4,
            ResponderStage::PadCLen => 2,
            ResponderStage::IaLen => 2,
            ResponderStage::PadC | ResponderStage::Ia => self.pending,
            _ => 0,
        }
    }

    /// The index of the matched info hash.
    pub fn info_hash_index(&self) -> (i: usize)
        ensures
            i == self.matched(),
    {
        self.info_hash_index
    }

    /// The ciphers and the initial payload, once the handshake is complete.
    pub fn into_parts(self) -> (r: (Option<Rc4>, Option<Rc4>, Vec<u8>))
        ensures
            crate::mse::stream::cipher_state(r.0) == self.decrypt_view(),
            crate::mse::stream::cipher_state(r.1) == self.encrypt_view(),
            r.2@ == self.initial_payload(),
    {
        (self.decrypt, self.encrypt, self.ia)
    }

    /// One step of the responder: from what it waits for and the bytes read
    /// for it, what it does next, in the protocol's order.
    #[verifier::rlimit(60)]
    #[verifier::spinoff_prover]
    pub fn step(&mut self, input: &[u8]) -> (a: HandshakeAction)
        requires
            old(self).wf(),
            old(self).stage() != ResponderStage::Done,
            input@.len() == old(self).expected_len(),
        ensures
            final(self).wf(),
            final(self).hashes() == old(self).hashes(),
            final(self).mode_of() == old(self).mode_of(),
            match old(self).stage() {
                ResponderStage::Start => if old(self).hashes().len() == 0 {
                    a == HandshakeAction::Fail(MseError::NoInfoHashes) && final(self).stage() == ResponderStage::Done
                } else {
                    a == HandshakeAction::Read(96) && final(self).stage() == ResponderStage::PeerKey
                },
                ResponderStage::PeerKey => responder_after_key(input@, *final(self), a),
                ResponderStage::Req1 => a == HandshakeAction::Read(20) && final(self).stage() == ResponderStage::ObfuscatedHash
                    && final(self).secret() == old(self).secret(),
                ResponderStage::ObfuscatedHash => responder_after_hash(*old(self), input@, *final(self), a),
                ResponderStage::Vc => {
                    &&& final(self).decrypt_view() == Some(crate::rc4::advance(old(self).decrypt_view()->0, 8))
                    &&& if crate::rc4::apply_keystream(old(self).decrypt_view()->0, input@) == vc() {
                        a == HandshakeAction::Read(4) && final(self).stage() == ResponderStage::Provide
                            && final(self).encrypt_view() == old(self).encrypt_view()
                    } else {
                        a == HandshakeAction::Fail(MseError::VcMismatch) && final(self).stage() == ResponderStage::Done
                    }
                },
                ResponderStage::Provide => {
                    &&& a == HandshakeAction::Read(2)
                    &&& final(self).stage() == ResponderStage::PadCLen
                    &&& final(self).provided() == from_be32(crate::rc4::apply_keystream(old(self).decrypt_view()->0, input@))
                    &&& final(self).decrypt_view() == Some(crate::rc4::advance(old(self).decrypt_view()->0, 4))
                    &&& final(self).encrypt_view() == old(self).encrypt_view()
                },
                ResponderStage::PadCLen => {
                    let n = from_be16(crate::rc4::apply_keystream(old(self).decrypt_view()->0, input@));
                    &&& final(self).decrypt_view() == Some(crate::rc4::advance(old(self).decrypt_view()->0, 2))
                    &&& final(self).encrypt_view() == old(self).encrypt_view()
                    &&& final(self).provided() == old(self).provided()
                    &&& match pad_len_checked(n as u16) {
                        Err(e) => a == HandshakeAction::Fail(e) && final(self).stage() == ResponderStage::Done,
                        Ok(k) => if k > 0 {
                            a == HandshakeAction::Read(k) && final(self).stage() == ResponderStage::PadC
                        } else {
                            a == HandshakeAction::Read(2) && final(self).stage() == ResponderStage::IaLen
                        },
                    }
                },
                ResponderStage::PadC => {
                    &&& a == HandshakeAction::Read(2)
                    &&& final(self).stage() == ResponderStage::IaLen
                    &&& final(self).decrypt_view() == Some(crate::rc4::advance(old(self).decrypt_view()->0, input@.len()))
                    &&& final(self).encrypt_view() == old(self).encrypt_view()
                    &&& final(self).provided() == old(self).provided()
                },
                ResponderStage::IaLen => {
                    let l = from_be16(crate::rc4::apply_keystream(old(self).decrypt_view()->0, input@));
                    &&& final(self).decrypt_view() == Some(crate::rc4::advance(old(self).decrypt_view()->0, 2))
                    &&& if l > 0 {
                        a == HandshakeAction::Read(l as usize) && final(self).stage() == ResponderStage::Ia
                            && final(self).encrypt_view() == old(self).encrypt_view()
                            && final(self).provided() == old(self).provided()
                    } else {
                        final(self).stage() == ResponderStage::Done
                            && responder_finished(old(self).encrypt_view(), final(self).encrypt_view(), old(self).provided(), old(self).mode_of(), a)
                    }
                },
                ResponderStage::Ia => {
                    &&& final(self).stage() == ResponderStage::Done
                    &&& final(self).initial_payload() == crate::rc4::apply_keystream(old(self).decrypt_view()->0, input@)
                    &&& final(self).decrypt_view() == Some(crate::rc4::advance(old(self).decrypt_view()->0, input@.len()))
                    &&& responder_finished(old(self).encrypt_view(), final(self).encrypt_view(), old(self).provided(), old(self).mode_of(), a)
                },
                ResponderStage::Done => true,
            },
    {
        match self.stage {
            ResponderStage::Start => {
                match check_info_hashes(self.info_hashes.as_slice()) {
                    Err(e) => {
                        self.stage = ResponderStage::Done;
                        HandshakeAction::Fail(e)
                    },
                    Ok(()) => {
                        self.stage = ResponderStage::PeerKey;
                        HandshakeAction::Read(96)
                    },
                }
            },
            ResponderStage::PeerKey => self.on_peer_key(input),
            ResponderStage::Req1 => {
                self.stage = ResponderStage::ObfuscatedHash;
                HandshakeAction::Read(20)
            },
            ResponderStage::ObfuscatedHash => self.on_obfuscated_hash(input),
            ResponderStage::Vc => {
                let r = match &mut self.decrypt {
                    Some(c) => check_vc(c, input),
                    None => Err(MseError::VcMismatch),
                };
                match r {
                    Err(e) => {
                        self.stage = ResponderStage::Done;
                        HandshakeAction::Fail(e)
                    },
                    Ok(()) => {
                        self.stage = ResponderStage::Provide;
                        HandshakeAction::Read(4)
                    },
                }
            },
            ResponderStage::Provide => {
                let provide = match &mut self.decrypt {
                    Some(c) => decrypt_u32(c, input),
                    None => 0,
                };
                self.provide = provide;
                self.stage = ResponderStage::PadCLen;
                HandshakeAction::Read(2)
            },
            ResponderStage::PadCLen => {
                let n = match &mut self.decrypt {
                    Some(c) => decrypt_u16(c, input),
                    None => 0,
                };
                match check_pad_len(n) {
                    Err(e) => {
                        self.stage = ResponderStage::Done;
                        HandshakeAction::Fail(e)
                    },
                    Ok(k) => if k > 0 {
                        self.pending = k;
                        self.stage = ResponderStage::PadC;
                        HandshakeAction::Read(k)
                    } else {
                        self.stage = ResponderStage::IaLen;
                        HandshakeAction::Read(2)
                    },
                }
            },
            ResponderStage::PadC => {
                match &mut self.decrypt {
                    Some(c) => {
                        decrypt_to_vec(c, input);
                    },
                    None => {},
                }
                self.stage = ResponderStage::IaLen;
                HandshakeAction::Read(2)
            },
            ResponderStage::IaLen => {
                let l = match &mut self.decrypt {
                    Some(c) => decrypt_u16(c, input),
                    None => 0,
                };
                if l > 0 {
                    self.pending = l as usize;
                    self.stage = ResponderStage::Ia;
                    HandshakeAction::Read(l as usize)
                } else {
                    self.finish()
                }
            },
            ResponderStage::Ia => {
                let ia = match &mut self.decrypt {
                    Some(c) => decrypt_to_vec(c, input),
                    None => Vec::new(),
                };
                self.ia = ia;
                self.finish()
            },
            ResponderStage::Done => HandshakeAction::Fail(MseError::VcMismatch),
        }
    }

    fn on_peer_key(&mut self, input: &[u8]) -> (a: HandshakeAction)
        requires
            old(self).wf(),
            old(self).stage() == ResponderStage::PeerKey,
            input@.len() == 96,
        ensures
            final(self).wf(),
            final(self).hashes() == old(self).hashes(),
            final(self).mode_of() == old(self).mode_of(),
            responder_after_key(input@, *final(self), a),
    {
        if let Err(e) = check_peer_key(input) {
            self.stage = ResponderStage::Done;
            return HandshakeAction::Fail(e);
        }
        let (my_private, my_public) = dh_keypair();
        let pad_b = random_pad();
        let m = key_exchange_message(my_public.as_slice(), pad_b.as_slice());
        self.s_bytes = shared_secret(my_private.as_slice(), input);
        let pattern = req1_pattern(&self.s_bytes);
        self.stage = ResponderStage::Req1;
        assert(self.s_bytes@ == shared_secret_bytes(my_private@, input@));
        assert(my_public@ == crate::mse::handshake::public_key_of(my_private@));
        assert(m@ == crate::mse::to_96_bytes(crate::mse::handshake::public_key_of(my_private@)) + pad_b@);
        HandshakeAction::SendThenScan(m, pattern, MAX_PAD_LEN + 20, MseError::Req1NotFound)
    }

    fn on_obfuscated_hash(&mut self, input: &[u8]) -> (a: HandshakeAction)
        requires
            old(self).wf(),
            old(self).stage() == ResponderStage::ObfuscatedHash,
            input@.len() == 20,
        ensures
            final(self).wf(),
            final(self).hashes() == old(self).hashes(),
            final(self).mode_of() == old(self).mode_of(),
            responder_after_hash(*old(self), input@, *final(self), a),
    {
        let mut received = [0u8; 20];
        let mut k: usize = 0;
        while k < 20
            invariant
                0 <= k <= 20,
                input@.len() == 20,
                forall|m: int| 0 <= m < k ==> received@[m] == input@[m],
            decreases 20 - k,
        {
            received[k] = input[k];
            k = k + 1;
        }
        assert(received@ =~= input@);
        match responder_on_obfuscated_hash(&self.s_bytes, &received, self.info_hashes.as_slice()) {
            Err(e) => {
                self.stage = ResponderStage::Done;
                HandshakeAction::Fail(e)
            },
            Ok(session) => {
                self.info_hash_index = session.info_hash_index;
                self.decrypt = Some(session.decrypt);
                self.encrypt = Some(session.encrypt);
                self.stage = ResponderStage::Vc;
                HandshakeAction::Read(8)
            },
        }
    }

    /// The end: select the crypto method, and answer with it.
    fn finish(&mut self) -> (a: HandshakeAction)
        requires
            old(self).wf(),
            old(self).stage() == ResponderStage::PadC || old(self).stage() == ResponderStage::IaLen
                || old(self).stage() == ResponderStage::Ia,
        ensures
            final(self).wf(),
            final(self).stage() == ResponderStage::Done,
            final(self).hashes() == old(self).hashes(),
            final(self).mode_of() == old(self).mode_of(),
            final(self).decrypt_view() == old(self).decrypt_view(),
            final(self).matched() == old(self).matched(),
            final(self).initial_payload() == old(self).initial_payload(),
            responder_finished(old(self).encrypt_view(), final(self).encrypt_view(), old(self).provided(), old(self).mode_of(), a),
    {
        self.stage = ResponderStage::Done;
        match select_crypto(self.provide, self.mode) {
            Err(e) => HandshakeAction::Fail(e),
            Ok(select) => {
                let pad_d = random_pad();
                match &mut self.encrypt {
                    Some(c) => {
                        let m = responder_response(c, select, pad_d.as_slice());
                        let a = HandshakeAction::Finish(m, responder_status(select));
                        assert(responder_payload(select, pad_d@).len() >= 0);
                        a
                    },
                    None => HandshakeAction::Fail(MseError::VcMismatch),
                }
            },
        }
    }
}

/// Where the initiator's handshake stands: what it waits for.
#[derive(Debug, Clone, Copy, PartialEq, Eq, Structural)]
pub enum InitiatorStage {
    /// Nothing yet.
    Start,
    /// The responder's public key `Yb`.
    PeerKey,
    /// The encrypted verification constant was found in the stream.
    VcFound,
    /// `crypto_select`.
    Select,
    /// `len(PadD)`.
    PadDLen,
    /// `PadD`.
    PadD,
    /// Complete or failed.
    Done,
}

/// The initiator's handshake.
pub struct InitiatorHandshake {
    stage: InitiatorStage,
    mode: EncryptionMode,
    info_hash: [u8; 20],
    my_private: Vec<u8>,
    decrypt: Option<Rc4>,
    encrypt: Option<Rc4>,
    select: u32,
    pending: usize,
}

/// The initiator's first step: it sends a fresh public key and padding, and
/// reads the responder's key.
pub open spec fn initiator_after_start(new: InitiatorHandshake, a: HandshakeAction) -> bool {
    &&& new.stage() == InitiatorStage::PeerKey
    &&& a matches HandshakeAction::SendThenRead(m, n)
    &&& n == 96
    &&& new.private().len() == 20
    &&& exists|pad: Seq<u8>| pad.len() <= MAX_PAD_LEN
        && m@ == #[trigger] (crate::mse::to_96_bytes(crate::mse::handshake::public_key_of(new.private())) + pad)
}

/// The initiator after reading the responder's key: a weak key fails;
/// otherwise it sends `req1`, the obfuscated info hash and its encrypted
/// offer, and scans for the responder's encrypted verification constant.
pub open spec fn initiator_after_key(old: InitiatorHandshake, input: Seq<u8>, new: InitiatorHandshake, a: HandshakeAction) -> bool {
    let s = shared_secret_bytes(old.private(), input);
    let ih = old.hash();
    if crate::mse::is_zero_or_one(input) {
        a == HandshakeAction::Fail(MseError::WeakPublicKey) && new.stage() == InitiatorStage::Done
    } else {
        &&& new.stage() == InitiatorStage::VcFound
        &&& new.decrypt_view() == Some(crate::mse::handshake::keyed_cipher(crate::mse::handshake::key_b_of(s, ih)))
        &&& a matches HandshakeAction::SendThenScan(m, pattern, limit, e)
        &&& pattern@ == crate::rc4::keystream(new.decrypt_view()->0, 8)
        &&& limit == MAX_PAD_LEN + 8
        &&& e == MseError::VcNotFound
        &&& exists|pad: Seq<u8>| pad.len() <= MAX_PAD_LEN
            && m@ == #[trigger] crate::mse::handshake::initiator_message(s, ih, old.mode_of(), pad)
            && new.encrypt_view() == Some(crate::rc4::advance(
                crate::mse::handshake::keyed_cipher(crate::mse::handshake::key_a_of(s, ih)),
                crate::mse::handshake::initiator_payload(old.mode_of(), pad).len(),
            ))
    }
}

impl InitiatorHandshake {
    pub closed spec fn stage(&self) -> InitiatorStage {
        self.stage
    }

    /// The encryption mode.
    pub closed spec fn mode_of(&self) -> EncryptionMode {
        self.mode
    }

    /// The info hash of the torrent.
    pub closed spec fn hash(&self) -> Seq<u8> {
        self.info_hash@
    }

    /// The private key, once made.
    pub closed spec fn private(&self) -> Seq<u8> {
        self.my_private@
    }

    /// The decrypting cipher's state, once keyed.
    pub closed spec fn decrypt_view(&self) -> Option<crate::rc4::Rc4View> {
        crate::mse::stream::cipher_state(self.decrypt)
    }

    /// The encrypting cipher's state, once keyed.
    pub closed spec fn encrypt_view(&self) -> Option<crate::rc4::Rc4View> {
        crate::mse::stream::cipher_state(self.encrypt)
    }

    /// The `crypto_select` read.
    pub closed spec fn selected(&self) -> u32 {
        self.select
    }

    /// The ciphers are there once the responder's key is read.
    pub closed spec fn wf(&self) -> bool {
        let keyed = match self.stage {
            InitiatorStage::VcFound | InitiatorStage::Select | InitiatorStage::PadDLen | InitiatorStage::PadD => true,
            _ => false,
        };
        &&& keyed ==> self.decrypt is Some && self.encrypt is Some
        &&& self.pending <= u16::MAX
    }

    /// How many bytes the next step takes.
    pub closed spec fn expected_len(&self) -> nat {
        match self.stage {
            InitiatorStage::PeerKey => 96,
            InitiatorStage::Select => 4,
            InitiatorStage::PadDLen => 2,
            InitiatorStage::PadD => self.pending as nat,
            _ => 0,
        }
    }

    /// An initiator for the torrent `info_hash`, under `mode`.
    pub fn new(info_hash: [u8; 20], mode: EncryptionMode) -> (h: InitiatorHandshake)
        ensures
            h.wf(),
            h.stage() == InitiatorStage::Start,
            h.hash() == info_hash@,
            h.mode_of() == mode,
    {
        InitiatorHandshake {
            stage: InitiatorStage::Start,
            mode,
            info_hash,
            my_private: Vec::new(),
            decrypt: None,
            encrypt: None,
            select: 0,
            pending: 0,
        }
    }

    /// How many bytes the next step takes.
    pub fn expects(&self) -> (n: usize)
        requires
            self.wf(),
        ensures
            n == self.expected_len(),
    {
        match self.stage {
            InitiatorStage::PeerKey => 96,
            InitiatorStage::Select => 4,
            InitiatorStage::PadDLen => 2,
            InitiatorStage::PadD => self.pending,
            _ => 0,
        }
    }

    /// The decrypting and encrypting ciphers, once the handshake is complete.
    pub fn into_parts(self) -> (r: (Option<Rc4>, Option<Rc4>))
        ensures
            crate::mse::stream::cipher_state(r.0) == self.decrypt_view(),
            crate::mse::stream::cipher_state(r.1) == self.encrypt_view(),
    {
        (self.decrypt, self.encrypt)
    }

    /// One step of the initiator: from what it waits for and the bytes read
    /// for it, what it does next, in the protocol's order.
    #[verifier::rlimit(60)]
    #[verifier::spinoff_prover]
    pub fn step(&mut self, input: &[u8]) -> (a: HandshakeAction)
        requires
            old(self).wf(),
            old(self).stage() != InitiatorStage::Done,
            input@.len() == old(self).expected_len(),
        ensures
            final(self).wf(),
            final(self).hash() == old(self).hash(),
            final(self).mode_of() == old(self).mode_of(),
            match old(self).stage() {
                InitiatorStage::Start => initiator_after_start(*final(self), a),
                InitiatorStage::PeerKey => initiator_after_key(*old(self), input@, *final(self), a),
                InitiatorStage::VcFound => {
                    &&& a == HandshakeAction::Read(4)
                    &&& final(self).stage() == InitiatorStage::Select
                    &&& final(self).decrypt_view() == Some(crate::rc4::advance(old(self).decrypt_view()->0, 8))
                    &&& final(self).encrypt_view() == old(self).encrypt_view()
                },
                InitiatorStage::Select => {
                    &&& a == HandshakeAction::Read(2)
                    &&& final(self).stage() == InitiatorStage::PadDLen
                    &&& final(self).selected() == from_be32(crate::rc4::apply_keystream(old(self).decrypt_view()->0, input@))
                    &&& final(self).decrypt_view() == Some(crate::rc4::advance(old(self).decrypt_view()->0, 4))
                    &&& final(self).encrypt_view() == old(self).encrypt_view()
                },
                InitiatorStage::PadDLen => {
                    let n = from_be16(crate::rc4::apply_keystream(old(self).decrypt_view()->0, input@));
                    &&& final(self).decrypt_view() == Some(crate::rc4::advance(old(self).decrypt_view()->0, 2))
                    &&& final(self).encrypt_view() == old(self).encrypt_view()
                    &&& match pad_len_checked(n as u16) {
                        Err(e) => a == HandshakeAction::Fail(e) && final(self).stage() == InitiatorStage::Done,
                        Ok(k) => if k > 0 {
                            a == HandshakeAction::Read(k) && final(self).stage() == InitiatorStage::PadD
                                && final(self).selected() == old(self).selected()
                        } else {
                            final(self).stage() == InitiatorStage::Done && initiator_finished(old(self).selected(), old(self).mode_of(), a)
                        },
                    }
                },
                InitiatorStage::PadD => {
                    &&& final(self).stage() == InitiatorStage::Done
                    &&& final(self).decrypt_view() == Some(crate::rc4::advance(old(self).decrypt_view()->0, input@.len()))
                    &&& final(self).encrypt_view() == old(self).encrypt_view()
                    &&& initiator_finished(old(self).selected(), old(self).mode_of(), a)
                },
                InitiatorStage::Done => true,
            },
    {
        match self.stage {
            InitiatorStage::Start => self.on_start(),
            InitiatorStage::PeerKey => self.on_peer_key(input),
            InitiatorStage::VcFound => {
                match &mut self.decrypt {
                    Some(c) => {
                        let vc_enc = encrypted_vc(c);
                        decrypt_to_vec(c, vc_enc.as_slice());
                        proof {
                            crate::rc4::lemma_keystream_len(old(self).decrypt_view()->0, 8);
                        }
                    },
                    None => {},
                }
                self.stage = InitiatorStage::Select;
                HandshakeAction::Read(4)
            },
            InitiatorStage::Select => {
                let select = match &mut self.decrypt {
                    Some(c) => decrypt_u32(c, input),
                    None => 0,
                };
                self.select = select;
                self.stage = InitiatorStage::PadDLen;
                HandshakeAction::Read(2)
            },
            InitiatorStage::PadDLen => {
                let n = match &mut self.decrypt {
                    Some(c) => decrypt_u16(c, input),
                    None => 0,
                };
                match check_pad_len(n) {
                    Err(e) => {
                        self.stage = InitiatorStage::Done;
                        HandshakeAction::Fail(e)
                    },
                    Ok(k) => if k > 0 {
                        self.pending = k;
                        self.stage = InitiatorStage::PadD;
                        HandshakeAction::Read(k)
                    } else {
                        self.stage = InitiatorStage::Done;
                        self.finish()
                    },
                }
            },
            InitiatorStage::PadD => {
                match &mut self.decrypt {
                    Some(c) => {
                        decrypt_to_vec(c, input);
                    },
                    None => {},
                }
                self.stage = InitiatorStage::Done;
                self.finish()
            },
            InitiatorStage::Done => HandshakeAction::Fail(MseError::VcNotFound),
        }
    }

    fn on_start(&mut self) -> (a: HandshakeAction)
        requires
            old(self).wf(),
            old(self).stage() == InitiatorStage::Start,
        ensures
            final(self).wf(),
            final(self).hash() == old(self).hash(),
            final(self).mode_of() == old(self).mode_of(),
            initiator_after_start(*final(self), a),
    {
        let (my_private, my_public) = dh_keypair();
        let pad_a = random_pad();
        let m = key_exchange_message(my_public.as_slice(), pad_a.as_slice());
        self.my_private = my_private;
        self.stage = InitiatorStage::PeerKey;
        assert(my_public@ == crate::mse::handshake::public_key_of(self.my_private@));
        assert(m@ == crate::mse::to_96_bytes(crate::mse::handshake::public_key_of(self.my_private@)) + pad_a@);
        HandshakeAction::SendThenRead(m, 96)
    }

    fn on_peer_key(&mut self, input: &[u8]) -> (a: HandshakeAction)
        requires
            old(self).wf(),
            old(self).stage() == InitiatorStage::PeerKey,
            input@.len() == 96,
        ensures
            final(self).wf(),
            final(self).hash() == old(self).hash(),
            final(self).mode_of() == old(self).mode_of(),
            initiator_after_key(*old(self), input@, *final(self), a),
    {
        let mut yb = [0u8; 96];
        let mut k: usize = 0;
        while k < 96
            invariant
                0 <= k <= 96,
                input@.len() == 96,
                forall|m: int| 0 <= m < k ==> yb@[m] == input@[m],
            decreases 96 - k,
        {
            yb[k] = input[k];
            k = k + 1;
        }
        assert(yb@ =~= input@);
        let pad_c = random_pad();
        match initiator_on_peer_key(self.my_private.as_slice(), &yb, &self.info_hash, self.mode, pad_c.as_slice()) {
            Err(e) => {
                self.stage = InitiatorStage::Done;
                HandshakeAction::Fail(e)
            },
            Ok(session) => {
                let pattern = encrypted_vc(&session.decrypt);
                self.decrypt = Some(session.decrypt);
                self.encrypt = Some(session.encrypt);
                self.stage = InitiatorStage::VcFound;
                assert(session.message@ == crate::mse::handshake::initiator_message(
                    shared_secret_bytes(old(self).private(), input@), old(self).hash(), old(self).mode_of(), pad_c@));
                HandshakeAction::SendThenScan(session.message, pattern, MAX_PAD_LEN + 8, MseError::VcNotFound)
            },
        }
    }

    /// The end: the encryption the responder selected, if acceptable.
    fn finish(&self) -> (a: HandshakeAction)
        ensures
            initiator_finished(self.selected(), self.mode_of(), a),
    {
        match initiator_status(self.select, self.mode) {
            Err(e) => HandshakeAction::Fail(e),
            Ok(st) => HandshakeAction::Finish(Vec::new(), st),
        }
    }
}

/// The initiator's last step: the encryption `crypto_select` gives under
/// the mode, with nothing more to send, or a failure.
pub open spec fn initiator_finished(select: u32, mode: EncryptionMode, a: HandshakeAction) -> bool {
    match initiator_outcome(select, mode) {
        Err(e) => a == HandshakeAction::Fail(e),
        Ok(st) => a matches HandshakeAction::Finish(m, s2) && s2 == st && m@.len() == 0,
    }
}

} // verus!
