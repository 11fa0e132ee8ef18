use rtbit::mse::machine::{HandshakeAction, InitiatorHandshake, ResponderHandshake};
use num_bigint::BigUint;
use rtbit::mse::handshake::{
    check_info_hashes, check_pad_len, check_peer_key, check_vc, decrypt_to_vec,
    decrypt_u16, decrypt_u32, detect_mse, encrypted_vc, initiator_on_peer_key, initiator_status,
    key_exchange_message, random_pad, req1_pattern, responder_on_obfuscated_hash, responder_response,
    responder_status, select_crypto, shared_secret, ScanStatus, PatternScanner,
};
use rtbit::mse::stream::{EncryptedReader, EncryptedWriter, WriteStep};
use rtbit::mse::{
    biguint_to_96_bytes, dh_keypair, dh_prime, dh_secret, EncryptionMode, EncryptionStatus, MseError,
    CRYPTO_PLAINTEXT, CRYPTO_RC4, MAX_PAD_LEN,
};
use rtbit::rc4::Rc4;

#[test]
fn test_encryption_mode_parsing() {
    assert_eq!("disabled".parse::<EncryptionMode>().unwrap(), EncryptionMode::Disabled);
    assert_eq!("disabled".parse::<EncryptionMode>().unwrap(), EncryptionMode::Disabled);
    assert_eq!("enabled".parse::<EncryptionMode>().unwrap(), EncryptionMode::Enabled);
    assert_eq!("forced".parse::<EncryptionMode>().unwrap(), EncryptionMode::Forced);
    assert!("invalid".parse::<EncryptionMode>().is_err());
}

#[test]
fn encryption_mode_parsing_ignores_case_and_names_modes() {
    assert_eq!("FoRcEd".parse::<EncryptionMode>().unwrap(), EncryptionMode::Forced);
    let err = "Bogus".parse::<EncryptionMode>().unwrap_err();
    assert_eq!(err.name, "bogus");
    assert_eq!(EncryptionMode::Enabled.to_string(), "enabled");
    assert_eq!(EncryptionMode::default(), EncryptionMode::Enabled);
    assert_eq!(EncryptionStatus::Rc4.as_str(), "rc4");
    assert_eq!(EncryptionStatus::Plaintext.as_str(), "plaintext");
}

fn is_one(b: &[u8]) -> bool {
    BigUint::from_bytes_be(b) == BigUint::from(1u32)
}

#[test]
fn test_dh_keypair_generation() {
    let (priv_key, pub_key) = dh_keypair();
    assert!(!is_one(&priv_key));
    assert!(!is_one(&pub_key));
    assert!(BigUint::from_bytes_be(&pub_key) < BigUint::from_bytes_be(&dh_prime()));
}

#[test]
fn test_dh_shared_secret() {
    let (priv_a, pub_a) = dh_keypair();
    let (priv_b, pub_b) = dh_keypair();
    let secret_a = dh_secret(&priv_a, &pub_b);
    let secret_b = dh_secret(&priv_b, &pub_a);
    assert_eq!(BigUint::from_bytes_be(&secret_a), BigUint::from_bytes_be(&secret_b));
}

#[test]
fn test_biguint_to_96_bytes() {
    let n = BigUint::from(255u32).to_bytes_be();
    let bytes = biguint_to_96_bytes(&n);
    assert_eq!(bytes[95], 255);
    assert_eq!(bytes[94], 0);
}

#[test]
fn biguint_longer_than_96_keeps_last_bytes() {
    let mut n = vec![7u8; 100];
    n[99] = 9;
    let bytes = biguint_to_96_bytes(&n);
    assert_eq!(bytes[95], 9);
    assert_eq!(bytes[0], 7);
}

#[test]
fn dh_prime_is_the_mse_prime() {
    let p = dh_prime();
    assert_eq!(p.len(), 96);
    assert_eq!(&p[..8], &[0xFF; 8]);
    assert_eq!(&p[92..], &[0x00, 0x09, 0x05, 0x63]);
}

#[test]
fn weak_public_keys_are_refused() {
    let mut zero = [0u8; 96];
    assert_eq!(check_peer_key(&zero), Err(MseError::WeakPublicKey));
    zero[95] = 1;
    assert_eq!(check_peer_key(&zero), Err(MseError::WeakPublicKey));
    zero[95] = 2;
    assert_eq!(check_peer_key(&zero), Ok(()));
}

#[test]
fn incoming_detection_by_first_byte() {
    assert!(!detect_mse(0x13));
    assert!(detect_mse(0x00));
    assert!(detect_mse(0xFF));
}

#[test]
fn crypto_selection_rules() {
    assert_eq!(select_crypto(CRYPTO_PLAINTEXT, EncryptionMode::Forced), Err(MseError::Rc4NotProvided));
    assert_eq!(select_crypto(CRYPTO_PLAINTEXT, EncryptionMode::Enabled), Ok(CRYPTO_PLAINTEXT));
    assert_eq!(select_crypto(CRYPTO_PLAINTEXT | CRYPTO_RC4, EncryptionMode::Enabled), Ok(CRYPTO_RC4));
    assert_eq!(select_crypto(0x10, EncryptionMode::Disabled), Err(MseError::NoCompatibleCrypto(0x10)));
    assert_eq!(initiator_status(CRYPTO_RC4, EncryptionMode::Forced), Ok(EncryptionStatus::Rc4));
    assert_eq!(initiator_status(CRYPTO_PLAINTEXT, EncryptionMode::Forced), Err(MseError::PlaintextRefused));
    assert_eq!(initiator_status(CRYPTO_PLAINTEXT, EncryptionMode::Enabled), Ok(EncryptionStatus::Plaintext));
    assert_eq!(initiator_status(0x08, EncryptionMode::Enabled), Err(MseError::UnknownCryptoSelect(0x08)));
    assert_eq!(responder_status(CRYPTO_RC4), EncryptionStatus::Rc4);
    assert_eq!(responder_status(CRYPTO_PLAINTEXT), EncryptionStatus::Plaintext);
}

#[test]
fn pad_lengths_above_the_maximum_are_refused() {
    assert_eq!(check_pad_len(512), Ok(512));
    assert_eq!(check_pad_len(0), Ok(0));
    assert_eq!(check_pad_len(513), Err(MseError::PadTooLong(513)));
    for _ in 0..50 {
        assert!(random_pad().len() <= MAX_PAD_LEN);
    }
}

#[test]
fn no_info_hashes_is_refused() {
    assert_eq!(check_info_hashes(&[]), Err(MseError::NoInfoHashes));
    assert_eq!(check_info_hashes(&[[1u8; 20]]), Ok(()));
}

#[test]
fn scanner_finds_first_occurrence_and_gives_up_at_limit() {
    let mut s = PatternScanner::new(vec![1, 2, 3], 6);
    assert_eq!(s.push(9), ScanStatus::Searching);
    assert_eq!(s.push(1), ScanStatus::Searching);
    assert_eq!(s.push(2), ScanStatus::Searching);
    assert_eq!(s.push(3), ScanStatus::Found);

    let mut s = PatternScanner::new(vec![1, 2, 3], 5);
    for b in [0u8, 0, 0, 0] {
        assert_eq!(s.push(b), ScanStatus::Searching);
    }
    assert_eq!(s.push(0), ScanStatus::Exhausted);
}

#[test]
fn vc_check_accepts_encrypted_zeros_only() {
    let key = [5u8; 20];
    let mut enc = Rc4::new(&key);
    let mut dec = Rc4::new(&key);
    let mut vc = [0u8; 8];
    enc.process_in_place(&mut vc);
    assert_eq!(check_vc(&mut dec, &vc), Ok(()));
    let mut dec2 = Rc4::new(&key);
    let mut bad = vc;
    bad[3] ^= 1;
    assert_eq!(check_vc(&mut dec2, &bad), Err(MseError::VcMismatch));
}

fn decrypt_block(c: &mut Rc4, data: &[u8]) -> Vec<u8> {
    decrypt_to_vec(c, data)
}

/// Runs both sides of the handshake over in-memory byte streams; returns the
/// two outcomes and the sessions' ciphers.
fn run_handshake(
    initiator_mode: EncryptionMode,
    responder_mode: EncryptionMode,
    info_hash: [u8; 20],
    known: &[[u8; 20]],
) -> (Result<(EncryptionStatus, Rc4, Rc4), MseError>, Result<(usize, EncryptionStatus, Rc4, Rc4, Vec<u8>), MseError>) {
    // initiator: Ya + PadA
    let (ipriv, ipub) = dh_keypair();
    let pad_a = random_pad();
    let to_responder_1 = key_exchange_message(&ipub, &pad_a);

    // responder: read Ya, send Yb + PadB
    if let Err(e) = check_info_hashes(known) {
        return (Err(e), Err(e));
    }
    let ya: [u8; 96] = to_responder_1[..96].try_into().unwrap();
    check_peer_key(&ya).unwrap();
    let (rpriv, rpub) = dh_keypair();
    let pad_b = random_pad();
    let to_initiator_1 = key_exchange_message(&rpub, &pad_b);

    // initiator: read Yb, send the second message
    let yb: [u8; 96] = to_initiator_1[..96].try_into().unwrap();
    let pad_c = random_pad();
    let sess_i = initiator_on_peer_key(&ipriv, &yb, &info_hash, initiator_mode, &pad_c).unwrap();
    let i_encrypt = sess_i.encrypt;
    let mut i_decrypt = sess_i.decrypt;

    // responder: scan PadA for req1
    let mut stream: Vec<u8> = to_responder_1[96..].to_vec();
    stream.extend_from_slice(&sess_i.message);
    let s = shared_secret(&rpriv, &ya);
    let mut scanner = PatternScanner::new(req1_pattern(&s), MAX_PAD_LEN + 20);
    let mut pos = 0;
    loop {
        match scanner.push(stream[pos]) {
            ScanStatus::Searching => pos += 1,
            ScanStatus::Found => {
                pos += 1;
                break;
            }
            ScanStatus::Exhausted => return (Err(MseError::Req1NotFound), Err(MseError::Req1NotFound)),
        }
    }
    let received: [u8; 20] = stream[pos..pos + 20].try_into().unwrap();
    pos += 20;
    let sess_r = match responder_on_obfuscated_hash(&s, &received, known) {
        Ok(x) => x,
        Err(e) => return (Err(e), Err(e)),
    };
    let mut r_decrypt = sess_r.decrypt;
    let mut r_encrypt = sess_r.encrypt;
    check_vc(&mut r_decrypt, &stream[pos..pos + 8]).unwrap();
    pos += 8;
    let provide = decrypt_u32(&mut r_decrypt, &stream[pos..pos + 4]);
    pos += 4;
    let pad_c_len = check_pad_len(decrypt_u16(&mut r_decrypt, &stream[pos..pos + 2])).unwrap();
    pos += 2;
    decrypt_block(&mut r_decrypt, &stream[pos..pos + pad_c_len]);
    pos += pad_c_len;
    let ia_len = decrypt_u16(&mut r_decrypt, &stream[pos..pos + 2]) as usize;
    pos += 2;
    let ia = decrypt_block(&mut r_decrypt, &stream[pos..pos + ia_len]);
    let select = match select_crypto(provide, responder_mode) {
        Ok(x) => x,
        Err(e) => return (Err(e), Err(e)),
    };
    let pad_d = random_pad();
    let answer = responder_response(&mut r_encrypt, select, &pad_d);
    let r_status = responder_status(select);

    // initiator: scan PadB for the encrypted VC
    let mut stream2: Vec<u8> = to_initiator_1[96..].to_vec();
    stream2.extend_from_slice(&answer);
    let mut scanner = PatternScanner::new(encrypted_vc(&i_decrypt), MAX_PAD_LEN + 8);
    let mut pos = 0;
    loop {
        match scanner.push(stream2[pos]) {
            ScanStatus::Searching => pos += 1,
            ScanStatus::Found => {
                pos += 1;
                break;
            }
            ScanStatus::Exhausted => return (Err(MseError::VcNotFound), Ok((0, r_status, r_decrypt, r_encrypt, ia))),
        }
    }
    let vc = decrypt_block(&mut i_decrypt, &stream2[pos - 8..pos]);
    assert_eq!(vc, vec![0u8; 8]);
    let select_back = decrypt_u32(&mut i_decrypt, &stream2[pos..pos + 4]);
    pos += 4;
    let pad_d_len = check_pad_len(decrypt_u16(&mut i_decrypt, &stream2[pos..pos + 2])).unwrap();
    pos += 2;
    decrypt_block(&mut i_decrypt, &stream2[pos..pos + pad_d_len]);
    let i_status = initiator_status(select_back, initiator_mode);
    (
        i_status.map(|st| (st, i_encrypt, i_decrypt)),
        Ok((sess_r.info_hash_index, r_status, r_decrypt, r_encrypt, ia)),
    )
}

#[test]
fn test_mse_handshake_roundtrip() {
    let info_hash = [0xAA; 20];
    let info_hashes = vec![info_hash];
    let (init, resp) = run_handshake(EncryptionMode::Enabled, EncryptionMode::Enabled, info_hash, &info_hashes);
    let (i_status, mut i_encrypt, mut i_decrypt) = init.expect("initiator handshake failed");
    let (idx, r_status, mut r_decrypt, mut r_encrypt, ia) = resp.expect("responder handshake failed");
    assert_eq!(idx, 0);
    assert!(ia.is_empty());
    assert_eq!(i_status, EncryptionStatus::Rc4);
    assert_eq!(r_status, EncryptionStatus::Rc4);

    // Data through the encrypted channel, both ways.
    let msg = b"Hello through encrypted channel!";
    let mut writer = EncryptedWriter::new((), Some(i_encrypt.clone()));
    let sent = writer.encrypt_outgoing(msg);
    assert_ne!(&sent[..], &msg[..]);
    let mut reader = EncryptedReader::new((), Some(r_decrypt.clone()));
    let mut got = sent.clone();
    reader.decrypt_incoming(&mut got);
    assert_eq!(&got[..], &msg[..]);

    let mut back = msg.to_vec();
    r_encrypt.process_in_place(&mut back);
    i_decrypt.process_in_place(&mut back);
    assert_eq!(&back[..], &msg[..]);
    let mut again = msg.to_vec();
    i_encrypt.process_in_place(&mut again);
    r_decrypt.process_in_place(&mut again);
    assert_eq!(&again[..], &msg[..]);
}

#[test]
fn test_mse_forced_encryption() {
    let info_hash = [0xBB; 20];
    let info_hashes = vec![info_hash];
    let (init, resp) = run_handshake(EncryptionMode::Forced, EncryptionMode::Forced, info_hash, &info_hashes);
    let (i_status, _, _) = init.expect("initiator handshake failed");
    let (_, r_status, _, _, _) = resp.expect("responder handshake failed");
    assert_eq!(i_status, EncryptionStatus::Rc4);
    assert_eq!(r_status, EncryptionStatus::Rc4);
}

#[test]
fn handshake_matches_the_right_info_hash() {
    let info_hash = [0x42; 20];
    let known = vec![[0x01; 20], [0x02; 20], info_hash];
    let (init, resp) = run_handshake(EncryptionMode::Enabled, EncryptionMode::Forced, info_hash, &known);
    assert!(init.is_ok());
    assert_eq!(resp.unwrap().0, 2);
}

#[test]
fn handshake_without_the_info_hash_fails() {
    let (init, resp) = run_handshake(EncryptionMode::Enabled, EncryptionMode::Enabled, [0x42; 20], &[[0x01; 20]]);
    assert_eq!(init.err(), Some(MseError::NoMatchingInfoHash));
    assert_eq!(resp.err(), Some(MseError::NoMatchingInfoHash));
}

#[test]
fn test_encrypted_reader_writer_rc4() {
    let key = b"test_encryption_key_1234";
    let plaintext = b"Hello, encrypted world! This is a test of the RC4 stream.";

    let mut enc_writer = EncryptedWriter::new(Vec::<u8>::new(), Some(Rc4::new(key)));
    let mut enc_reader = EncryptedReader::new((), Some(Rc4::new(key)));

    let mut wire = enc_writer.encrypt_outgoing(plaintext);
    enc_reader.decrypt_incoming(&mut wire);
    assert_eq!(&wire[..], &plaintext[..]);
}

#[test]
fn test_encrypted_reader_with_prefix() {
    let prefix = b"prefix_data".to_vec();
    let stream_data = b"stream_data";

    let mut reader = EncryptedReader::with_prefix((), None, prefix.clone());
    let mut result = Vec::new();
    while reader.has_prefix() {
        result.extend_from_slice(&reader.read_prefix(4));
    }
    let mut incoming = stream_data.to_vec();
    reader.decrypt_incoming(&mut incoming);
    result.extend_from_slice(&incoming);
    assert_eq!(&result[..prefix.len()], &prefix[..]);
    assert_eq!(&result[prefix.len()..], stream_data);
}

#[test]
fn writer_keeps_unwritten_encrypted_bytes() {
    let mut w = EncryptedWriter::new((), Some(Rc4::new(b"k")));
    assert!(w.is_encrypting());
    assert!(!w.has_pending());
    let enc = w.encrypt_outgoing(b"abcdef");
    assert_eq!(w.after_write(enc.clone(), 2, 6), None);
    assert!(w.has_pending());
    assert_eq!(w.pending_bytes(), &enc[2..]);
    assert_eq!(w.pending_progress(1), None);
    assert_eq!(w.pending_bytes(), &enc[3..]);
    assert_eq!(w.pending_progress(3), Some(6));
    assert!(!w.has_pending());
    let enc2 = w.encrypt_outgoing(b"xy");
    assert_eq!(w.after_write(enc2.clone(), 2, 2), Some(2));
    w.defer(enc2.clone());
    assert_eq!(w.pending_bytes(), &enc2[..]);
}

#[test]
fn writer_steps_put_the_write_in_progress_first() {
    let mut w = EncryptedWriter::new((), Some(Rc4::new(b"k")));
    let mut reference = Rc4::new(b"k");
    let mut expected = b"abcdef".to_vec();
    reference.process_in_place(&mut expected);
    let step = w.next_write(b"abcdef");
    match &step {
        WriteStep::Fresh(b) => assert_eq!(b, &expected),
        _ => panic!("a fresh write is encrypted"),
    }
    // The inner stream takes two bytes: the rest is kept.
    assert_eq!(w.on_written(step, Some(2), 6), None);
    // The retry hands over the rest, not a second encryption.
    let step = w.next_write(b"abcdef");
    match &step {
        WriteStep::Resume(b) => assert_eq!(b.as_slice(), &expected[2..]),
        _ => panic!("the write in progress goes first"),
    }
    assert_eq!(w.on_written(step, None, 6), None);
    let step = w.next_write(b"abcdef");
    assert_eq!(w.on_written(step, Some(4), 6), Some(6));
    assert!(!w.has_pending());
    // A plain writer hands the bytes through.
    let mut plain = EncryptedWriter::new((), None);
    let step = plain.next_write(b"xy");
    assert!(matches!(step, WriteStep::Direct));
    assert_eq!(plain.on_written(step, Some(1), 2), Some(1));
}

#[test]
fn dh_secret_small_values() {
    // 2 ^ 1 mod p = 2; 5 ^ 0 mod p = 1; 3 ^ 4 mod p = 81, written in fewest bytes.
    assert_eq!(dh_secret(&[1], &[2]), vec![2]);
    assert_eq!(dh_secret(&[0], &[5]), vec![1]);
    assert_eq!(dh_secret(&[0, 4], &[0, 3]), vec![81]);
    assert_eq!(dh_secret(&[2], &[1, 0]), vec![1, 0, 0]);
}

/// Runs an initiator and a responder against each other in memory.
fn run_machines(ih: [u8; 20], hashes: Vec<[u8; 20]>, im: EncryptionMode, rm: EncryptionMode) -> (Option<Result<EncryptionStatus, MseError>>, Option<Result<EncryptionStatus, MseError>>) {
    let mut init = InitiatorHandshake::new(ih, im);
    let mut resp = ResponderHandshake::new(hashes, rm);
    // bytes in flight each way
    let mut to_resp: Vec<u8> = Vec::new();
    let mut to_init: Vec<u8> = Vec::new();
    let mut init_input: Vec<u8> = Vec::new();
    let mut resp_input: Vec<u8> = Vec::new();
    let mut init_want: Option<(usize, bool)> = None;
    let mut resp_want: Option<(usize, bool)> = None;
    let mut init_done: Option<Result<EncryptionStatus, MseError>> = None;
    let mut resp_done: Option<Result<EncryptionStatus, MseError>> = None;
    let mut init_scan: Option<Vec<u8>> = None;
    let mut resp_scan: Option<Vec<u8>> = None;
    let apply = |a: HandshakeAction, out: &mut Vec<u8>, want: &mut Option<(usize, bool)>, scan: &mut Option<Vec<u8>>, done: &mut Option<Result<EncryptionStatus, MseError>>| match a {
        HandshakeAction::Read(n) => *want = Some((n, false)),
        HandshakeAction::SendThenRead(m, n) => {
            out.extend_from_slice(&m);
            *want = Some((n, false));
        }
        HandshakeAction::SendThenScan(m, p, _, _) => {
            out.extend_from_slice(&m);
            *scan = Some(p);
            *want = None;
        }
        HandshakeAction::Finish(m, st) => {
            out.extend_from_slice(&m);
            *done = Some(Ok(st));
        }
        HandshakeAction::Fail(e) => *done = Some(Err(e)),
    };
    let a = init.step(&init_input);
    apply(a, &mut to_resp, &mut init_want, &mut init_scan, &mut init_done);
    let a = resp.step(&resp_input);
    apply(a, &mut to_init, &mut resp_want, &mut resp_scan, &mut resp_done);
    for _ in 0..100 {
        if init_done.is_some() && resp_done.is_some() {
            break;
        }
        if init_done.is_none() {
            if let Some(p) = init_scan.clone() {
                if let Some(pos) = to_init.windows(p.len()).position(|w| w == &p[..]) {
                    to_init.drain(..pos + p.len());
                    init_scan = None;
                    init_input = Vec::new();
                    let a = init.step(&init_input);
                    apply(a, &mut to_resp, &mut init_want, &mut init_scan, &mut init_done);
                }
            } else if let Some((n, _)) = init_want {
                if to_init.len() >= n {
                    init_input = to_init.drain(..n).collect();
                    init_want = None;
                    let a = init.step(&init_input);
                    apply(a, &mut to_resp, &mut init_want, &mut init_scan, &mut init_done);
                }
            }
        }
        if resp_done.is_none() {
            if let Some(p) = resp_scan.clone() {
                if let Some(pos) = to_resp.windows(p.len()).position(|w| w == &p[..]) {
                    to_resp.drain(..pos + p.len());
                    resp_scan = None;
                    resp_input = Vec::new();
                    let a = resp.step(&resp_input);
                    apply(a, &mut to_init, &mut resp_want, &mut resp_scan, &mut resp_done);
                }
            } else if let Some((n, _)) = resp_want {
                if to_resp.len() >= n {
                    resp_input = to_resp.drain(..n).collect();
                    resp_want = None;
                    let a = resp.step(&resp_input);
                    apply(a, &mut to_init, &mut resp_want, &mut resp_scan, &mut resp_done);
                }
            }
        }
    }
    (init_done, resp_done)
}

#[test]
fn handshake_machines_agree() {
    let ih = [7u8; 20];
    let (i, r) = run_machines(ih, vec![[1u8; 20], ih], EncryptionMode::Enabled, EncryptionMode::Enabled);
    assert_eq!(i, Some(Ok(EncryptionStatus::Rc4)));
    assert_eq!(r, Some(Ok(EncryptionStatus::Rc4)));
    let (i, r) = run_machines(ih, vec![[1u8; 20]], EncryptionMode::Enabled, EncryptionMode::Enabled);
    assert_eq!(r, Some(Err(MseError::NoMatchingInfoHash)));
    assert_eq!(i, None);
    let (_, r) = run_machines(ih, vec![], EncryptionMode::Enabled, EncryptionMode::Enabled);
    assert_eq!(r, Some(Err(MseError::NoInfoHashes)));
}
