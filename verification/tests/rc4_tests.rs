use rtbit::rc4::Rc4;

#[test]
fn test_rc4_known_vector() {
    let mut cipher = Rc4::new(b"Key");
    let mut data = *b"Plaintext";
    cipher.process_in_place(&mut data);
    assert_eq!(data, [0xBB, 0xF3, 0x16, 0xE8, 0xD9, 0x40, 0xAF, 0x0A, 0xD3]);
}

#[test]
fn test_rc4_symmetry() {
    let key = b"test_key_12345";
    let plaintext = b"Hello, World! This is a test of RC4 encryption symmetry.";

    let mut encrypt = Rc4::new(key);
    let mut decrypt = Rc4::new(key);

    let mut ciphertext = plaintext.to_vec();
    encrypt.process_in_place(&mut ciphertext);
    assert_ne!(&ciphertext[..], &plaintext[..]);

    decrypt.process_in_place(&mut ciphertext);
    assert_eq!(&ciphertext[..], &plaintext[..]);
}

#[test]
fn test_rc4_discard() {
    let key = b"test_key";

    let mut c1 = Rc4::new(key);
    let mut c2 = Rc4::new(key);

    c2.discard(1024);
    for _ in 0..1024 {
        c1.next_byte();
    }

    let mut data1 = [0u8; 32];
    let mut data2 = [0u8; 32];
    c1.process_in_place(&mut data1);
    c2.process_in_place(&mut data2);
    assert_eq!(data1, data2);
}

#[test]
fn test_rc4_clone() {
    let key = b"clone_test_key";
    let mut c1 = Rc4::new(key);
    c1.discard(100);

    let mut c2 = c1.clone();

    let mut data1 = [0u8; 64];
    let mut data2 = [0u8; 64];
    c1.process_in_place(&mut data1);
    c2.process_in_place(&mut data2);
    assert_eq!(data1, data2);
}

#[test]
fn test_rc4_empty_data() {
    let mut cipher = Rc4::new(b"key");
    let mut empty: [u8; 0] = [];
    cipher.process_in_place(&mut empty);
}

#[test]
fn rc4_processing_in_pieces_matches_one_call() {
    let key = b"pieces";
    let mut whole = Rc4::new(key);
    let mut parts = Rc4::new(key);
    let mut a = *b"abcdefghijklmnopqrstuvwxyz";
    let mut b = a;
    whole.process_in_place(&mut a);
    let (first, second) = b.split_at_mut(10);
    parts.process_in_place(first);
    parts.process_in_place(second);
    assert_eq!(a, b);
}

#[test]
fn rc4_next_byte_is_first_keystream_byte() {
    let mut c1 = Rc4::new(b"Key");
    let mut c2 = Rc4::new(b"Key");
    let mut zero = [0u8; 1];
    c2.process_in_place(&mut zero);
    assert_eq!(c1.next_byte(), zero[0]);
    // The known vector: the first keystream byte of "Key" is 0xEB ('P' ^ 0xBB).
    assert_eq!(zero[0], b'P' ^ 0xBB);
}

#[test]
fn doubled_key_gives_the_same_keystream() {
    let key = b"secret";
    let doubled = [&key[..], &key[..]].concat();
    let mut a = Rc4::new(key);
    let mut b = Rc4::new(&doubled);
    let mut x = vec![0u8; 300];
    let mut y = vec![0u8; 300];
    a.process_in_place(&mut x);
    b.process_in_place(&mut y);
    assert_eq!(x, y);
    // and two ciphers keyed alike stay alike
    let mut c = Rc4::new(key);
    let mut z = vec![0u8; 300];
    c.process_in_place(&mut z);
    assert_eq!(x, z);
}
