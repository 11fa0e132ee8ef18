use rtbit::bencode::{as_bytes, as_dict, as_int, decode, decode_outcome, dict_get, BDict, BValue, DecodeError, DecodeOutcome};

fn dict(entries: Vec<(&[u8], BValue)>) -> BDict {
    let mut d = BDict::new();
    for (k, v) in entries {
        d.insert(k.to_vec(), v);
    }
    d
}

#[test]
fn encode_scalars() {
    assert_eq!(BValue::Int(42).encode(), b"i42e".to_vec());
    assert_eq!(BValue::Int(-7).encode(), b"i-7e".to_vec());
    assert_eq!(BValue::Int(0).encode(), b"i0e".to_vec());
    assert_eq!(BValue::Bytes(b"spam".to_vec()).encode(), b"4:spam".to_vec());
    assert_eq!(BValue::Bytes(Vec::new()).encode(), b"0:".to_vec());
}

#[test]
fn encode_dict_sorts_keys() {
    let d = dict(vec![(b"zeta", BValue::Int(1)), (b"alpha", BValue::Bytes(b"x".to_vec())), (b"mid", BValue::List(vec![BValue::Int(2)]))]);
    assert_eq!(d.len(), 3);
    assert_eq!(BValue::Dict(d).encode(), b"d5:alpha1:x3:midli2ee4:zetai1ee".to_vec());
}

#[test]
fn insert_replaces_existing_key() {
    let mut d = BDict::new();
    d.insert(b"k".to_vec(), BValue::Int(1));
    d.insert(b"k".to_vec(), BValue::Int(2));
    assert_eq!(d.len(), 1);
    assert_eq!(as_int(d.get(b"k").unwrap()), Some(2));
}

#[test]
fn decode_values() {
    let (v, n) = decode(b"i42e").unwrap();
    assert_eq!(as_int(&v), Some(42));
    assert_eq!(n, 4);
    let (v, n) = decode(b"4:spamXYZ").unwrap();
    assert_eq!(as_bytes(&v), Some(&b"spam"[..]));
    assert_eq!(n, 6);
    let (v, n) = decode(b"d3:cow3:moo4:spam4:eggse").unwrap();
    assert_eq!(n, 24);
    let d = as_dict(&v).unwrap();
    assert_eq!(as_bytes(dict_get(d, "cow").unwrap()), Some(&b"moo"[..]));
    assert_eq!(as_bytes(dict_get(d, "spam").unwrap()), Some(&b"eggs"[..]));
    assert!(dict_get(d, "nope").is_none());
    let (v, n) = decode(b"l4:spami7ee").unwrap();
    assert_eq!(n, 11);
    match v {
        BValue::List(items) => {
            assert_eq!(items.len(), 2);
            assert_eq!(as_int(&items[1]), Some(7));
        }
        _ => panic!("not a list"),
    }
}

#[test]
fn decode_errors() {
    assert!(matches!(decode(b""), Err(DecodeError::Empty)));
    assert!(matches!(decode(b"i12"), Err(DecodeError::UnterminatedInt)));
    assert!(matches!(decode(b"i1x2e"), Err(DecodeError::InvalidInt)));
    assert!(matches!(decode(b"12spam"), Err(DecodeError::NoColon)));
    assert!(matches!(decode(b"99999999999999999999999:x"), Err(DecodeError::InvalidLength)));
    assert!(matches!(decode(b"x"), Err(DecodeError::UnexpectedByte(b'x'))));
    assert!(matches!(decode_outcome(b"5:ab"), DecodeOutcome::Truncated));
    assert!(matches!(decode_outcome(b"li1e"), DecodeOutcome::Truncated));
}

#[test]
fn decode_dict_drops_non_text_keys_and_keeps_last_value() {
    let (v, _) = decode(b"di1ei2e1:ai1e1:ai3ee").unwrap();
    let d = as_dict(&v).unwrap();
    assert_eq!(d.len(), 1);
    assert_eq!(as_int(dict_get(d, "a").unwrap()), Some(3));
}

#[test]
fn encode_then_decode_roundtrip() {
    let inner = dict(vec![(b"length", BValue::Int(1 << 40)), (b"name", BValue::Bytes(b"file.bin".to_vec()))]);
    let outer = dict(vec![(b"info", BValue::Dict(inner)), (b"announce", BValue::Bytes(b"http://t/a".to_vec()))]);
    let bytes = BValue::Dict(outer).encode();
    let (v, n) = decode(&bytes).unwrap();
    assert_eq!(n, bytes.len());
    assert_eq!(v.encode(), bytes);
    let info = as_dict(dict_get(as_dict(&v).unwrap(), "info").unwrap()).unwrap();
    assert_eq!(as_int(dict_get(info, "length").unwrap()), Some(1 << 40));
    assert!(as_int(dict_get(info, "name").unwrap()).is_none());
}

#[test]
fn decoding_reads_only_the_value_bytes() {
    let data = b"d3:fooli1ei2ee3:bar4:spame-trailing";
    let (v, n) = decode(data).unwrap();
    assert_eq!(n, data.len() - "-trailing".len());
    let (w, m) = decode(&data[..n]).unwrap();
    assert_eq!(m, n);
    assert_eq!(dict_get(as_dict(&v).unwrap(), "bar").and_then(|b| as_bytes(b)), Some(&b"spam"[..]));
    assert_eq!(dict_get(as_dict(&w).unwrap(), "bar").and_then(|b| as_bytes(b)), Some(&b"spam"[..]));
}
