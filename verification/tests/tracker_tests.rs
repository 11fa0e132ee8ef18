use rtbit::bencode::{as_bytes, as_dict, as_int, decode, dict_get};
use rtbit::tracker::{
    announce_request, announce_swarm, parse_query, percent_decode, query_of, response_head, route, stats_text, PeerEntry, Route,
};

#[test]
fn percent_decoding() {
    assert_eq!(percent_decode(b"abc"), b"abc".to_vec());
    assert_eq!(percent_decode(b"a%20b"), b"a b".to_vec());
    assert_eq!(percent_decode(b"%41%4a%4A"), b"AJJ".to_vec());
    // a '+' sign is read as in u8::from_str_radix
    assert_eq!(percent_decode(b"%+5x"), vec![5, b'x']);
    // not enough bytes after the '%', or not hex: kept as is
    assert_eq!(percent_decode(b"%4"), b"%4".to_vec());
    assert_eq!(percent_decode(b"x%41"), b"xA".to_vec());
    assert_eq!(percent_decode(b"%zz"), b"%zz".to_vec());
    assert_eq!(percent_decode(b"%%41"), b"%A".to_vec());
    assert_eq!(percent_decode(b""), Vec::<u8>::new());
}

#[test]
fn query_parsing_keeps_last_value() {
    let q = parse_query("a=1&b=x%20y&a=2&flag&c=");
    assert_eq!(q.get(b"a"), Some(&b"2".to_vec()));
    assert_eq!(q.get(b"b"), Some(&b"x y".to_vec()));
    assert_eq!(q.get(b"c"), Some(&Vec::new()));
    assert_eq!(q.get(b"flag"), None);
    assert_eq!(q.get(b"zzz"), None);
    let q = parse_query("k=v=w");
    assert_eq!(q.get(b"k"), Some(&b"v=w".to_vec()));
}

#[test]
fn announce_requests() {
    let ih: String = (0..20).map(|_| "%AA").collect();
    let q = parse_query(&format!("info_hash={ih}&port=6881&event=started"));
    let a = announce_request(&q).unwrap();
    assert_eq!(a.info_hash, [0xAA; 20]);
    assert_eq!(a.port, 6881);
    assert!(!a.stopped);
    let q = parse_query(&format!("info_hash={ih}&port=99999&event=stopped"));
    let a = announce_request(&q).unwrap();
    assert_eq!(a.port, 0);
    assert!(a.stopped);
    let q = parse_query(&format!("info_hash={ih}&port=+12"));
    assert_eq!(announce_request(&q).unwrap().port, 12);
    assert!(announce_request(&parse_query("info_hash=short&port=1")).is_none());
    assert!(announce_request(&parse_query("port=1")).is_none());
}

fn reply_fields(reply: &[u8]) -> (i64, Vec<u8>) {
    let (v, n) = decode(reply).unwrap();
    assert_eq!(n, reply.len());
    let d = as_dict(&v).unwrap();
    assert_eq!(as_int(dict_get(d, "interval").unwrap()), Some(30));
    assert_eq!(as_int(dict_get(d, "min interval").unwrap()), Some(10));
    assert_eq!(as_int(dict_get(d, "incomplete").unwrap()), Some(0));
    (as_int(dict_get(d, "complete").unwrap()).unwrap(), as_bytes(dict_get(d, "peers").unwrap()).unwrap().to_vec())
}

#[test]
fn announce_updates_the_swarm() {
    let mut swarm: Vec<PeerEntry> = Vec::new();
    let a = [10, 0, 0, 1];
    let b = [10, 0, 0, 2];
    let r = announce_swarm(&mut swarm, a, 1000, false, 0);
    assert_eq!(reply_fields(&r), (1, Vec::new()));
    let r = announce_swarm(&mut swarm, b, 2000, false, 1000);
    assert_eq!(reply_fields(&r), (2, vec![10, 0, 0, 1, 0x03, 0xE8]));
    // a re-announces: seen again, not duplicated
    let r = announce_swarm(&mut swarm, a, 1000, false, 5000);
    assert_eq!(reply_fields(&r), (2, vec![10, 0, 0, 2, 0x07, 0xD0]));
    assert_eq!(swarm.len(), 2);
    assert_eq!(swarm[0].last_seen_ms, 5000);
    // b stops
    let r = announce_swarm(&mut swarm, b, 2000, true, 6000);
    assert_eq!(reply_fields(&r), (1, vec![10, 0, 0, 1, 0x03, 0xE8]));
    // two minutes later a has expired
    let r = announce_swarm(&mut swarm, b, 2000, false, 5000 + 120_000);
    assert_eq!(reply_fields(&r), (1, Vec::new()));
    assert_eq!(swarm.len(), 1);
}

#[test]
fn routes_and_texts() {
    assert_eq!(route("/announce?info_hash=x"), Route::Announce);
    assert_eq!(route("/healthz"), Route::Health);
    assert_eq!(route("/stats"), Route::Stats);
    assert_eq!(route("/"), Route::NotFound);
    assert_eq!(query_of(b"/announce?a=1?b"), b"a=1?b".to_vec());
    assert_eq!(query_of(b"/announce"), Vec::<u8>::new());
    assert_eq!(stats_text(1, 2, 3), "torrents:1\npeers:2\nannounces:3\n");
    assert_eq!(response_head("200 OK", 2), "HTTP/1.1 200 OK\r\nContent-Length: 2\r\nConnection: close\r\n\r\n");
}
