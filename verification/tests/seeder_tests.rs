use rtbit::bencode::{BDict, BValue};
use rtbit::seeder::{
    bitfield_bytes, bitfield_message, block_range, control_route, handshake_reply, parse_handshake, parse_peer_message,
    parse_torrent_meta, peer_id_for, piece_header, torrents_response, unchoke_message, ControlRoute, PeerRequest, SeederError,
};
use sha1::Digest;

#[test]
fn handshake_roundtrip_and_refusal() {
    let reply = handshake_reply(&[7u8; 20], &[9u8; 20]);
    assert_eq!(reply.len(), 68);
    assert_eq!(reply[0], 19);
    assert_eq!(&reply[1..20], b"BitTorrent protocol");
    assert_eq!(&reply[20..28], &[0u8; 8]);
    assert_eq!(parse_handshake(&reply), Ok([7u8; 20]));
    let mut bad = reply.clone();
    bad[5] = b'x';
    assert_eq!(parse_handshake(&bad), Err(SeederError::BadHandshake));
    bad[5] = reply[5];
    bad[0] = 18;
    assert_eq!(parse_handshake(&bad), Err(SeederError::BadHandshake));
}

#[test]
fn bitfields() {
    assert_eq!(bitfield_bytes(0), Vec::<u8>::new());
    assert_eq!(bitfield_bytes(8), vec![0xFF]);
    assert_eq!(bitfield_bytes(10), vec![0xFF, 0xC0]);
    assert_eq!(bitfield_bytes(3), vec![0xE0]);
    assert_eq!(bitfield_message(&[0xFF, 0xC0]), vec![0, 0, 0, 3, 5, 0xFF, 0xC0]);
    assert_eq!(unchoke_message(), vec![0, 0, 0, 1, 1]);
}

#[test]
fn peer_messages() {
    let mut req = vec![6u8];
    req.extend_from_slice(&3u32.to_be_bytes());
    req.extend_from_slice(&16384u32.to_be_bytes());
    req.extend_from_slice(&16384u32.to_be_bytes());
    assert_eq!(parse_peer_message(&req), PeerRequest::Block(3, 16384, 16384));
    assert_eq!(parse_peer_message(&req[..12]), PeerRequest::Ignore);
    assert_eq!(parse_peer_message(&[2]), PeerRequest::Interested);
    assert_eq!(parse_peer_message(&[0]), PeerRequest::Ignore);
    let h = piece_header(3, 16384, 100);
    assert_eq!(h, vec![0, 0, 0, 109, 7, 0, 0, 0, 3, 0, 0, 0x40, 0]);
}

#[test]
fn block_ranges() {
    assert_eq!(block_range(1, 10, 20, 100, 1000), Ok((110, 130)));
    assert_eq!(block_range(9, 90, 10, 100, 1000), Ok((990, 1000)));
    assert_eq!(block_range(9, 90, 11, 100, 1000), Err(SeederError::BlockOutOfRange));
}

#[test]
fn torrent_meta_from_file() {
    let mut info = BDict::new();
    info.insert(b"length".to_vec(), BValue::Int(1000));
    info.insert(b"name".to_vec(), BValue::Bytes(b"data.bin".to_vec()));
    info.insert(b"piece length".to_vec(), BValue::Int(300));
    info.insert(b"pieces".to_vec(), BValue::Bytes(vec![0u8; 80]));
    let info_bytes = BValue::Dict(info).encode();
    let mut info2 = BDict::new();
    info2.insert(b"length".to_vec(), BValue::Int(1000));
    info2.insert(b"name".to_vec(), BValue::Bytes(b"data.bin".to_vec()));
    info2.insert(b"piece length".to_vec(), BValue::Int(300));
    info2.insert(b"pieces".to_vec(), BValue::Bytes(vec![0u8; 80]));
    let mut top = BDict::new();
    top.insert(b"announce".to_vec(), BValue::Bytes(b"http://t".to_vec()));
    top.insert(b"info".to_vec(), BValue::Dict(info2));
    let raw = BValue::Dict(top).encode();
    let meta = parse_torrent_meta(&raw).unwrap();
    assert_eq!(meta.name, b"data.bin".to_vec());
    assert_eq!(meta.piece_length, 300);
    assert_eq!(meta.total_length, 1000);
    assert_eq!(meta.num_pieces, 4);
    let expected: [u8; 20] = sha1::Sha1::digest(&info_bytes).into();
    assert_eq!(meta.info_hash, expected);

    assert!(matches!(parse_torrent_meta(b"i1e"), Err(SeederError::NotADict)));
    assert!(matches!(parse_torrent_meta(b"de"), Err(SeederError::NoInfoDict)));
    assert!(matches!(parse_torrent_meta(b"d4:infodee"), Err(SeederError::NoName)));
    assert!(matches!(parse_torrent_meta(b"d4:infod4:name1:xee"), Err(SeederError::NoPieceLength)));
    assert!(matches!(parse_torrent_meta(b"d4:infod4:name1:x12:piece lengthi1eee"), Err(SeederError::NoLength)));
    assert!(matches!(parse_torrent_meta(b"x"), Err(SeederError::Decode(_))));
}

#[test]
fn virtual_peer_ids() {
    assert_eq!(&peer_id_for(0), b"-MS0001-000000000000");
    assert_eq!(&peer_id_for(42), b"-MS0001-000000000042");
    assert_eq!(&peer_id_for(1234567890123), b"-MS0001-123456789012");
}

#[test]
fn control_routes_and_replies() {
    assert_eq!(control_route("/health"), ControlRoute::Health);
    assert_eq!(control_route("/status"), ControlRoute::Status);
    assert_eq!(control_route("/reload"), ControlRoute::Reload);
    assert_eq!(control_route("/drop-cache"), ControlRoute::DropCache);
    assert_eq!(control_route("/health/x"), ControlRoute::NotFound);
    assert_eq!(
        torrents_response(3),
        "HTTP/1.1 200 OK\r\nContent-Type: application/json\r\nContent-Length: 14\r\n\r\n{\"torrents\":3}"
    );
}

#[test]
fn announce_urls() {
    let url = rtbit::seeder::announce_url("http://tracker:6969/announce", &[0xAB; 20], 12, 6881);
    let ih: String = (0..20).map(|_| "%AB").collect();
    assert_eq!(
        url,
        format!("http://tracker:6969/announce?info_hash={ih}&peer_id=%2DMS0001%2D000000000012&port=6881&uploaded=0&downloaded=0&left=0&compact=1&event=started")
    );
}
