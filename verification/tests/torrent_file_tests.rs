use rtbit::scenarios::Scenario;
use rtbit::torrent_file::{create_torrent, hex_string, needed_files, piece_hashes};
use sha1::{Digest, Sha1};

fn sha1(data: &[u8]) -> Vec<u8> {
    Sha1::digest(data).to_vec()
}

#[test]
fn hex_is_lowercase_two_digits_per_byte() {
    assert_eq!(hex_string(&[0x00, 0xff, 0x1a, 0x09]), "00ff1a09");
    assert_eq!(hex_string(&[]), "");
}

#[test]
fn piece_hashes_of_known_data() {
    let h = piece_hashes(b"abc", 1024);
    assert_eq!(hex_string(&h), "a9993e364706816aba3e25717850c26c9cd0d89d");
    assert!(piece_hashes(b"", 16).is_empty());
}

#[test]
fn piece_hashes_split_into_pieces() {
    let data: Vec<u8> = (0..10u8).collect();
    let h = piece_hashes(&data, 4);
    let mut expected = sha1(&data[0..4]);
    expected.extend(sha1(&data[4..8]));
    expected.extend(sha1(&data[8..10]));
    assert_eq!(h, expected);
}

#[test]
fn piece_hashes_part_by_part() {
    let data: Vec<u8> = (0..37u8).collect();
    let whole = piece_hashes(&data, 8);
    let mut parts = piece_hashes(&data[..16], 8);
    parts.extend(piece_hashes(&data[16..], 8));
    assert_eq!(whole, parts);
}

#[test]
fn torrent_bytes_and_info_hash() {
    let pieces = sha1(b"abc");
    let (bytes, hash) = create_torrent(b"x.bin", 3, pieces.clone(), "http://t/announce", 1700000000);
    let mut info = b"d6:lengthi3e4:name5:x.bin12:piece lengthi262144e6:pieces20:".to_vec();
    info.extend_from_slice(&pieces);
    info.push(b'e');
    let mut expected = b"d8:announce17:http://t/announce10:created by7:benchv213:creation datei1700000000e4:info".to_vec();
    expected.extend_from_slice(&info);
    expected.push(b'e');
    assert_eq!(bytes, expected);
    assert_eq!(hash, hex_string(&sha1(&info)));
    assert_eq!(hash.len(), 40);
}

#[test]
fn torrent_piece_length_follows_size() {
    let (bytes, _) = create_torrent(b"big", 600 * 1024 * 1024, Vec::new(), "u", 0);
    let text = String::from_utf8_lossy(&bytes).to_string();
    assert!(text.contains("12:piece lengthi1048576e"));
    assert!(text.contains("6:lengthi629145600e"));
}

fn sc(name: &str, size: u64, files: usize) -> Scenario {
    Scenario {
        name: name.to_string(),
        description: String::new(),
        file_size: size,
        num_files: files,
        real_seeders: 1,
        mock_peers: 0,
        timeout_secs: 60,
    }
}

#[test]
fn needed_files_takes_most_per_size() {
    let all = vec![sc("a", 10, 2), sc("b", 20, 1), sc("c", 10, 5), sc("d", 10, 3)];
    assert_eq!(needed_files(&all), vec![(10, 5), (20, 1)]);
    assert!(needed_files(&[]).is_empty());
}
