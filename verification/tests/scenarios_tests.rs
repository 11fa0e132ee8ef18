use rtbit::scenarios::{
    data_filename, generate_all, piece_length, pick, resolve_scenarios, select_scenarios, size_label, torrent_filename, torrent_paths, GB, MB,
};

#[test]
fn size_labels() {
    assert_eq!(size_label(8 * GB), "8gb");
    assert_eq!(size_label(GB), "1gb");
    assert_eq!(size_label(GB - 1), "1023mb");
    assert_eq!(size_label(20 * MB), "20mb");
    assert_eq!(size_label(0), "0mb");
}

#[test]
fn grid_has_every_point() {
    let all = generate_all();
    assert_eq!(all.len(), 280);
    let first = &all[0];
    assert_eq!(first.name, "sz2g_f1_3p");
    assert_eq!(first.description, "2 GB total, 1 file(s) x 2048 MB, 3 peers");
    assert_eq!(first.file_size, 2 * GB);
    assert_eq!(first.timeout_secs, 300);
    let last = &all[279];
    assert_eq!(last.name, "sz20g_f100_1000p");
    assert_eq!(last.num_files, 100);
    assert_eq!(last.mock_peers, 1000);
    assert_eq!(last.timeout_secs, 2400);
    assert_eq!(last.total_peers(), 1000);
    assert_eq!(last.total_bytes(), 100 * ((20 * GB) / 100));
}

#[test]
fn groups_and_lists() {
    assert_eq!(resolve_scenarios("all").len(), 280);
    let quick = resolve_scenarios("  QUICK ");
    assert_eq!(quick.len(), 1);
    assert_eq!(quick[0].name, "sz8g_f1_3p");
    let medium: Vec<String> = resolve_scenarios("medium").into_iter().map(|s| s.name).collect();
    assert_eq!(medium, vec!["sz8g_f1_3p", "sz16g_f1_3p", "sz8g_f10_3p", "sz8g_f100_3p", "sz8g_f1_100p", "sz8g_f1_500p"]);
    let size_ramp = resolve_scenarios("size_ramp");
    assert_eq!(size_ramp.len(), 10);
    assert!(size_ramp.iter().all(|s| s.num_files == 1 && s.real_seeders == 3 && s.mock_peers == 0));
    let file_ramp = resolve_scenarios("file_ramp");
    assert_eq!(file_ramp.len(), 4);
    assert!(file_ramp.iter().all(|s| s.name.starts_with("sz10g")));
    let peer_ramp = resolve_scenarios("peer_ramp");
    assert_eq!(peer_ramp.len(), 7);
    // a comma-separated list keeps grid order, not list order
    let listed: Vec<String> = resolve_scenarios("sz4g_f10_50p, sz2g_f1_3p ,nope").into_iter().map(|s| s.name).collect();
    assert_eq!(listed, vec!["sz2g_f1_3p", "sz4g_f10_50p"]);
    assert!(resolve_scenarios("").is_empty());
}

#[test]
fn pick_keeps_name_order_and_skips_unknown() {
    let all = generate_all();
    let picked = pick(&all, &["sz4g_f1_3p", "missing", "sz2g_f1_3p", "sz4g_f1_3p"]);
    let names: Vec<&str> = picked.iter().map(|s| s.name.as_str()).collect();
    assert_eq!(names, vec!["sz4g_f1_3p", "sz2g_f1_3p", "sz4g_f1_3p"]);
}

#[test]
fn piece_lengths_by_size() {
    assert_eq!(piece_length(0), 256 * 1024);
    assert_eq!(piece_length(128 * MB - 1), 256 * 1024);
    assert_eq!(piece_length(128 * MB), 512 * 1024);
    assert_eq!(piece_length(512 * MB), MB);
    assert_eq!(piece_length(2 * GB), 2 * MB);
    assert_eq!(piece_length(8 * GB), 4 * MB);
}

#[test]
fn file_names() {
    assert_eq!(data_filename("8gb", 0), "bench_8gb_000.bin");
    assert_eq!(data_filename("8gb", 42), "bench_8gb_042.bin");
    assert_eq!(torrent_filename("20mb", 1234), "bench_20mb_1234.torrent");
    let all = generate_all();
    let sc = all.iter().find(|s| s.name == "sz8g_f10_3p").unwrap();
    let paths = torrent_paths(sc, "/data/torrents");
    assert_eq!(paths.len(), 10);
    assert_eq!(paths[3], std::path::Path::new("/data/torrents").join("bench_819mb_003.torrent"));
}

#[test]
fn seeder_verify_timeouts() {
    let mut sc = rtbit::scenarios::Scenario {
        name: "x".to_string(),
        description: String::new(),
        file_size: 1024 * 1024 * 1024,
        num_files: 1,
        real_seeders: 1,
        mock_peers: 0,
        timeout_secs: 60,
    };
    // 1 GB is about 20 s at 50 MB/s: the three minutes stand.
    assert_eq!(sc.seeder_verify_timeout_secs(), 180);
    sc.num_files = 16;
    // 16 GB: 16384 MB / 50 MB = 327 s.
    assert_eq!(sc.seeder_verify_timeout_secs(), 327);
}

#[test]
fn selecting_from_a_prepared_selector() {
    assert_eq!(select_scenarios("all").len(), 280);
    // The selector is taken as it is: not trimmed, not lowercased.
    assert!(select_scenarios(" quick").is_empty());
    assert!(select_scenarios("QUICK").is_empty());
    let quick: Vec<String> = select_scenarios("quick").into_iter().map(|s| s.name).collect();
    assert_eq!(quick, vec!["sz8g_f1_3p".to_string()]);
    let listed: Vec<String> = select_scenarios("sz2g_f1_3p, sz4g_f10_50p").into_iter().map(|s| s.name).collect();
    assert_eq!(listed, vec!["sz2g_f1_3p".to_string(), "sz4g_f10_50p".to_string()]);
}

#[test]
fn torrent_names_follow_data_names() {
    for (label, idx) in [("8gb", 0usize), ("8gb", 7), ("16gb", 42), ("x", 999), ("x", 1000)] {
        let data = data_filename(label, idx);
        let torrent = torrent_filename(label, idx);
        assert!(data.ends_with(".bin"));
        assert_eq!(torrent, format!("{}.torrent", &data[..data.len() - 4]));
    }
    assert_eq!(torrent_filename("8gb", 7), "bench_8gb_007.torrent");
    assert_ne!(torrent_filename("8gb", 7), torrent_filename("8gb", 70));
    assert_ne!(torrent_filename("8gb", 100), torrent_filename("8gb", 1000));
}

#[test]
fn selections_never_repeat_a_scenario() {
    for sel in ["all", "quick", "medium", "size_ramp", "file_ramp", "peer_ramp", "sz2g_f1_3p,sz2g_f1_3p", ""] {
        let names: Vec<String> = resolve_scenarios(sel).into_iter().map(|s| s.name).collect();
        let mut sorted = names.clone();
        sorted.sort();
        sorted.dedup();
        assert_eq!(sorted.len(), names.len(), "{}", sel);
    }
}
