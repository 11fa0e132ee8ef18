use rtbit::notify::{NotificationMonitor, TorrentObservation, TorrentStatus};

fn obs(id: usize, name: Option<&str>, finished: bool, is_error: bool, error: Option<&str>) -> TorrentObservation {
    TorrentObservation {
        id,
        name: name.map(|n| n.to_string()),
        status: Some(TorrentStatus { finished, is_error, error: error.map(|e| e.to_string()) }),
    }
}

fn texts(m: &mut NotificationMonitor, poll: &[TorrentObservation]) -> Vec<(String, String)> {
    m.observe(poll).into_iter().map(|n| (n.title, n.body)).collect()
}

#[test]
fn first_sight_is_silent() {
    let mut m = NotificationMonitor::new();
    assert!(texts(&mut m, &[obs(1, Some("ubuntu"), true, true, Some("disk full"))]).is_empty());
}

#[test]
fn completion_is_announced_once() {
    let mut m = NotificationMonitor::new();
    assert!(texts(&mut m, &[obs(1, Some("ubuntu"), false, false, None)]).is_empty());
    assert_eq!(
        texts(&mut m, &[obs(1, Some("ubuntu"), true, false, None)]),
        vec![("Download Complete".to_string(), "ubuntu".to_string())]
    );
    assert!(texts(&mut m, &[obs(1, Some("ubuntu"), true, false, None)]).is_empty());
}

#[test]
fn failure_names_the_error() {
    let mut m = NotificationMonitor::new();
    texts(&mut m, &[obs(7, None, false, false, None), obs(8, Some("debian"), false, false, None)]);
    let got = texts(&mut m, &[obs(7, None, false, true, None), obs(8, Some("debian"), true, true, Some("disk full"))]);
    assert_eq!(
        got,
        vec![
            ("Download Failed".to_string(), "Unknown torrent: Unknown error".to_string()),
            ("Download Complete".to_string(), "debian".to_string()),
            ("Download Failed".to_string(), "debian: disk full".to_string()),
        ]
    );
}

#[test]
fn removed_torrents_are_forgotten() {
    let mut m = NotificationMonitor::new();
    texts(&mut m, &[obs(1, Some("a"), false, false, None)]);
    // Torrent 1 disappears for a poll, so it is seen anew afterwards.
    texts(&mut m, &[obs(2, Some("b"), false, false, None)]);
    assert!(texts(&mut m, &[obs(1, Some("a"), true, false, None)]).is_empty());
}

#[test]
fn torrents_without_stats_are_kept_but_not_compared() {
    let mut m = NotificationMonitor::new();
    texts(&mut m, &[obs(1, Some("a"), false, false, None)]);
    let no_stats = TorrentObservation { id: 1, name: Some("a".to_string()), status: None };
    assert!(texts(&mut m, &[no_stats]).is_empty());
    assert_eq!(
        texts(&mut m, &[obs(1, Some("a"), true, false, None)]),
        vec![("Download Complete".to_string(), "a".to_string())]
    );
}
