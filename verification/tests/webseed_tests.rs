use rtbit::webseed::{
    check_response_status, file_url, multi_file_requests, pick_webseed_piece, range_header, single_file_request,
    webseeds_to_start, worker_step, FetchOutcome, WebSeedFetchError, WebSeedFile, WorkerStep,
    WEBSEED_ERROR_BACKOFF_MS, WEBSEED_RATE_LIMIT_BACKOFF_MS,
};

#[test]
fn picks_first_missing_selected_idle_piece() {
    let have = [true, false, false, false, false];
    let selected = [true, true, false, true, true];
    let inflight = [false, true, false, false, false];
    assert_eq!(pick_webseed_piece(&have, &selected, &inflight, 5), Some(3));
    assert_eq!(pick_webseed_piece(&have, &selected, &inflight, 3), None);
    assert_eq!(pick_webseed_piece(&[true; 4], &[true; 4], &[false; 4], 4), None);
}

#[test]
fn range_header_text() {
    assert_eq!(range_header(0, 262143), "bytes=0-262143");
    assert_eq!(range_header(1048576, 2097151), "bytes=1048576-2097151");
}

#[test]
fn single_file_range() {
    let r = single_file_request("http://example.com/file.iso", 524288, 262144);
    assert_eq!(r.url, "http://example.com/file.iso");
    assert_eq!(r.start, 524288);
    assert_eq!(r.end, 786431);
}

#[test]
fn file_url_trims_slashes_and_encodes() {
    let path = vec!["My Dir".to_string(), "a+b~c.txt".to_string()];
    assert_eq!(file_url("http://h/seed//", &path), "http://h/seed/My%20Dir/a%2Bb~c.txt");
    assert_eq!(file_url("http://h/seed", &["x".to_string()]), "http://h/seed/x");
    assert_eq!(file_url("http://h/", &["é".to_string()]), "http://h/%C3%A9");
}

fn file(offset: u64, len: u64, name: &str) -> WebSeedFile {
    WebSeedFile { offset, len, path: vec![name.to_string()] }
}

#[test]
fn piece_spanning_files() {
    let files = vec![file(0, 100, "a"), file(100, 0, "empty"), file(100, 50, "b"), file(150, 300, "c")];
    let reqs = multi_file_requests("http://h/t/", &files, 90, 80);
    assert_eq!(reqs.len(), 3);
    assert_eq!((reqs[0].url.as_str(), reqs[0].start, reqs[0].end), ("http://h/t/a", 90, 99));
    assert_eq!((reqs[1].url.as_str(), reqs[1].start, reqs[1].end), ("http://h/t/b", 0, 49));
    assert_eq!((reqs[2].url.as_str(), reqs[2].start, reqs[2].end), ("http://h/t/c", 0, 19));
    let covered: u64 = reqs.iter().map(|r| r.end - r.start + 1).sum();
    assert_eq!(covered, 80);
}

#[test]
fn piece_within_one_file_and_past_the_end() {
    let files = vec![file(0, 100, "a"), file(100, 50, "b")];
    let reqs = multi_file_requests("http://h", &files, 110, 20);
    assert_eq!(reqs.len(), 1);
    assert_eq!((reqs[0].url.as_str(), reqs[0].start, reqs[0].end), ("http://h/b", 10, 29));
    // The last piece may be cut short by the end of the data.
    let reqs = multi_file_requests("http://h", &files, 140, 64);
    assert_eq!(reqs.len(), 1);
    assert_eq!((reqs[0].start, reqs[0].end), (40, 49));
    assert!(multi_file_requests("http://h", &files, 150, 10).is_empty());
}

#[test]
fn status_classes() {
    assert_eq!(check_response_status(200), Ok(()));
    assert_eq!(check_response_status(206), Ok(()));
    assert_eq!(check_response_status(404), Err(WebSeedFetchError::NotFound));
    assert_eq!(check_response_status(429), Err(WebSeedFetchError::RateLimited));
    assert_eq!(check_response_status(503), Err(WebSeedFetchError::ServerError(503)));
    assert_eq!(check_response_status(403), Err(WebSeedFetchError::UnexpectedStatus(403)));
    assert_eq!(check_response_status(301), Err(WebSeedFetchError::UnexpectedStatus(301)));
}

#[test]
fn worker_decisions() {
    assert_eq!(worker_step(FetchOutcome::Checked { hash_ok: true }), WorkerStep::PieceVerified);
    assert_eq!(worker_step(FetchOutcome::Checked { hash_ok: false }), WorkerStep::PieceFailed);
    assert_eq!(worker_step(FetchOutcome::Failed(WebSeedFetchError::NotFound)), WorkerStep::Stop);
    assert_eq!(
        worker_step(FetchOutcome::Failed(WebSeedFetchError::RateLimited)),
        WorkerStep::Backoff { ms: WEBSEED_RATE_LIMIT_BACKOFF_MS }
    );
    assert_eq!(
        worker_step(FetchOutcome::Failed(WebSeedFetchError::ServerError(500))),
        WorkerStep::Backoff { ms: WEBSEED_ERROR_BACKOFF_MS }
    );
    assert_eq!(
        worker_step(FetchOutcome::Failed(WebSeedFetchError::RequestFailed)),
        WorkerStep::Backoff { ms: 30_000 }
    );
}

#[test]
fn private_torrents_skip_web_seeds() {
    let urls = vec!["http://a/".to_string(), "http://b/".to_string()];
    assert!(webseeds_to_start(true, &urls).is_empty());
    assert_eq!(webseeds_to_start(false, &urls), urls);
}
