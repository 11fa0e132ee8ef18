use rtbit::bench_clients::{is_seeding, login_accepted, temp_password_candidates};

#[test]
fn password_from_log() {
    let logs = "Starting...\r\n\
                The WebUI administrator password was not set. A temporary password is provided for this session: aBcD1234\r\n\
                other: zzz\n";
    assert_eq!(temp_password_candidates(logs), vec!["aBcD1234".to_string(), "aBcD1234".to_string()]);
}

#[test]
fn password_candidates_edge_cases() {
    assert!(temp_password_candidates("").is_empty());
    assert!(temp_password_candidates("no password here: x").is_empty());
    // No colon: only the last word.
    assert_eq!(temp_password_candidates("temporary password  abc  "), vec!["abc".to_string()]);
    // Nothing after the colon: the last word is the colon's word.
    assert_eq!(temp_password_candidates("temporary password: \n"), vec!["password:".to_string()]);
    // Several lines, in order.
    assert_eq!(
        temp_password_candidates("temporary password: a b\ntemporary password:c"),
        vec!["a b".to_string(), "b".to_string(), "c".to_string(), "password:c".to_string()]
    );
}

#[test]
fn login_answers() {
    assert!(login_accepted("Ok."));
    assert!(login_accepted("OK"));
    assert!(!login_accepted("Fails."));
    assert!(!login_accepted("o"));
    assert!(!login_accepted(""));
}

#[test]
fn seeding_states() {
    assert!(!is_seeding(&[]));
    assert!(is_seeding(&[Some(6), Some(6)]));
    assert!(!is_seeding(&[Some(6), None]));
    assert!(!is_seeding(&[Some(4)]));
}
