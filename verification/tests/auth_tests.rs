use rtbit::http_auth::{constant_time_eq, generate_token, TokenStore, ACCESS_TOKEN_TTL_MS, REFRESH_TOKEN_TTL_MS};

#[test]
fn constant_time_comparison() {
    assert!(constant_time_eq(b"secret", b"secret"));
    assert!(!constant_time_eq(b"secret", b"secreT"));
    assert!(!constant_time_eq(b"secret", b"secret!"));
    assert!(constant_time_eq(b"", b""));
}

#[test]
fn tokens_are_64_hex_digits() {
    let t = generate_token();
    assert_eq!(t.len(), 64);
    assert!(t.chars().all(|c| c.is_ascii_hexdigit() && !c.is_ascii_uppercase()));
    assert_ne!(generate_token(), t);
}

#[test]
fn access_tokens_expire() {
    let mut store = TokenStore::new();
    let now = 1_000_000;
    let tokens = store.create_tokens(now);
    assert_eq!(tokens.token_type, "Bearer");
    assert_eq!(tokens.expires_in, 900);
    assert!(store.validate_access_token(&tokens.access_token, now));
    assert!(store.validate_access_token(&tokens.access_token, now + ACCESS_TOKEN_TTL_MS - 1));
    assert!(!store.validate_access_token(&tokens.access_token, now + ACCESS_TOKEN_TTL_MS));
    assert!(!store.validate_access_token("nope", now));
    // a refresh token is no access token
    assert!(!store.validate_access_token(&tokens.refresh_token, now));
}

#[test]
fn refresh_rotates_the_refresh_token() {
    let mut store = TokenStore::new();
    let now = 5;
    let first = store.create_tokens(now);
    let second = store.refresh(&first.refresh_token, now + 10).expect("valid refresh token");
    assert_ne!(second.refresh_token, first.refresh_token);
    assert!(store.refresh(&first.refresh_token, now + 20).is_none());
    assert!(store.validate_access_token(&second.access_token, now + 10));
    // the old access token stays valid until it expires
    assert!(store.validate_access_token(&first.access_token, now + 10));
    assert!(store.refresh(&second.refresh_token, now + 10 + REFRESH_TOKEN_TTL_MS).is_none());
}

#[test]
fn revoke_and_cleanup() {
    let mut store = TokenStore::new();
    let t = store.create_tokens(0);
    store.revoke_refresh_token(&t.refresh_token);
    assert!(store.refresh(&t.refresh_token, 1).is_none());
    store.cleanup_expired(ACCESS_TOKEN_TTL_MS);
    assert!(!store.validate_access_token(&t.access_token, 0));
    let u = store.create_tokens(10);
    store.cleanup_expired(11);
    assert!(store.validate_access_token(&u.access_token, 11));
}

use rtbit::http_auth::{basic_auth_decision, credentials_match, BasicAuthDecision};

#[test]
fn basic_auth_decisions() {
    let exp = Some(("user", "pw"));
    assert_eq!(basic_auth_decision(None, Some(b"Basic dXNlcjpwdw==")), BasicAuthDecision::NotRequired);
    assert_eq!(basic_auth_decision(exp, Some(b"Basic dXNlcjpwdw==")), BasicAuthDecision::Accept);
    // "user:px"
    assert_eq!(basic_auth_decision(exp, Some(b"Basic dXNlcjpweA==")), BasicAuthDecision::Reject);
    // "user" without a colon
    assert_eq!(basic_auth_decision(exp, Some(b"Basic dXNlcg==")), BasicAuthDecision::Reject);
    assert_eq!(basic_auth_decision(exp, None), BasicAuthDecision::Challenge);
    assert_eq!(basic_auth_decision(exp, Some(b"Bearer abc")), BasicAuthDecision::Challenge);
    assert_eq!(basic_auth_decision(exp, Some(b"Basic !!!")), BasicAuthDecision::Challenge);
    assert_eq!(basic_auth_decision(exp, Some(b"Basic dXNlcjpwdw==\x01")), BasicAuthDecision::Challenge);
    // "user:p:w" splits at the first colon
    assert_eq!(basic_auth_decision(Some(("user", "p:w")), Some(b"Basic dXNlcjpwOnc=")), BasicAuthDecision::Accept);
}

#[test]
fn login_credentials() {
    assert!(credentials_match("a", "b", "a", "b"));
    assert!(!credentials_match("a", "b", "a", "c"));
    assert!(!credentials_match("ab", "", "a", "b"));
}

use rtbit::http_auth::{api_auth_decision, ApiAuthDecision, CorsPolicy};

#[test]
fn api_auth_layer() {
    let mut store = TokenStore::new();
    let t = store.create_tokens(0);
    let bearer = format!("Bearer {}", t.access_token);
    let basic = b"Basic dXNlcjpwdw==";
    // Login and refresh pass without credentials.
    assert_eq!(api_auth_decision("/auth/login", Some(&store), 1, None, "user", "pw"), ApiAuthDecision::Pass);
    assert_eq!(api_auth_decision("/auth/refresh", Some(&store), 1, None, "user", "pw"), ApiAuthDecision::Pass);
    // A valid token passes; an expired or unknown one is refused with no fallback.
    assert_eq!(api_auth_decision("/torrents", Some(&store), 1, Some(bearer.as_bytes()), "user", "pw"), ApiAuthDecision::Pass);
    assert_eq!(
        api_auth_decision("/torrents", Some(&store), ACCESS_TOKEN_TTL_MS, Some(bearer.as_bytes()), "user", "pw"),
        ApiAuthDecision::Unauthorized
    );
    assert_eq!(
        api_auth_decision("/torrents", Some(&store), 1, Some(b"Bearer nope"), "user", "pw"),
        ApiAuthDecision::Unauthorized
    );
    // Basic authentication is the fallback.
    assert_eq!(api_auth_decision("/torrents", Some(&store), 1, Some(basic), "user", "pw"), ApiAuthDecision::Pass);
    assert_eq!(api_auth_decision("/torrents", None, 1, Some(basic), "user", "pw"), ApiAuthDecision::Pass);
    assert_eq!(api_auth_decision("/torrents", None, 1, Some(basic), "user", "px"), ApiAuthDecision::Unauthorized);
    assert_eq!(api_auth_decision("/torrents", None, 1, None, "user", "pw"), ApiAuthDecision::Challenge);
    // Without a token store a bearer header is not read as one.
    assert_eq!(api_auth_decision("/torrents", None, 1, Some(bearer.as_bytes()), "user", "pw"), ApiAuthDecision::Challenge);
}

#[test]
fn cors_origins() {
    let plain = CorsPolicy::new(None);
    assert!(plain.allows(b"http://localhost:3031"));
    assert!(plain.allows(b"http://localhost:1420"));
    assert!(plain.allows(b"tauri://localhost"));
    assert!(!plain.allows(b"http://evil.example"));
    let with_pattern = CorsPolicy::new(Some("^https://.*\\.example\\.com$"));
    assert!(with_pattern.allows(b"https://app.example.com"));
    assert!(!with_pattern.allows(b"http://app.example.com"));
    assert!(with_pattern.allows(b"http://127.0.0.1:3031"));
    let broken = CorsPolicy::new(Some("("));
    assert!(!broken.allows(b"("));
    assert!(broken.allows(b"http://localhost:3031"));
}

use rtbit::http_auth::{auth_login, auth_logout, auth_refresh, AuthReply, LoginRequest, LogoutRequest, RefreshRequest};

fn login_req(u: &str, p: &str) -> LoginRequest {
    LoginRequest { username: u.to_string(), password: p.to_string() }
}

#[test]
fn login_endpoint() {
    let mut none: Option<TokenStore> = None;
    assert!(matches!(auth_login(None, &mut none, &login_req("a", "b"), 0), AuthReply::AuthNotConfigured));
    assert!(matches!(auth_login(Some(("a", "b")), &mut none, &login_req("a", "b"), 0), AuthReply::TokensNotConfigured));
    let mut store = Some(TokenStore::new());
    assert!(matches!(auth_login(Some(("a", "b")), &mut store, &login_req("a", "x"), 0), AuthReply::InvalidCredentials));
    match auth_login(Some(("a", "b")), &mut store, &login_req("a", "b"), 0) {
        AuthReply::Tokens(t) => {
            assert_eq!(t.token_type, "Bearer");
            assert!(store.as_ref().unwrap().validate_access_token(&t.access_token, 1));
        }
        _ => panic!("login refused"),
    }
}

#[test]
fn refresh_and_logout_endpoints() {
    let mut none: Option<TokenStore> = None;
    let r = RefreshRequest { refresh_token: "x".to_string() };
    assert!(matches!(auth_refresh(&mut none, &r, 0), AuthReply::TokensNotConfigured));
    let mut store = Some(TokenStore::new());
    let t = store.as_mut().unwrap().create_tokens(0);
    assert!(matches!(auth_refresh(&mut store, &r, 1), AuthReply::InvalidRefreshToken));
    let good = RefreshRequest { refresh_token: t.refresh_token.clone() };
    let fresh = match auth_refresh(&mut store, &good, 1) {
        AuthReply::Tokens(n) => n,
        _ => panic!("refresh refused"),
    };
    // The old refresh token was rotated out.
    assert!(matches!(auth_refresh(&mut store, &good, 2), AuthReply::InvalidRefreshToken));
    auth_logout(&mut store, &LogoutRequest { refresh_token: fresh.refresh_token.clone() });
    let again = RefreshRequest { refresh_token: fresh.refresh_token };
    assert!(matches!(auth_refresh(&mut store, &again, 3), AuthReply::InvalidRefreshToken));
    auth_logout(&mut none, &LogoutRequest { refresh_token: "y".to_string() });
}
