use rtbit::text::{is_white, trim};
use rtbit::desktop_config::{
    session_persistence_folder,
    default_rss_history_limit, upnp_friendly_name, validate_upnp_http_api, DesktopConfigError, ListenerMode, RtbitDesktopConfigConnections,
    RtbitDesktopConfigPersistence, RtbitDesktopConfigUpnp,
};
use rtbit::incoming::{check_address, check_peer_handshake, choose_protocol, IncomingRefusal};
use rtbit::mse::EncryptionMode;
use rtbit::svg::xml_escape;
use std::path::PathBuf;
use std::time::Duration;

#[test]
fn xml_escaping() {
    assert_eq!(xml_escape("a<b>&c"), "a&lt;b&gt;&amp;c");
    assert_eq!(xml_escape("&lt;"), "&amp;lt;");
    assert_eq!(xml_escape("plain"), "plain");
    assert_eq!(xml_escape(""), "");
}

#[test]
fn connections_defaults_and_choices() {
    let mut c = RtbitDesktopConfigConnections::default();
    assert!(c.enable_tcp_listen && c.enable_tcp_outgoing && !c.enable_utp && c.enable_upnp_port_forward);
    assert_eq!(c.listen_port, 4240);
    assert_eq!(c.peer_connect_timeout, Duration::from_secs(2));
    assert_eq!(c.peer_read_write_timeout, Duration::from_secs(10));
    assert_eq!(c.listener_mode(), Some(ListenerMode::TcpOnly));
    assert_eq!(c.proxy_url(), None);
    c.enable_utp = true;
    assert_eq!(c.listener_mode(), Some(ListenerMode::TcpAndUtp));
    c.enable_tcp_listen = false;
    assert_eq!(c.listener_mode(), Some(ListenerMode::UtpOnly));
    c.enable_utp = false;
    assert_eq!(c.listener_mode(), None);
    c.socks_proxy = "socks5://h:1".to_string();
    assert_eq!(c.proxy_url(), Some("socks5://h:1".to_string()));
    let u = RtbitDesktopConfigUpnp::default();
    assert!(!u.enable_server && u.server_friendly_name.is_none());
    assert_eq!(default_rss_history_limit(), Some(500));
}

fn persistence(folder: &str, filename: &str) -> RtbitDesktopConfigPersistence {
    RtbitDesktopConfigPersistence {
        disable: false,
        folder: PathBuf::from(folder),
        fastresume: true,
        fastresume_validation_denom: Some(3),
        filename: PathBuf::from(filename),
    }
}

#[test]
fn persistence_backwards_compat() {
    let mut p = persistence("", "/old/place/session.json");
    p.fix_backwards_compat();
    assert_eq!(p.folder, PathBuf::from("/old/place"));
    assert!(p.fastresume);
    let mut p = persistence("/new", "/old/place/session.json");
    p.fix_backwards_compat();
    assert_eq!(p.folder, PathBuf::from("/new"));
    let mut p = persistence("", "");
    p.fix_backwards_compat();
    assert_eq!(p.folder, PathBuf::from(""));
    let mut p = persistence("", "/");
    p.fix_backwards_compat();
    assert_eq!(p.folder, PathBuf::from(""));
}

#[test]
fn upnp_needs_a_reachable_http_api() {
    assert_eq!(validate_upnp_http_api(false, true, true), Ok(()));
    assert_eq!(validate_upnp_http_api(true, true, false), Err(DesktopConfigError::UpnpNeedsHttpApi));
    assert_eq!(validate_upnp_http_api(true, false, true), Err(DesktopConfigError::UpnpNeedsNonLoopbackHttpApi));
    assert_eq!(validate_upnp_http_api(true, false, false), Ok(()));
}

#[test]
fn incoming_connection_checks() {
    assert_eq!(check_address(true, Some(true)), Err(IncomingRefusal::Blocked));
    assert_eq!(check_address(false, Some(false)), Err(IncomingRefusal::NotAllowed));
    assert_eq!(check_address(false, None), Ok(()));
    assert_eq!(choose_protocol(0x13, EncryptionMode::Enabled), Ok(false));
    assert_eq!(choose_protocol(0x42, EncryptionMode::Enabled), Ok(true));
    assert_eq!(choose_protocol(0x42, EncryptionMode::Disabled), Err(IncomingRefusal::EncryptionDisabled));
    assert_eq!(choose_protocol(0x13, EncryptionMode::Forced), Err(IncomingRefusal::EncryptionForced));
    assert_eq!(check_peer_handshake(&[1; 20], &[1; 20], &[5; 20], None), Err(IncomingRefusal::SelfConnection));
    assert_eq!(check_peer_handshake(&[2; 20], &[1; 20], &[5; 20], Some(&[6; 20])), Err(IncomingRefusal::InfoHashMismatch));
    assert_eq!(check_peer_handshake(&[2; 20], &[1; 20], &[5; 20], Some(&[5; 20])), Ok(()));
}

#[test]
fn upnp_friendly_names() {
    assert_eq!(upnp_friendly_name(&Some("  Living room ".to_string()), "box"), "Living room");
    assert_eq!(upnp_friendly_name(&Some("   ".to_string()), "box"), "rtbit-desktop@box");
    assert_eq!(upnp_friendly_name(&None, "host.local"), "rtbit-desktop@host.local");
}

#[test]
fn white_space_characters() {
    for c in ['\t', '\n', '\u{0B}', '\u{0C}', '\r', ' ', '\u{85}', '\u{A0}', '\u{1680}', '\u{2000}', '\u{200A}', '\u{2028}', '\u{2029}', '\u{202F}', '\u{205F}', '\u{3000}'] {
        assert!(is_white(c), "{:?}", c);
        assert!(c.is_whitespace());
    }
    for c in ['a', '\u{200B}', '\u{FEFF}', '\u{180E}', '\u{0}', '_'] {
        assert!(!is_white(c), "{:?}", c);
        assert!(!c.is_whitespace());
    }
}

#[test]
fn trim_strips_unicode_white_space() {
    for t in ["  a b  ", "\u{3000}x\u{2028}", "", "   ", "\u{200B}x\u{200B}", "\t\n q \r"] {
        assert_eq!(trim(t), t.trim(), "{:?}", t);
    }
}

#[test]
fn persistence_folder_choice() {
    let mk = |disable: bool, folder: &str| RtbitDesktopConfigPersistence {
        disable,
        folder: std::path::PathBuf::from(folder),
        fastresume: false,
        fastresume_validation_denom: None,
        filename: std::path::PathBuf::new(),
    };
    assert_eq!(session_persistence_folder(&mk(true, "/x")), None);
    assert_eq!(session_persistence_folder(&mk(false, "")), Some(None));
    assert_eq!(session_persistence_folder(&mk(false, "/var/rtbit")), Some(Some(std::path::PathBuf::from("/var/rtbit"))));
}
