//! Parts of the desktop application's configuration: the DHT, connection,
//! persistence and UPnP sections, the upgrade of an old persistence setting,
//! and the checks and choices made from the settings.
use vstd::prelude::*;
use std::path::PathBuf;
use std::time::Duration;

verus! {

/// The DHT section.
pub struct RtbitDesktopConfigDht {
    pub disable: bool,
    pub disable_persistence: bool,
    pub persistence_filename: PathBuf,
}

/// The connections section.
pub struct RtbitDesktopConfigConnections {
    pub enable_tcp_listen: bool,
    pub enable_tcp_outgoing: bool,
    pub enable_utp: bool,
    pub enable_upnp_port_forward: bool,
    pub socks_proxy: String,
    pub listen_port: u16,
    pub peer_connect_timeout: Duration,
    pub peer_read_write_timeout: Duration,
}

/// The persistence section.
pub struct RtbitDesktopConfigPersistence {
    pub disable: bool,
    pub folder: PathBuf,
    pub fastresume: bool,
    pub fastresume_validation_denom: Option<u32>,
    /// Deprecated; read from old configurations to find the folder.
    pub filename: PathBuf,
}

/// The UPnP media server section.
pub struct RtbitDesktopConfigUpnp {
    pub enable_server: bool,
    pub server_friendly_name: Option<String>,
}

/// What `Duration::from_secs` gives: a function of the seconds alone.
pub uninterp spec fn secs_duration(secs: u64) -> Duration;

/// `Duration::from_secs`.
#[verifier::external_body]
fn duration_from_secs(secs: u64) -> (d: Duration)
    ensures
        d == secs_duration(secs),
{
    Duration::from_secs(secs)
}

/// Whether a path equals the empty path (`Path::new("")`): a function of the path alone.
pub uninterp spec fn is_empty_path(p: PathBuf) -> bool;

/// What `Path::parent` gives, owned: a function of the path alone.
pub uninterp spec fn parent_path(p: PathBuf) -> Option<PathBuf>;

/// `path == Path::new("")`.
#[verifier::external_body]
fn path_is_empty(p: &PathBuf) -> (r: bool)
    ensures
        r == is_empty_path(*p),
{
    p.as_path() == std::path::Path::new("")
}

/// `Path::parent`, owned.
#[verifier::external_body]
fn path_parent(p: &PathBuf) -> (r: Option<PathBuf>)
    ensures
        r == parent_path(*p),
{
    p.parent().map(|q| q.to_path_buf())
}

/// How peers may connect to us.
#[derive(Debug, Clone, Copy, PartialEq, Eq, Structural)]
pub enum ListenerMode {
    TcpAndUtp,
    TcpOnly,
    UtpOnly,
}

impl RtbitDesktopConfigConnections {
    /// The listener: TCP and uTP, one of them, or none.
    pub fn listener_mode(&self) -> (m: Option<ListenerMode>)
        ensures
            m == (if self.enable_tcp_listen && self.enable_utp {
                Some(ListenerMode::TcpAndUtp)
            } else if self.enable_tcp_listen {
                Some(ListenerMode::TcpOnly)
            } else if self.enable_utp {
                Some(ListenerMode::UtpOnly)
            } else {
                None
            }),
    {
        match (self.enable_tcp_listen, self.enable_utp) {
            (true, true) => Some(ListenerMode::TcpAndUtp),
            (true, false) => Some(ListenerMode::TcpOnly),
            (false, true) => Some(ListenerMode::UtpOnly),
            (false, false) => None,
        }
    }

    /// The proxy to connect through: none when the setting is empty.
    pub fn proxy_url(&self) -> (r: Option<String>)
        ensures
            match r {
                Some(u) => self.socks_proxy@.len() > 0 && u@ == self.socks_proxy@,
                None => self.socks_proxy@.len() == 0,
            },
    {
        if self.socks_proxy.as_str().unicode_len() == 0 {
            None
        } else {
            Some(self.socks_proxy.clone())
        }
    }
}

impl Default for RtbitDesktopConfigConnections {
    fn default() -> (c: Self)
        ensures
            c.enable_tcp_listen && c.enable_tcp_outgoing && !c.enable_utp && c.enable_upnp_port_forward,
            c.listen_port == 4240,
            c.socks_proxy@ == Seq::<char>::empty(),
            c.peer_connect_timeout == secs_duration(2),
            c.peer_read_write_timeout == secs_duration(10),
    {
        RtbitDesktopConfigConnections {
            enable_tcp_listen: true,
            enable_tcp_outgoing: true,
            enable_utp: false,
            enable_upnp_port_forward: true,
            listen_port: 4240,
            socks_proxy: String::new(),
            peer_connect_timeout: duration_from_secs(2),
            peer_read_write_timeout: duration_from_secs(10),
        }
    }
}

impl Default for RtbitDesktopConfigUpnp {
    fn default() -> (u: Self)
        ensures
            !u.enable_server,
            u.server_friendly_name is None,
    {
        RtbitDesktopConfigUpnp { enable_server: false, server_friendly_name: None }
    }
}

impl RtbitDesktopConfigPersistence {
    /// Upgrades an old configuration: with no folder set, the folder becomes
    /// the parent of the deprecated file name, when it has one.
    pub fn fix_backwards_compat(&mut self)
        ensures
            final(self).disable == old(self).disable,
            final(self).fastresume == old(self).fastresume,
            final(self).fastresume_validation_denom == old(self).fastresume_validation_denom,
            final(self).filename == old(self).filename,
            final(self).folder == (if is_empty_path(old(self).folder) && !is_empty_path(old(self).filename)
                && parent_path(old(self).filename) is Some {
                parent_path(old(self).filename)->0
            } else {
                old(self).folder
            }),
    {
        if !path_is_empty(&self.folder) {
            return;
        }
        if !path_is_empty(&self.filename) {
            match path_parent(&self.filename) {
                Some(parent) => {
                    self.folder = parent;
                },
                None => {},
            }
        }
    }
}

/// `PathBuf::clone`: an equal path.
#[verifier::external_body]
fn clone_path(p: &PathBuf) -> (r: PathBuf)
    ensures
        r == *p,
{
    p.clone()
}

/// The session's persistence: none when disabled; else persisted in the
/// configured folder, or in the default place when the folder is empty.
pub fn session_persistence_folder(c: &RtbitDesktopConfigPersistence) -> (r: Option<Option<PathBuf>>)
    ensures
        r == if c.disable {
            None
        } else if is_empty_path(c.folder) {
            Some(None)
        } else {
            Some(Some(c.folder))
        },
{
    if c.disable {
        None
    } else if path_is_empty(&c.folder) {
        Some(None)
    } else {
        Some(Some(clone_path(&c.folder)))
    }
}

/// The default RSS history limit: 500 items.
pub fn default_rss_history_limit() -> (r: Option<usize>)
    ensures
        r == Some(500usize),
{
    Some(500)
}

/// Why a configuration is refused.
#[derive(Debug, Clone, Copy, PartialEq, Eq, Structural)]
pub enum DesktopConfigError {
    /// The UPnP server needs the HTTP API.
    UpnpNeedsHttpApi,
    /// The UPnP server needs the HTTP API on an address other than loopback.
    UpnpNeedsNonLoopbackHttpApi,
}

/// The check a configuration passes: with the UPnP server enabled, the HTTP
/// API must be enabled and listen on an address other than loopback.
pub fn validate_upnp_http_api(
    upnp_server_enabled: bool,
    http_api_disabled: bool,
    http_api_ip_is_loopback: bool,
) -> (r: Result<(), DesktopConfigError>)
    ensures
        r == (if upnp_server_enabled && http_api_disabled {
            Err(DesktopConfigError::UpnpNeedsHttpApi)
        } else if upnp_server_enabled && http_api_ip_is_loopback {
            Err(DesktopConfigError::UpnpNeedsNonLoopbackHttpApi)
        } else {
            Ok(())
        }),
{
    if upnp_server_enabled {
        if http_api_disabled {
            return Err(DesktopConfigError::UpnpNeedsHttpApi);
        }
        if http_api_ip_is_loopback {
            return Err(DesktopConfigError::UpnpNeedsNonLoopbackHttpApi);
        }
    }
    Ok(())
}

/// The name of the UPnP media server: the configured name without its
/// surrounding white space, unless it is not set or nothing is left of it;
/// else `rtbit-desktop@` and the host name.
pub open spec fn friendly_name_text(configured: Option<Seq<char>>, hostname: Seq<char>) -> Seq<char> {
    match configured {
        Some(c) => if crate::text::trimmed(c).len() > 0 {
            crate::text::trimmed(c)
        } else {
            "rtbit-desktop@"@ + hostname
        },
        None => "rtbit-desktop@"@ + hostname,
    }
}

/// The name of the UPnP media server, from the configuration and the host name.
pub fn upnp_friendly_name(configured: &Option<String>, hostname: &str) -> (r: String)
    ensures
        r@ == friendly_name_text(
            match configured {
                Some(c) => Some(c@),
                None => None,
            },
            hostname@,
        ),
{
    let mut r = String::new();
    if let Some(c) = configured {
        let t = crate::text::trim(c.as_str());
        if t.unicode_len() > 0 {
            crate::scenarios::append_str(&mut r, t);
            assert(r@ =~= crate::text::trimmed(c@));
            return r;
        }
    }
    crate::scenarios::append_str(&mut r, "rtbit-desktop@");
    crate::scenarios::append_str(&mut r, hostname);
    proof {
        reveal_strlit("rtbit-desktop@");
    }
    assert(r@ =~= "rtbit-desktop@"@ + hostname@);
    r
}

} // verus!
