//! Verified core of a BitTorrent client and of its benchmark: bencode and
//! .torrent files, the message stream encryption handshake and its RC4
//! cipher, the checks of incoming connections, web seeds, the peer wire
//! handshake of a seeder, a tracker's announce handling, the DHT's peer
//! store, the session's peer bookkeeping, torrent queueing, super-seeding,
//! rate limits, the HTTP API's tokens and authentication, the desktop
//! application's configuration checks and download notifications, the
//! benchmark scenarios and the decisions of its clients, and the small text
//! helpers around them.
pub mod bench_clients;
pub mod bencode;
pub mod decimal;
pub mod desktop_config;
pub mod http_auth;
pub mod incoming;
pub mod limits;
pub mod metric_queries;
pub mod mse;
pub mod notify;
pub mod peer_store;
pub mod peers;
pub mod queue;
pub mod rc4;
pub mod scenarios;
pub mod seeder;
pub mod super_seed;
pub mod svg;
pub mod text;
pub mod torrent_file;
pub mod tracker;
pub mod webseed;
