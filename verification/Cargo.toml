[package]
name = "rtbit"
version = "0.1.0"
edition = "2021"
publish = false

[dependencies]
sha1 = "=0.10.7"
num-bigint = "=0.4.8"
rand = "=0.9.5"
chrono = { version = "=0.4.45", default-features = false, features = ["clock", "std"] }
tokio = { version = "=1.54.1", features = ["io-util", "rt", "rt-multi-thread", "net", "time", "sync", "macros", "signal", "fs"] }
serde = { version = "=1.0.229", features = ["derive"] }
serde_json = "=1.0.154"
anyhow = "=1.0.104"
governor = "=0.10.4"
percent-encoding = "=2.3.2"
hex = "=0.4.3"
dashmap = "=6.2.1"
base64 = "=0.22.1"
memmap2 = "=0.9.12"
clap = { version = "=4.6.7", features = ["derive", "env"] }
reqwest = { version = "=0.12.28", default-features = false, features = ["json", "cookies", "multipart"] }
urlencoding = "=2.1.3"
regex = "=1.13.1"
futures-util = "=0.3.34"
bollard = "=0.21.1"
