[package]
name = "vtorrent"
version = "2.0.0"
edition = "2021"
publish = false

[dependencies]
sha2 = "=0.10.9"
sha1 = "=0.10.7"
ripemd = "=0.1.3"
hex = "=0.4.3"
secp256k1 = { version = "=0.29.1", features = ["recovery"] }
serde_bencode = "=0.2.4"
urlencoding = "=2.1.3"
url = "=2.5.8"
base64 = "=0.22.1"
rand = "=0.8.8"
uuid = { version = "=1.29.0", features = ["v4"] }
bincode = "=1.3.3"
serde = { version = "=1.0.229", features = ["derive"] }
serde_json = "=1.0.154"
thiserror = "=1.0.69"
anyhow = "=1.0.104"
clap = { version = "=4.6.7", features = ["derive"] }
tokio = { version = "=1.54.1", features = ["full"] }
tokio-util = "=0.7.20"
tracing = "=0.1.44"
tracing-subscriber = { version = "=0.3.23", features = ["env-filter"] }
reqwest = { version = "=0.12.28", default-features = false }
redb = "=3.1.3"
rusty-leveldb = "=3.0.3"
