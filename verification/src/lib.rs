//! vTorrent: script engine, light-client, snapshot, torrent and wallet rules.
pub mod bytes;
pub mod clock;
pub mod crypto;
pub mod desktop;
pub mod encoding;
pub mod laws;
pub mod script;
pub mod snapshot;
pub mod spv;
pub mod store;
pub mod text;
pub mod torrent;
