//! Sharing files with peers: torrent files, trackers, the peer protocol and its incentives.
pub mod bencode;
pub mod bencode_guard;
pub mod bencode_laws;
pub mod description_laws;
pub mod dht;
pub mod disk;
pub mod double;
pub mod engine;
pub mod error;
pub mod exchange_laws;
pub mod incentive;
pub mod info_span;
pub mod magnet;
pub mod metadata;
pub mod metadata_fetch;
pub mod metainfo;
pub mod payment;
pub mod peer_task;
pub mod peer_wire;
pub mod pieces;
pub mod scheduler;
pub mod session;
pub mod tracker;
pub mod tracker_laws;
pub mod udp;
