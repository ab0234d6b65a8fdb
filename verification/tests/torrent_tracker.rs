//! Trackers over HTTP.

use vtorrent::torrent::error::TorrentError;
use vtorrent::torrent::tracker::{
    parse_compact_peers, url_encode_bytes, validate_tracker_url_with, AnnounceEvent,
};

/// Private targets are refused unless they are asked for.
fn validate_tracker_url(raw: &str) -> Result<(), TorrentError> {
    validate_tracker_url_with(raw, false)
}

#[test]
fn test_compact_peer_parse() {
    // 192.168.1.1:6881 and 10.0.0.1:6882
    let data = [192u8, 168, 1, 1, 0x1A, 0xE1, 10, 0, 0, 1, 0x1A, 0xE2];
    let peers = parse_compact_peers(&data);
    assert_eq!(peers.len(), 2);
    assert_eq!(peers[0].ip, "192.168.1.1");
    assert_eq!(peers[0].port, 6881);
    assert_eq!(peers[1].ip, "10.0.0.1");
    assert_eq!(peers[1].port, 6882);
}

#[test]
fn test_announce_event_str() {
    assert_eq!(AnnounceEvent::Started.as_str(), Some("started"));
    assert_eq!(AnnounceEvent::Completed.as_str(), Some("completed"));
    assert_eq!(AnnounceEvent::Stopped.as_str(), Some("stopped"));
    assert_eq!(AnnounceEvent::Regular.as_str(), None);
}

#[test]
fn test_url_encode_bytes() {
    let bytes = [0x00u8, 0xFF, 0x41]; // 0x41 = 'A'
    let encoded = url_encode_bytes(&bytes);
    assert_eq!(encoded, "%00%FFA");
}

#[test]
fn rejects_non_http_schemes() {
    assert!(validate_tracker_url("ftp://tracker.example.com/announce").is_err());
    assert!(validate_tracker_url("file:///etc/passwd").is_err());
    assert!(validate_tracker_url("gopher://tracker.example.com/").is_err());
}

#[test]
fn rejects_internal_literal_addresses() {
    // Loopback, private, link-local and shared addresses, and their IPv6 equivalents.
    for url in [
        "http://127.0.0.1/announce",
        "http://10.0.0.1/announce",
        "http://192.168.1.1/announce",
        "http://172.16.0.1/announce",
        "http://169.254.169.254/latest/meta-data/",
        "http://100.64.0.1/announce",
        "http://0.0.0.0/announce",
        "http://[::1]/announce",
        "http://[fe80::1]/announce",
        "http://[fc00::1]/announce",
        "http://[::ffff:127.0.0.1]/announce",
    ] {
        assert!(
            validate_tracker_url(url).is_err(),
            "{url} must be rejected as a non-public tracker target"
        );
    }
}

#[test]
fn allows_public_literal_addresses() {
    assert!(validate_tracker_url("http://93.184.216.34/announce").is_ok());
    assert!(validate_tracker_url("https://93.184.216.34/announce").is_ok());
    assert!(
        validate_tracker_url("http://[2606:2800:220:1:248:1893:25c8:1946]/announce").is_ok()
    );
}

#[test]
fn explicit_override_permits_private_targets() {
    assert!(validate_tracker_url_with("http://127.0.0.1/announce", true).is_ok());
    assert!(validate_tracker_url_with("http://127.0.0.1/announce", false).is_err());
}

#[test]
fn rejects_url_without_host() {
    // `http://` has no host at all and fails URL parsing.
    assert!(validate_tracker_url("http://").is_err());
}
