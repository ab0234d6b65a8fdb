//! Trackers over UDP.

use vtorrent::torrent::tracker::AnnounceEvent;
use vtorrent::torrent::udp::{
    decode_announce_response, decode_connect_response, decode_scrape_response, encode_announce,
    encode_connect, encode_scrape, UdpAnnounceParams, ACTION_ANNOUNCE, ACTION_CONNECT, ACTION_SCRAPE,
    PROTOCOL_ID,
};

#[test]
fn test_connect_roundtrip() {
    let req = encode_connect(0x1234_5678);
    assert_eq!(req.len(), 16);
    // First 8 bytes are the protocol id.
    assert_eq!(&req[0..8], &PROTOCOL_ID.to_be_bytes());
    // Action is connect (0).
    assert_eq!(u32::from_be_bytes([req[8], req[9], req[10], req[11]]), 0);
}

#[test]
fn test_decode_connect_response() {
    let mut data = Vec::new();
    data.extend_from_slice(&ACTION_CONNECT.to_be_bytes());
    data.extend_from_slice(&0x1234_5678u32.to_be_bytes());
    data.extend_from_slice(&0xDEAD_BEEF_CAFE_BABEu64.to_be_bytes());
    let conn_id = decode_connect_response(&data).unwrap();
    assert_eq!(conn_id, 0xDEAD_BEEF_CAFE_BABE);
}

#[test]
fn test_announce_roundtrip() {
    let info_hash = [0xAA; 20];
    let peer_id = [0xBB; 20];
    let params = UdpAnnounceParams {
        info_hash: &info_hash,
        peer_id: &peer_id,
        downloaded: 0,
        left: 100,
        uploaded: 0,
        event: AnnounceEvent::Started,
        port: 6881,
    };
    let req = encode_announce(0x1234, 0x5678, &params);
    assert_eq!(req.len(), 98);
}

#[test]
fn test_decode_announce_response() {
    let mut data = Vec::new();
    data.extend_from_slice(&ACTION_ANNOUNCE.to_be_bytes());
    data.extend_from_slice(&0x1234_5678u32.to_be_bytes());
    data.extend_from_slice(&1800u32.to_be_bytes()); // interval
    data.extend_from_slice(&5u32.to_be_bytes()); // leechers
    data.extend_from_slice(&10u32.to_be_bytes()); // seeders
                                                  // One compact peer: 192.168.1.1:6881
    data.extend_from_slice(&[192, 168, 1, 1, 0x1A, 0xE1]);
    let (interval, leechers, seeders, peers) = decode_announce_response(&data).unwrap();
    assert_eq!(interval, 1800);
    assert_eq!(leechers, 5);
    assert_eq!(seeders, 10);
    assert_eq!(peers.len(), 1);
    assert_eq!(peers[0].ip, "192.168.1.1");
    assert_eq!(peers[0].port, 6881);
}

#[test]
fn test_scrape_roundtrip() {
    let info_hash = [0xCC; 20];
    let req = encode_scrape(0x1234, 0x5678, &info_hash);
    assert_eq!(req.len(), 36);
}

#[test]
fn test_decode_scrape_response() {
    let mut data = Vec::new();
    data.extend_from_slice(&ACTION_SCRAPE.to_be_bytes());
    data.extend_from_slice(&0x1234_5678u32.to_be_bytes());
    data.extend_from_slice(&10u32.to_be_bytes()); // seeders
    data.extend_from_slice(&20u32.to_be_bytes()); // completed
    data.extend_from_slice(&5u32.to_be_bytes()); // leechers
    let (seeders, completed, leechers) = decode_scrape_response(&data).unwrap();
    assert_eq!(seeders, 10);
    assert_eq!(completed, 20);
    assert_eq!(leechers, 5);
}
