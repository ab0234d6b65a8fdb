//! The distributed table.

use vtorrent::torrent::dht::{
    build_announce_peer_query, build_find_node_query, build_get_peers_query, parse_dht_response, NodeId,
};

#[test]
fn test_get_peers_query_contains_info_hash() {
    let node_id = NodeId([0x11; 20]);
    let info_hash = [0xAA; 20];
    let q = build_get_peers_query(&node_id, &info_hash, &[0x01, 0x02]);
    let q_hex = hex::encode(&q);
    assert!(q_hex.contains(&hex::encode(info_hash)));
}

#[test]
fn test_find_node_query_contains_target() {
    let node_id = NodeId([0x11; 20]);
    let target = [0xBB; 20];
    let q = build_find_node_query(&node_id, &target, &[0x01, 0x02]);
    let q_hex = hex::encode(&q);
    assert!(q_hex.contains(&hex::encode(target)));
}

#[test]
fn test_announce_peer_query_contains_port() {
    let node_id = NodeId([0x11; 20]);
    let info_hash = [0xAA; 20];
    let q = build_announce_peer_query(&node_id, &info_hash, 6881, b"token", &[0x01, 0x02]);
    let q_hex = hex::encode(&q);
    // The port is bencoded as an integer: "i6881e" -> hex "693638383165".
    assert!(q_hex.contains("693638383165"));
}

#[test]
fn test_parse_dht_response_peers() {
    // Proper KRPC reply:
    // {"t": "aa", "y": "r", "r": {"id": <20>, "values": [<peer>]}}
    let mut resp = Vec::new();
    resp.extend_from_slice(b"d1:t2:aa1:y1:e1:rd2:id20:");
    resp.extend_from_slice(&[0u8; 20]);
    resp.extend_from_slice(b"6:valuesl6:");
    resp.extend_from_slice(&[10, 0, 0, 1, 0x1A, 0xE1]);
    resp.extend_from_slice(b"eee");
    let (peers, nodes, tid) = parse_dht_response(&resp);
    assert_eq!(peers.len(), 1);
    assert_eq!(peers[0].ip, "10.0.0.1");
    assert_eq!(peers[0].port, 6881);
    assert!(nodes.is_empty());
    assert_eq!(tid.as_deref(), Some(&b"aa"[..]));
}

#[test]
fn test_parse_dht_response_rejects_substring_smuggling() {
    // "values" and "nodes" inside unrelated strings do not count.
    let mut resp = Vec::new();
    resp.extend_from_slice(b"d1:t2:aa1:y1:e1:rd2:id20:");
    resp.extend_from_slice(&[0u8; 20]);
    // A token string that CONTAINS "6:values..." as raw bytes.
    // Content: x 6:values l 6: AAAAAA e = 19 bytes.
    resp.extend_from_slice(b"5:token19:x6:valuesl6:AAAAAAe");
    resp.extend_from_slice(b"ee");
    let (peers, _, _) = parse_dht_response(&resp);
    assert!(peers.is_empty());
}

#[test]
fn test_parse_dht_response_nodes() {
    let mut node = Vec::new();
    node.extend_from_slice(&[0x22; 20]);
    node.extend_from_slice(&[10, 0, 0, 2]);
    node.extend_from_slice(&6882u16.to_be_bytes());
    let mut resp = Vec::new();
    resp.extend_from_slice(b"d1:t2:aa1:y1:e1:rd2:id20:");
    resp.extend_from_slice(&[0u8; 20]);
    resp.extend_from_slice(b"5:nodes");
    resp.extend_from_slice(format!("{}:", node.len()).as_bytes());
    resp.extend_from_slice(&node);
    resp.extend_from_slice(b"ee");
    let (peers, nodes, _) = parse_dht_response(&resp);
    assert!(peers.is_empty());
    assert_eq!(nodes.len(), 1);
    assert_eq!(nodes[0].addr.port(), 6882);
}

#[test]
fn test_parse_dht_response_depth_bomb_safe() {
    let bomb = vec![b'd'; 50_000];
    let (peers, nodes, _) = parse_dht_response(&bomb);
    assert!(peers.is_empty());
    assert!(nodes.is_empty());
}
