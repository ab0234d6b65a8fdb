//! Messages between peers.

use vtorrent::torrent::peer_wire::PeerMessage;

#[test]
fn test_encode_decode_choke() {
    let msg = PeerMessage::Choke;
    let encoded = msg.encode();
    assert_eq!(encoded, vec![0, 0, 0, 1, 0]);
    let (decoded, consumed) = PeerMessage::decode(&encoded).unwrap().unwrap();
    assert_eq!(decoded, PeerMessage::Choke);
    assert_eq!(consumed, 5);
}

#[test]
fn test_encode_decode_have() {
    let msg = PeerMessage::Have { index: 42 };
    let encoded = msg.encode();
    let (decoded, _) = PeerMessage::decode(&encoded).unwrap().unwrap();
    assert_eq!(decoded, PeerMessage::Have { index: 42 });
}

#[test]
fn test_encode_decode_request() {
    let msg = PeerMessage::Request {
        index: 5,
        begin: 0,
        length: 16384,
    };
    let encoded = msg.encode();
    let (decoded, _) = PeerMessage::decode(&encoded).unwrap().unwrap();
    assert_eq!(
        decoded,
        PeerMessage::Request {
            index: 5,
            begin: 0,
            length: 16384
        }
    );
}

#[test]
fn test_encode_decode_piece() {
    let data = vec![0xAB; 16384];
    let msg = PeerMessage::Piece {
        index: 3,
        begin: 0,
        data: data.clone(),
    };
    let encoded = msg.encode();
    let (decoded, _) = PeerMessage::decode(&encoded).unwrap().unwrap();
    assert_eq!(
        decoded,
        PeerMessage::Piece {
            index: 3,
            begin: 0,
            data
        }
    );
}

#[test]
fn test_keepalive() {
    let msg = PeerMessage::KeepAlive;
    let encoded = msg.encode();
    assert_eq!(encoded, vec![0, 0, 0, 0]);
    let (decoded, consumed) = PeerMessage::decode(&encoded).unwrap().unwrap();
    assert_eq!(decoded, PeerMessage::KeepAlive);
    assert_eq!(consumed, 4);
}

#[test]
fn test_handshake_encode_decode() {
    let info_hash = [0xAA; 20];
    let peer_id = [0xBB; 20];
    let reserved = [0u8; 8];
    let msg = PeerMessage::Handshake {
        info_hash,
        peer_id,
        reserved,
    };
    let encoded = msg.encode();
    assert_eq!(encoded.len(), 68);
    let (decoded, consumed) = PeerMessage::decode_handshake(&encoded).unwrap().unwrap();
    assert_eq!(consumed, 68);
    if let PeerMessage::Handshake {
        info_hash: ih,
        peer_id: pid,
        ..
    } = decoded
    {
        assert_eq!(ih, [0xAA; 20]);
        assert_eq!(pid, [0xBB; 20]);
    } else {
        panic!("Expected Handshake");
    }
}

#[test]
fn test_partial_buffer_returns_none() {
    // Only 3 bytes — not enough for length prefix
    let buf = vec![0u8, 0, 0];
    assert!(PeerMessage::decode(&buf).unwrap().is_none());
}

#[test]
fn test_encode_decode_extended() {
    let msg = PeerMessage::Extended {
        id: 1,
        payload: vec![0xAB, 0xCD],
    };
    let encoded = msg.encode();
    assert_eq!(encoded[0..5], [0, 0, 0, 4, 20]);
    let (decoded, _) = PeerMessage::decode(&encoded).unwrap().unwrap();
    assert_eq!(
        decoded,
        PeerMessage::Extended {
            id: 1,
            payload: vec![0xAB, 0xCD]
        }
    );
}
