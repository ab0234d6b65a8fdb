//! Exchanging descriptions.

use serde_bencode::value::Value;
use vtorrent::torrent::metadata::{
    build_extension_handshake, build_request, build_ut_vtr_address, build_ut_vtr_handshake, parse_data,
    parse_ut_vtr_address, reassemble_metadata,
};

#[test]
fn test_extension_handshake_roundtrip() {
    let bytes = build_extension_handshake(3, 1024);
    let value: Value = serde_bencode::from_bytes(&bytes).unwrap();
    if let Value::Dict(d) = value {
        assert!(d.contains_key(b"m".as_slice()));
        assert!(d.contains_key(b"metadata_size".as_slice()));
    } else {
        panic!("expected dict");
    }
}

#[test]
fn test_request_has_ut_metadata_id_prefix() {
    let bytes = build_request(3, 0);
    assert_eq!(bytes[0], 3);
    let value: Value = serde_bencode::from_bytes(&bytes[1..]).unwrap();
    if let Value::Dict(d) = value {
        assert_eq!(d.get(b"msg_type".as_slice()), Some(&Value::Int(0)));
        assert_eq!(d.get(b"piece".as_slice()), Some(&Value::Int(0)));
    } else {
        panic!("expected dict");
    }
}

#[test]
fn test_parse_data() {
    let mut dict = std::collections::HashMap::new();
    dict.insert(b"msg_type".to_vec(), Value::Int(1));
    dict.insert(b"piece".to_vec(), Value::Int(0));
    dict.insert(b"total_size".to_vec(), Value::Int(4));
    let dict_bytes = serde_bencode::to_bytes(&Value::Dict(dict)).unwrap();
    let mut payload = vec![3u8];
    payload.extend_from_slice(&dict_bytes);
    payload.extend_from_slice(b"test");

    let (piece, total, data) = parse_data(&payload).unwrap();
    assert_eq!(piece, 0);
    assert_eq!(total, 4);
    assert_eq!(data, b"test");
}

#[test]
fn test_reassemble_metadata() {
    let info_dict = b"d4:name4:test12:piece lengthi4e6:pieces40:aaaaaaaaaaaaaaaaaaaaaaaaaaaaaaaaaaaaaaaa4:lengthi8ee";
    let mut pieces = std::collections::HashMap::new();
    pieces.insert(0u32, info_dict[..20].to_vec());
    pieces.insert(1u32, info_dict[20..].to_vec());
    let reassembled = reassemble_metadata(&pieces, info_dict.len() as u64).unwrap();
    assert_eq!(reassembled, info_dict);
}

#[test]
fn test_ut_vtr_handshake_advertises() {
    let bytes = build_ut_vtr_handshake(2);
    let value: Value = serde_bencode::from_bytes(&bytes).unwrap();
    if let Value::Dict(d) = value {
        if let Some(Value::Dict(m)) = d.get(b"m".as_slice()) {
            assert_eq!(m.get(b"ut_vtr".as_slice()), Some(&Value::Int(2)));
        } else {
            panic!("missing m dict");
        }
    } else {
        panic!("expected dict");
    }
}

#[test]
fn test_ut_vtr_address_message_roundtrip() {
    let addr = "VPskT3V4CSyoRAYTCgyxZQ2FByJmCCLUUT";
    let msg = build_ut_vtr_address(2, addr);
    assert_eq!(msg[0], 2); // extension id prefix
    let parsed = parse_ut_vtr_address(&msg[1..]).unwrap();
    assert_eq!(parsed, addr);
}
