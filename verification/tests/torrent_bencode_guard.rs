//! Bencode that is not trusted.

use vtorrent::torrent::bencode::{parse_untrusted, Bencode};
use vtorrent::torrent::bencode_guard::{bencode_depth_ok, MAX_BENCODE_DEPTH};

#[test]
fn shallow_input_ok() {
    assert!(bencode_depth_ok(b"d4:infod6:lengthi5eee", 32));
}

#[test]
fn deep_input_rejected() {
    let bomb = vec![b'd'; 10_000];
    assert!(!bencode_depth_ok(&bomb, MAX_BENCODE_DEPTH));
}

#[test]
fn malformed_rejected() {
    assert!(!bencode_depth_ok(b"zzzz", 32));
    assert!(!bencode_depth_ok(b"d4:info", 32));
    assert!(!bencode_depth_ok(b"iee", 32));
}

#[test]
fn string_lengths_walked() {
    assert!(bencode_depth_ok(b"5:hello", 32));
    assert!(!bencode_depth_ok(b"99:hi", 32));
}

#[test]
fn parse_untrusted_rejects_depth_bomb() {
    let bomb = vec![b'd'; 100_000];
    assert!(parse_untrusted(&bomb).is_none());
}

#[test]
fn parse_untrusted_accepts_normal() {
    let v: Bencode = parse_untrusted(b"d1:a1:b1:cli7eee")
        .expect("normal dict parses")
        .expect("ok");
    match v {
        Bencode::Dict(d) => {
            assert_eq!(d.len(), 2);
        }
        other => panic!("expected dict, got {:?}", other),
    }
}
