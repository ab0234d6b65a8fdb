//! Block filters.

use vtorrent::spv::filter::{BlockFilter, FilterMatcher, GCS_P};
use vtorrent::spv::golomb::{gcs_decode, gcs_encode};

fn p2pkh_script(hash: &[u8; 20]) -> Vec<u8> {
    let mut s = vec![0x76, 0xa9, 0x14];
    s.extend_from_slice(hash);
    s.extend_from_slice(&[0x88, 0xac]);
    s
}

#[test]
fn test_filter_build_and_match() {
    let hash = [0xabu8; 20];
    let script = p2pkh_script(&hash);
    let block_hash = [1u8; 32];
    let filter = BlockFilter::build(block_hash, 100, std::slice::from_ref(&script));
    assert!(filter.match_any(&[script]));
}

#[test]
fn test_filter_no_match() {
    let hash1 = [0x01u8; 20];
    let hash2 = [0x02u8; 20];
    let script1 = p2pkh_script(&hash1);
    let script2 = p2pkh_script(&hash2);
    let filter = BlockFilter::build([0u8; 32], 0, &[script1]);
    // script2 should not match (with overwhelming probability)
    assert!(!filter.match_any(&[script2]));
}

#[test]
fn test_filter_matcher_p2pkh() {
    let hash = [0x33u8; 20];
    let script = p2pkh_script(&hash);
    let block_hash = [5u8; 32];
    let filter = BlockFilter::build(block_hash, 50, &[script]);

    let mut matcher = FilterMatcher::new();
    matcher.add_p2pkh(&hash);
    assert!(matcher.matches(&filter));
}

#[test]
fn test_filter_matcher_no_match() {
    let hash1 = [0x11u8; 20];
    let hash2 = [0x22u8; 20];
    let script1 = p2pkh_script(&hash1);
    let filter = BlockFilter::build([0u8; 32], 0, &[script1]);

    let mut matcher = FilterMatcher::new();
    matcher.add_p2pkh(&hash2);
    assert!(!matcher.matches(&filter));
}

#[test]
fn test_gcs_roundtrip() {
    let mut values: Vec<u64> = (0..50).map(|i| i * 1000 + 7).collect();
    values.sort();
    values.dedup();
    let encoded = gcs_encode(&values, GCS_P);
    let decoded = gcs_decode(&encoded, values.len(), GCS_P);
    assert_eq!(values, decoded);
}

#[test]
fn filter_test_empty_filter() {
    let filter = BlockFilter::build([0u8; 32], 0, &[]);
    assert!(!filter.match_any(&[vec![0x76, 0xa9]]));
}

#[test]
fn test_filter_size_compact() {
    let scripts: Vec<Vec<u8>> = (0..100u8)
        .map(|i| {
            let mut h = [0u8; 20];
            h[0] = i;
            p2pkh_script(&h)
        })
        .collect();
    let filter = BlockFilter::build([0u8; 32], 0, &scripts);
    // 100 scripts should produce a filter well under 1 KB
    assert!(filter.size_bytes() < 1024);
}
