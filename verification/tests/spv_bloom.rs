//! Bloom filters.

use vtorrent::spv::bloom::{bytes_for_bits, murmur3, BloomFilter, MAX_BLOOM_FILTER_SIZE, MAX_HASH_FUNCS};

/// An empty filter with the best size for `n` items at a rate of false positives.
fn sized(n: usize, rate: f64, tweak: u32) -> BloomFilter {
    let ln2 = std::f64::consts::LN_2;
    let bits = (-(n as f64) * rate.ln() / (ln2 * ln2)) as usize;
    let bytes = bytes_for_bits(bits);
    let funcs = ((bytes * 8) as f64 / n as f64 * ln2).round() as u32;
    BloomFilter::with_size(bytes, funcs.clamp(1, MAX_HASH_FUNCS), tweak)
}

#[test]
fn test_insert_and_contains() {
    let mut f = sized(100, 0.01, 0);
    let item = b"vtorrent_address_abc123";
    assert!(!f.contains(item));
    f.insert(item);
    assert!(f.contains(item));
}

#[test]
fn test_not_contains_other_item() {
    let mut f = sized(100, 0.001, 99);
    f.insert(b"item_one");
    // With very low FP rate, this should not match
    assert!(!f.contains(b"item_two_completely_different_xyz"));
}

#[test]
fn test_insert_hash() {
    let mut f = sized(50, 0.01, 7);
    let hash = [0xabu8; 32];
    f.insert_hash(&hash);
    assert!(f.contains_hash(&hash));
    assert!(!f.contains_hash(&[0u8; 32]));
}

#[test]
fn bloom_test_empty_filter() {
    let f = sized(100, 0.01, 0);
    assert!(f.is_empty());
}

#[test]
fn test_full_filter() {
    let f = BloomFilter::from_bytes(vec![0xff; 10], 1, 0, 1);
    assert!(f.is_full());
    assert!(f.contains(b"anything"));
}

#[test]
fn test_wire_roundtrip() {
    let mut f = sized(200, 0.001, 42);
    f.insert(b"address1");
    f.insert(b"address2");
    let (data, hf, tweak, flags) = f.to_wire();
    let f2 = BloomFilter::from_bytes(data, hf, tweak, flags);
    assert!(f2.contains(b"address1"));
    assert!(f2.contains(b"address2"));
}

#[test]
fn test_murmur3_known_value() {
    // BIP-37 test vector: murmur3("", seed=0) = 0
    assert_eq!(murmur3(b"", 0), 0);
}

#[test]
fn test_filter_size_reasonable() {
    let f = sized(1000, 0.001, 0);
    // For 1000 items at 0.1% FP, filter should be ~1.8 KB
    assert!(f.size_bytes() > 1000);
    assert!(f.size_bytes() <= MAX_BLOOM_FILTER_SIZE);
}
