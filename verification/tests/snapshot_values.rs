//! Values of the old chain state.

use vtorrent::snapshot::chainstate::{decode_varint, decompress_amount};

#[test]
fn test_decode_varint_single_byte() {
    assert_eq!(decode_varint(&[0x00]), Some((0, 1)));
    assert_eq!(decode_varint(&[0x42]), Some((0x42, 1)));
    assert_eq!(decode_varint(&[0xfc]), Some((0xfc, 1)));
}

#[test]
fn test_decode_varint_two_bytes() {
    assert_eq!(decode_varint(&[0xfd, 0x00, 0x01]), Some((256, 3)));
}

#[test]
fn test_decompress_amount_zero() {
    assert_eq!(decompress_amount(0), 0);
}

#[test]
fn test_decompress_amount_one_satoshi() {
    // 1 satoshi = compressed value 1
    assert_eq!(decompress_amount(1), 1);
}
