//! The standard scripts.

use vtorrent::script::standard::{
    build_htlc, build_op_return, build_p2ms, build_p2pkh, build_p2sh, classify_script, ScriptType,
};

#[test]
fn test_classify_p2pkh() {
    let hash = [0xabu8; 20];
    let script = build_p2pkh(&hash);
    assert_eq!(classify_script(&script), ScriptType::P2PKH);
}

#[test]
fn test_classify_p2sh() {
    let hash = [0x11u8; 20];
    let script = build_p2sh(&hash);
    assert_eq!(classify_script(&script), ScriptType::P2SH);
}

#[test]
fn test_classify_p2ms() {
    let keys = vec![vec![0x02u8; 33], vec![0x02u8; 33], vec![0x02u8; 33]];
    let script = build_p2ms(2, &keys).unwrap();
    assert_eq!(classify_script(&script), ScriptType::P2MS { m: 2, n: 3 });
}

#[test]
fn test_classify_op_return() {
    let script = build_op_return(b"vtorrent").unwrap();
    assert_eq!(classify_script(&script), ScriptType::OpReturn);
}

#[test]
fn test_classify_htlc() {
    let script = build_htlc(&[0u8; 32], &[1u8; 20], &[2u8; 20], 100);
    assert_eq!(classify_script(&script), ScriptType::Htlc);
}

#[test]
fn test_p2pkh_length() {
    let script = build_p2pkh(&[0u8; 20]);
    assert_eq!(script.len(), 25);
}

#[test]
fn test_p2sh_length() {
    let script = build_p2sh(&[0u8; 20]);
    assert_eq!(script.len(), 23);
}

#[test]
fn test_p2ms_m_greater_than_n_fails() {
    let keys = vec![vec![0x02u8; 33]];
    assert!(build_p2ms(2, &keys).is_err());
}

#[test]
fn test_op_return_too_large_fails() {
    let data = vec![0u8; 81];
    assert!(build_op_return(&data).is_err());
}

#[test]
fn test_op_return_empty_ok() {
    let script = build_op_return(&[]).unwrap();
    assert_eq!(classify_script(&script), ScriptType::OpReturn);
}

#[test]
fn test_htlc_structure() {
    let payment_hash = [0xffu8; 32];
    let claim_hash = [0x11u8; 20];
    let refund_hash = [0x22u8; 20];
    let script = build_htlc(&payment_hash, &claim_hash, &refund_hash, 500_000);
    assert!(script.len() > 50); // HTLC scripts are complex
    assert_eq!(classify_script(&script), ScriptType::Htlc);
}
