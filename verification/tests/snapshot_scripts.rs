//! Scripts of the old chain.

use vtorrent::snapshot::utxo_value::{script_to_address, LegacyAddress};

#[test]
fn test_parse_p2pkh_script() {
    // Construct a minimal P2PKH script
    let mut script = vec![0x76, 0xa9, 0x14];
    script.extend_from_slice(&[0xabu8; 20]); // fake hash
    script.push(0x88);
    script.push(0xac);
    assert_eq!(script.len(), 25);
    // Address derivation should succeed
    let addr = script_to_address(&script);
    assert!(matches!(addr, Some(LegacyAddress::PubkeyHash(h)) if h == [0xabu8; 20]));
}
