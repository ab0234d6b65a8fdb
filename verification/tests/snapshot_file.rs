//! Snapshot files.

use sha2::{Digest, Sha256};
use vtorrent::snapshot::file::{encode_binary, parse_binary, verify_integrity};
use vtorrent::snapshot::utxo_set::{SnapshotEntry, SnapshotMetadata, UtxoSnapshot};

fn make_test_snapshot() -> UtxoSnapshot {
    let entries = vec![
        SnapshotEntry {
            address: "VAddr1".into(),
            balance: 100_000_000,
            utxo_count: 1,
        },
        SnapshotEntry {
            address: "VAddr2".into(),
            balance: 200_000_000,
            utxo_count: 2,
        },
    ];
    let mut hasher = Sha256::new();
    for e in &entries {
        hasher.update(e.address.as_bytes());
        hasher.update(e.balance.to_le_bytes());
    }
    let entries_hash = hex::encode(hasher.finalize());

    UtxoSnapshot {
        metadata: SnapshotMetadata {
            snapshot_height: 500_000,
            total_addresses: 2,
            total_supply: 300_000_000,
            total_utxos: 3,
            entries_hash,
            created_at: 1_700_000_000,
            best_block_hash: "abc123".into(),
        },
        entries,
    }
}

#[test]
fn test_binary_roundtrip() {
    let snapshot = make_test_snapshot();
    let written = encode_binary(&snapshot).expect("Write failed");
    let loaded = parse_binary(&written).expect("Load failed");

    assert_eq!(loaded.metadata.snapshot_height, 500_000);
    assert_eq!(loaded.metadata.total_supply, 300_000_000);
    assert_eq!(loaded.entries.len(), 2);
    assert_eq!(loaded.entries[0].address, "VAddr1");
    assert_eq!(loaded.entries[0].balance, 100_000_000);
    assert_eq!(loaded.entries[1].address, "VAddr2");
    assert_eq!(loaded.entries[1].balance, 200_000_000);
}

#[test]
fn test_integrity_verification() {
    let snapshot = make_test_snapshot();
    verify_integrity(&snapshot).expect("Integrity check failed");
}
