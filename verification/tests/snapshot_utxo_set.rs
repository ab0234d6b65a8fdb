//! Balances of a snapshot.

use vtorrent::snapshot::utxo_set::{lookup_balance, SnapshotEntry, SnapshotMetadata, UtxoSnapshot};

#[test]
fn test_lookup_balance_found() {
    let snapshot = UtxoSnapshot {
        metadata: SnapshotMetadata {
            snapshot_height: 100,
            total_addresses: 2,
            total_supply: 300_000_000,
            total_utxos: 3,
            entries_hash: String::new(),
            created_at: 0,
            best_block_hash: String::new(),
        },
        entries: vec![
            SnapshotEntry {
                address: "VAddr1".into(),
                balance: 100_000_000,
                utxo_count: 1,
            },
            SnapshotEntry {
                address: "VAddr2".into(),
                balance: 200_000_000,
                utxo_count: 2,
            },
        ],
    };

    assert_eq!(lookup_balance(&snapshot, "VAddr1"), 100_000_000);
    assert_eq!(lookup_balance(&snapshot, "VAddr2"), 200_000_000);
    assert_eq!(lookup_balance(&snapshot, "VAddr3"), 0);
}
