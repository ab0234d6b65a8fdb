//! Storing a chain in tables.

use sha2::{Digest, Sha256};
use std::collections::{BTreeMap, BTreeSet};
use vtorrent::store::error::StoreError;
use vtorrent::store::plan::{
    append_plan, clear_plan, open_plan, rollback_plan, truncate_plan, OpenFacts, UtxoRecord,
};
use vtorrent::store::query::{
    balance_for_script, best_hash, best_height, check_chain_height, main_chain_hashes, utxos_for_script,
    Utxo, MAX_CHAIN_HEIGHT,
};
use vtorrent::store::tables::{utxo_key, TableOp};

const GENESIS: &[u8] = b"the first block";

fn hash_of(block: &[u8]) -> [u8; 32] {
    Sha256::digest(block).into()
}

/// A block that names its parent and its height.
fn make_block(prev_hash: [u8; 32], height: u32) -> Vec<u8> {
    let mut block = prev_hash.to_vec();
    block.extend_from_slice(&height.to_le_bytes());
    block
}

/// The only transaction of a block.
fn txid_of(block: &[u8]) -> [u8; 32] {
    let mut tagged = b"transaction of ".to_vec();
    tagged.extend_from_slice(block);
    hash_of(&tagged)
}

fn make_utxo(txid: [u8; 32], vout: u32, value: u64) -> UtxoRecord {
    UtxoRecord { txid, vout, bytes: value.to_le_bytes().to_vec() }
}

/// Tables in memory.
#[derive(Clone, Default, PartialEq, Debug)]
struct Memory {
    blocks: BTreeMap<String, Vec<u8>>,
    heights: BTreeMap<u32, String>,
    utxos: BTreeMap<String, Vec<u8>>,
    claimed: BTreeSet<String>,
    meta: BTreeMap<String, String>,
}

impl Memory {
    fn apply(&mut self, ops: Vec<TableOp>) {
        for op in ops {
            match op {
                TableOp::PutBlock { hash, bytes } => {
                    self.blocks.insert(hash, bytes);
                }
                TableOp::RemoveBlock { hash } => {
                    self.blocks.remove(&hash);
                }
                TableOp::PutHeight { height, hash } => {
                    self.heights.insert(height, hash);
                }
                TableOp::RemoveHeight { height } => {
                    self.heights.remove(&height);
                }
                TableOp::PutUtxo { key, bytes } => {
                    self.utxos.insert(key, bytes);
                }
                TableOp::RemoveUtxo { key } => {
                    self.utxos.remove(&key);
                }
                TableOp::PutClaimed { address } => {
                    self.claimed.insert(address);
                }
                TableOp::RemoveClaimed { address } => {
                    self.claimed.remove(&address);
                }
                TableOp::PutMeta { key, value } => {
                    self.meta.insert(key, value);
                }
            }
        }
    }

    fn reopen(&mut self) -> Result<(), StoreError> {
        let genesis = hash_of(GENESIS);
        let facts = OpenFacts {
            protocol: self.meta.get("protocol_version").cloned(),
            has_genesis: self.heights.contains_key(&0),
            highest: self.heights.iter().next_back().map(|(h, s)| (*h, s.clone())),
            best_height: self.meta.get("best_height").cloned(),
        };
        let ops = open_plan(&facts, &genesis, GENESIS)?;
        self.apply(ops);
        Ok(())
    }

    fn open() -> Memory {
        let mut store = Memory::default();
        store.reopen().unwrap();
        store
    }

    fn append(
        &mut self,
        block: &[u8],
        height: u32,
        added: &[UtxoRecord],
        removed: &[([u8; 32], u32)],
        claimed: &[String],
    ) {
        self.apply(append_plan(&hash_of(block), block, height, added, removed, claimed));
    }

    fn rollback(
        &mut self,
        restore: &[UtxoRecord],
        remove: &[([u8; 32], u32)],
        claimed: &[String],
    ) -> Result<(), StoreError> {
        let height = self.best_height();
        let below = height.checked_sub(1).and_then(|h| self.heights.get(&h).cloned());
        let ops = rollback_plan(height, below.as_deref(), restore, remove, claimed)?;
        self.apply(ops);
        Ok(())
    }

    fn best_height(&self) -> u32 {
        best_height(self.meta.get("best_height").map(|s| s.as_str())).unwrap()
    }

    fn best_hash(&self) -> Option<[u8; 32]> {
        best_hash(self.meta.get("best_hash").map(|s| s.as_str())).unwrap()
    }

    fn has_utxo(&self, txid: &[u8; 32], vout: u32) -> bool {
        self.utxos.contains_key(&utxo_key(txid, vout))
    }
}

#[test]
fn test_open_and_empty_state() {
    let store = Memory::open();
    // Fresh stores hold the first block.
    assert_eq!(store.best_height(), 0);
    assert!(store.best_hash().is_some());
    assert_eq!(store.blocks.len(), 1);
    assert_eq!(store.utxos.len(), 0);
}

#[test]
fn test_open_rejects_legacy_protocol_store() {
    let mut store = Memory::default();
    store.heights.insert(0, "legacy-hash".to_string());
    let error = store.reopen().err().expect("legacy store must fail");
    assert!(error.message().contains("protocol 3"));
}

#[test]
fn another_protocol_is_refused() {
    let mut store = Memory::open();
    store.meta.insert("protocol_version".to_string(), "2".to_string());
    assert!(matches!(store.reopen(), Err(StoreError::Corrupted(_))));
}

#[test]
fn test_append_and_retrieve_block() {
    let mut store = Memory::open();
    let block = make_block([0u8; 32], 1);
    let block_hash = hash_of(&block);
    let utxo = make_utxo(txid_of(&block), 0, 5_000_000_000);
    store.append(&block, 1, std::slice::from_ref(&utxo), &[], &[]);

    assert_eq!(store.best_height(), 1);
    assert_eq!(store.best_hash(), Some(block_hash));
    assert_eq!(store.blocks.len(), 2); // the first block and the appended one
    assert_eq!(store.utxos.len(), 1);
    assert_eq!(store.blocks.get(&hex::encode(block_hash)), Some(&block));
    assert_eq!(store.heights.get(&1), Some(&hex::encode(block_hash)));
}

#[test]
fn test_utxo_has_and_get() {
    let mut store = Memory::open();
    let block = make_block([0u8; 32], 1);
    let txid = txid_of(&block);
    let utxo = make_utxo(txid, 0, 1_000_000);
    store.append(&block, 1, std::slice::from_ref(&utxo), &[], &[]);

    assert!(store.has_utxo(&txid, 0));
    assert!(!store.has_utxo(&txid, 1));
    assert_eq!(store.utxos.get(&utxo_key(&txid, 0)), Some(&1_000_000u64.to_le_bytes().to_vec()));
}

#[test]
fn test_utxo_removal() {
    let mut store = Memory::open();
    let block1 = make_block([0u8; 32], 1);
    let txid1 = txid_of(&block1);
    store.append(&block1, 1, &[make_utxo(txid1, 0, 1_000_000)], &[], &[]);
    let block2 = make_block(hash_of(&block1), 2);
    store.append(&block2, 2, &[], &[(txid1, 0)], &[]);

    assert!(!store.has_utxo(&txid1, 0));
    assert_eq!(store.utxos.len(), 0);
}

#[test]
fn test_claimed_addresses() {
    let mut store = Memory::open();
    let block = make_block([0u8; 32], 1);
    let addr = "1A1zP1eP5QGefi2DMPTfTL5SLmv7Divf".to_string();
    store.append(&block, 1, &[], &[], std::slice::from_ref(&addr));

    assert!(store.claimed.contains(&addr));
    assert!(!store.claimed.contains("VUnknownAddress"));
    assert_eq!(store.claimed.len(), 1);
}

#[test]
fn test_rollback_tip() {
    let mut store = Memory::open();
    let block1 = make_block([0u8; 32], 1);
    let txid1 = txid_of(&block1);
    let utxo1 = make_utxo(txid1, 0, 5_000_000_000);
    store.append(&block1, 1, std::slice::from_ref(&utxo1), &[], &[]);
    let block2 = make_block(hash_of(&block1), 2);
    let txid2 = txid_of(&block2);
    store.append(&block2, 2, &[make_utxo(txid2, 0, 5_000_000_000)], &[(txid1, 0)], &[]);

    assert_eq!(store.best_height(), 2);
    assert!(!store.has_utxo(&txid1, 0));

    // The first output comes back, the second goes.
    store.rollback(&[utxo1], &[(txid2, 0)], &[]).unwrap();

    assert_eq!(store.best_height(), 1);
    assert!(store.has_utxo(&txid1, 0));
    assert!(!store.has_utxo(&txid2, 0));
}

#[test]
fn rolling_back_undoes_appending() {
    let mut store = Memory::open();
    let block1 = make_block([0u8; 32], 1);
    let txid1 = txid_of(&block1);
    store.append(&block1, 1, &[make_utxo(txid1, 0, 7)], &[], &[]);
    let before = store.clone();
    let block2 = make_block(hash_of(&block1), 2);
    let txid2 = txid_of(&block2);
    let addr = "VClaimed".to_string();
    store.append(
        &block2,
        2,
        &[make_utxo(txid2, 0, 9)],
        &[(txid1, 0)],
        std::slice::from_ref(&addr),
    );
    assert_ne!(store, before);
    store.rollback(&[make_utxo(txid1, 0, 7)], &[(txid2, 0)], &[addr]).unwrap();
    // The block itself stays.
    store.blocks.remove(&hex::encode(hash_of(&block2)));
    assert_eq!(store, before);
}

#[test]
fn first_block_cannot_be_rolled_back() {
    let mut store = Memory::open();
    let error = store.rollback(&[], &[], &[]).unwrap_err();
    assert_eq!(error.message(), "store is corrupted: Cannot roll back genesis block");
}

#[test]
fn rolling_back_needs_the_block_below() {
    let error = rollback_plan(5, None, &[], &[], &[]).unwrap_err();
    assert_eq!(error.message(), "store is corrupted: no block at height 4");
}

#[test]
fn test_main_chain_hashes() {
    let mut store = Memory::open();
    let b1 = make_block([0u8; 32], 1);
    let h1 = hash_of(&b1);
    store.append(&b1, 1, &[], &[], &[]);
    let b2 = make_block(h1, 2);
    let h2 = hash_of(&b2);
    store.append(&b2, 2, &[], &[], &[]);

    let rows: Vec<(u32, String)> = store.heights.clone().into_iter().collect();
    let hashes = main_chain_hashes(store.best_height(), &rows).unwrap();
    assert_eq!(hashes.len(), 3); // the first block, b1 and b2
    assert_eq!(hashes[1], h1);
    assert_eq!(hashes[2], h2);
}

#[test]
fn heights_beyond_the_maximum_are_refused() {
    assert!(check_chain_height(MAX_CHAIN_HEIGHT).is_ok());
    let error = check_chain_height(MAX_CHAIN_HEIGHT + 1).unwrap_err();
    assert_eq!(
        error.message(),
        "store is corrupted: best_height 10000001 exceeds maximum 10000000"
    );
    assert!(main_chain_hashes(MAX_CHAIN_HEIGHT + 1, &[]).is_err());
}

#[test]
fn test_balance_for_script() {
    let script = vec![0x76, 0xa9, 0x14];
    let other_script = vec![0x00, 0x14];
    let u1 = Utxo {
        txid: [1u8; 32],
        vout: 0,
        value: 1_000_000,
        script_pubkey: script.clone(),
        height: 1,
        timestamp: 1,
    };
    let u2 = Utxo {
        txid: [2u8; 32],
        vout: 0,
        value: 2_000_000,
        script_pubkey: other_script.clone(),
        height: 1,
        timestamp: 1,
    };
    let all = [u1, u2];
    assert_eq!(balance_for_script(&all, &script), 1_000_000);
    assert_eq!(balance_for_script(&all, &other_script), 2_000_000);
    assert_eq!(balance_for_script(&all, &[]), 0);
    let found = utxos_for_script(&all, &other_script);
    assert_eq!(found.len(), 1);
    assert_eq!(found[0].txid, [2u8; 32]);
}

#[test]
fn test_persistence_across_reopen() {
    let mut store = Memory::open();
    let block = make_block([0u8; 32], 1);
    let utxo = make_utxo(txid_of(&block), 0, 5_000_000_000);
    store.append(&block, 1, &[utxo], &[], &[]);
    assert_eq!(store.best_height(), 1);
    let before = store.clone();

    // Opening again changes nothing.
    store.reopen().unwrap();
    assert_eq!(store.best_height(), 1);
    assert_eq!(store.blocks.len(), 2); // the first block and the appended one
    assert_eq!(store.utxos.len(), 1);
    assert_eq!(store, before);
}

#[test]
fn truncating_cuts_at_the_height() {
    let mut store = Memory::open();
    let mut prev = [0u8; 32];
    for height in 1..=4 {
        let block = make_block(prev, height);
        prev = hash_of(&block);
        store.append(&block, height, &[], &[], &[]);
    }
    let rows: Vec<(u32, String)> = store.heights.clone().into_iter().collect();
    let kept = store.heights.get(&2).cloned();
    store.apply(truncate_plan(&rows, 2, kept.as_deref()));
    assert_eq!(store.heights.keys().copied().collect::<Vec<u32>>(), vec![0, 1, 2]);
    assert_eq!(store.best_height(), 2);
    assert_eq!(store.best_hash().map(hex::encode), kept);
}

#[test]
fn clearing_removes_what_is_derived() {
    let mut store = Memory::open();
    let block = make_block([0u8; 32], 1);
    let addr = "VClaimed".to_string();
    store.append(&block, 1, &[make_utxo([5; 32], 3, 8)], &[], std::slice::from_ref(&addr));
    store.apply(clear_plan(&[utxo_key(&[5; 32], 3)], &[addr]));
    assert!(store.utxos.is_empty());
    assert!(store.claimed.is_empty());
    assert_eq!(store.blocks.len(), 2);
}

#[test]
fn output_keys_name_the_transaction_and_position() {
    assert_eq!(utxo_key(&[0xab; 32], 7), format!("{}:7", "ab".repeat(32)));
    assert_ne!(utxo_key(&[0xab; 32], 7), utxo_key(&[0xab; 32], 8));
    assert_ne!(utxo_key(&[0xab; 32], 7), utxo_key(&[0xac; 32], 7));
}

#[test]
fn stored_texts_are_read() {
    assert_eq!(best_height(None).unwrap(), 0);
    assert_eq!(best_height(Some("42")).unwrap(), 42);
    assert!(best_height(Some("many")).is_err());
    assert_eq!(best_hash(None).unwrap(), None);
    assert_eq!(best_hash(Some(&"0f".repeat(32))).unwrap(), Some([0x0f; 32]));
    assert!(best_hash(Some("0f")).is_err());
    assert!(best_hash(Some("zz")).is_err());
}

#[test]
fn store_errors_are_described() {
    assert_eq!(StoreError::Redb("x".to_string()).message(), "redb error: x");
    assert_eq!(StoreError::RedbDatabase("x".to_string()).message(), "redb database error: x");
    assert_eq!(StoreError::RedbTransaction("x".to_string()).message(), "redb transaction error: x");
    assert_eq!(StoreError::RedbTable("x".to_string()).message(), "redb table error: x");
    assert_eq!(StoreError::RedbCommit("x".to_string()).message(), "redb commit error: x");
    assert_eq!(StoreError::RedbStorage("x".to_string()).message(), "redb storage error: x");
    assert_eq!(StoreError::Serde("x".to_string()).message(), "serialization error: x");
    assert_eq!(StoreError::BlockNotFound("x".to_string()).message(), "block not found: x");
    assert_eq!(StoreError::Corrupted("x".to_string()).message(), "store is corrupted: x");
}
