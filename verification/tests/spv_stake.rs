//! Stakes.

use sha2::{Digest, Sha256};
use vtorrent::spv::merkle::MerkleTree;
use vtorrent::spv::stake::{
    hash_utxo, SpvUtxo, Transaction, TxInput, TxOutput, TxType, UtxoInclusionProof, COIN,
};

fn sample_utxo(txid_byte: u8, vout: u32, value: u64) -> SpvUtxo {
    SpvUtxo {
        txid: [txid_byte; 32],
        vout,
        value,
        script_pubkey: vec![
            0x76, 0xa9, 0x14, 0xab, 0xcd, 0xef, 0xab, 0xcd, 0xef, 0xab, 0xcd, 0xef, 0xab, 0xcd,
            0xef, 0xab, 0xcd, 0xef, 0xab, 0xcd, 0x88, 0xac,
        ],
        height: 100,
        timestamp: 1_700_000_000,
    }
}

fn sample_utxos() -> Vec<SpvUtxo> {
    vec![
        sample_utxo(0x01, 0, 100 * COIN),
        sample_utxo(0x02, 0, 200 * COIN),
        sample_utxo(0x03, 1, 300 * COIN),
    ]
}

fn sample_utxo_tree(
    utxos: Vec<SpvUtxo>,
    leaf_index: usize,
) -> ([u8; 32], UtxoInclusionProof, [u8; 32]) {
    let leaves: Vec<[u8; 32]> = utxos.iter().map(hash_utxo).collect();
    let tree = MerkleTree::build(&leaves);
    let root = tree.root();
    let proof = tree.inclusion_proof(leaf_index).expect("proof should exist");
    let leaf = hash_utxo(&utxos[leaf_index]);
    let utxo_proof = UtxoInclusionProof {
        leaf_index,
        siblings: proof.siblings.clone(),
        root,
    };
    (root, utxo_proof, leaf)
}

fn sample_coinstake(utxo: &SpvUtxo) -> Transaction {
    Transaction {
        version: 1,
        tx_type: TxType::Coinstake,
        inputs: vec![TxInput {
            prev_txid: utxo.txid,
            prev_vout: utxo.vout,
            script_sig: vec![0x30, 0x44, 0x02, 0x20, 0x11, 0x22, 0x01, 0x02],
            sequence: 0xffffffff,
        }],
        outputs: vec![
            TxOutput {
                value: 0,
                script_pubkey: vec![],
            },
            TxOutput {
                value: utxo.value + 5000,
                script_pubkey: vec![
                    0x76, 0xa9, 0x14, 0xab, 0xcd, 0xef, 0xab, 0xcd, 0xef, 0xab, 0xcd, 0xef,
                    0xab, 0xcd, 0xef, 0xab, 0xcd, 0xef, 0xab, 0xcd, 0x88, 0xac,
                ],
            },
        ],
        lock_time: 12345,
        claim_address: None,
        claim_signature: None,
    }
}

#[test]
fn test_hash_utxo_deterministic() {
    let utxo = SpvUtxo {
        txid: [1u8; 32],
        vout: 0,
        value: 100 * COIN,
        script_pubkey: vec![0x76, 0xa9, 0x14, 0xab, 0xcd],
        height: 100,
        timestamp: 1_700_000_000,
    };
    assert_eq!(hash_utxo(&utxo), hash_utxo(&utxo));
    // different value => different hash
    let mut utxo2 = utxo.clone();
    utxo2.value = 200 * COIN;
    assert_ne!(hash_utxo(&utxo), hash_utxo(&utxo2));
}

#[test]
fn test_utxo_inclusion_proof_verify() {
    let utxos = sample_utxos();
    let (root, proof, leaf) = sample_utxo_tree(utxos, 1);
    assert!(proof.verify(&root, &leaf).is_ok());
    assert!(proof.verify(&[0xffu8; 32], &leaf).is_err());
    // wrong leaf
    let bad_leaf = [0xabu8; 32];
    assert!(proof.verify(&root, &bad_leaf).is_err());
    // root mismatch in proof object vs expected
    let mut bad_proof = proof.clone();
    bad_proof.root = [0xeeu8; 32];
    assert!(bad_proof.verify(&root, &leaf).is_err());
}

#[test]
fn test_hash_utxo_matches_block_rs_vector() {
    let spv = sample_utxo(0x42, 7, 12345);
    let h1 = hash_utxo(&spv);
    let mut h = Sha256::new();
    h.update(spv.txid);
    h.update(spv.vout.to_le_bytes());
    h.update(spv.value.to_le_bytes());
    let len = spv.script_pubkey.len() as u64;
    if len < 0xfd {
        h.update([len as u8]);
    } else if len <= 0xffff {
        h.update([0xfd]);
        h.update((len as u16).to_le_bytes());
    } else if len <= 0xffff_ffff {
        h.update([0xfe]);
        h.update((len as u32).to_le_bytes());
    } else {
        h.update([0xff]);
        h.update(len.to_le_bytes());
    }
    h.update(&spv.script_pubkey);
    h.update(spv.height.to_le_bytes());
    h.update(spv.timestamp.to_le_bytes());
    let first = h.finalize();
    let second = Sha256::digest(first);
    let mut expected = [0u8; 32];
    expected.copy_from_slice(&second);
    assert_eq!(h1, expected);
}

/// A transaction as a tuple of its fields, in the order in which a node writes them.
type NodeTransaction = (
    u32,
    u32,
    Vec<([u8; 32], u32, Vec<u8>, u32)>,
    Vec<(u64, Vec<u8>)>,
    u32,
    Option<String>,
    Option<Vec<u8>>,
);

fn twice_hashed(data: &[u8]) -> [u8; 32] {
    Sha256::digest(Sha256::digest(data)).into()
}

fn node_sighash(tx: &NodeTransaction, index: usize, subscript: &[u8]) -> [u8; 32] {
    let mut copy = tx.clone();
    for (i, input) in copy.2.iter_mut().enumerate() {
        input.2 = if i == index { subscript.to_vec() } else { Vec::new() };
    }
    let mut bytes = bincode::serialize(&copy).unwrap();
    bytes.extend_from_slice(&1u32.to_le_bytes());
    twice_hashed(&bytes)
}

#[test]
fn test_sighash_and_txid_bit_identical_with_node() {
    let utxo = sample_utxo(0x77, 2, 555 * COIN);
    let spv_tx = sample_coinstake(&utxo);
    let node_tx: NodeTransaction = (
        spv_tx.version,
        2,
        spv_tx
            .inputs
            .iter()
            .map(|i| (i.prev_txid, i.prev_vout, i.script_sig.clone(), i.sequence))
            .collect(),
        spv_tx.outputs.iter().map(|o| (o.value, o.script_pubkey.clone())).collect(),
        spv_tx.lock_time,
        None,
        None,
    );
    assert_eq!(spv_tx.txid(), twice_hashed(&bincode::serialize(&node_tx).unwrap()));
    let subscript = vec![0xaau8; 40];
    for idx in 0..spv_tx.inputs.len() {
        assert_eq!(spv_tx.sighash(idx, &subscript), node_sighash(&node_tx, idx, &subscript));
    }
}
