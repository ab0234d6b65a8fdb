//! The header chain.

use secp256k1::{Message, PublicKey, Secp256k1, SecretKey};
use vtorrent::crypto::hash160;
use vtorrent::spv::chain::{SpvChain, SpvHeader};
use vtorrent::spv::merkle::MerkleTree;
use vtorrent::spv::stake::{
    check_stake_kernel, compute_stake_modifier, hash_utxo, SpvUtxo, StakeProof, Transaction, TxInput,
    TxOutput, TxType, UtxoInclusionProof, COIN,
};
use vtorrent::spv::target::hash_meets_target;

fn make_header(height: u32, prev: [u8; 32], merkle: [u8; 32]) -> SpvHeader {
    // Maximum (easiest) target; mine a nonce that satisfies PoW (~2 tries
    // on average). Production sync validates real difficulty.
    let bits = 0x207f_ffff;
    let mut nonce: u32 = 1;
    loop {
        let h = SpvHeader {
            version: 1,
            prev_hash: prev,
            merkle_root: merkle,
            utxo_root: [0u8; 32],
            timestamp: 1_700_000_000 + height,
            bits,
            nonce,
            stake_modifier: 0,
            height,
        };
        if hash_meets_target(&h.hash(), bits) {
            return h;
        }
        nonce += 1;
    }
}

#[test]
fn test_pow_invalid_header_rejected() {
    let mut chain = SpvChain::new();
    // A non-PoS header whose hash cannot meet a hard target is rejected.
    let mut h = make_header(0, [0u8; 32], [1u8; 32]);
    h.bits = 0x1b_00_00_01;
    assert!(chain.add_header(h).is_err());
}

#[test]
fn test_add_genesis() {
    let mut chain = SpvChain::new();
    let genesis = make_header(0, [0u8; 32], [1u8; 32]);
    chain.add_header(genesis).unwrap();
    assert_eq!(chain.best_height(), 0);
    assert!(chain.best_hash().is_some());
}

#[test]
fn test_chain_of_headers() {
    let mut chain = SpvChain::new();
    let h0 = make_header(0, [0u8; 32], [1u8; 32]);
    let h0_hash = h0.hash();
    chain.add_header(h0).unwrap();

    let h1 = make_header(1, h0_hash, [2u8; 32]);
    let h1_hash = h1.hash();
    chain.add_header(h1).unwrap();

    let h2 = make_header(2, h1_hash, [3u8; 32]);
    chain.add_header(h2).unwrap();

    assert_eq!(chain.best_height(), 2);
    assert_eq!(chain.len(), 3);
}

#[test]
fn test_unknown_parent_rejected() {
    let mut chain = SpvChain::new();
    let orphan = make_header(1, [0xffu8; 32], [0u8; 32]);
    assert!(chain.add_header(orphan).is_err());
}

#[test]
fn test_duplicate_header_ignored() {
    let mut chain = SpvChain::new();
    let h = make_header(0, [0u8; 32], [1u8; 32]);
    chain.add_header(h.clone()).unwrap();
    chain.add_header(h).unwrap(); // should not error
    assert_eq!(chain.len(), 1);
}

#[test]
fn test_verify_tx_inclusion() {
    let txids: Vec<[u8; 32]> = (0..4u8)
        .map(|i| {
            let mut h = [0u8; 32];
            h[0] = i;
            h
        })
        .collect();
    let tree = MerkleTree::build(&txids);
    let merkle_root = tree.root();

    let mut chain = SpvChain::new();
    let header = make_header(0, [0u8; 32], merkle_root);
    let block_hash = header.hash();
    chain.add_header(header).unwrap();

    let proof = tree.inclusion_proof(2).unwrap();
    chain.verify_tx_inclusion(&block_hash, &proof).unwrap();
}

#[test]
fn test_locator_single_header() {
    let mut chain = SpvChain::new();
    let h = make_header(0, [0u8; 32], [0u8; 32]);
    chain.add_header(h).unwrap();
    let locator = chain.get_locator();
    assert_eq!(locator.len(), 1);
}

#[test]
fn test_header_hash_deterministic() {
    let h = make_header(5, [0xabu8; 32], [0xcdu8; 32]);
    assert_eq!(h.hash(), h.hash());
}

#[test]
fn test_spv_header_hash_includes_utxo_root() {
    let h1 = SpvHeader {
        version: 2,
        prev_hash: [1u8; 32],
        merkle_root: [2u8; 32],
        utxo_root: [3u8; 32],
        timestamp: 1_700_000_001,
        bits: 0x1e0fffff,
        nonce: 0,
        stake_modifier: 0,
        height: 1,
    };
    let mut h2 = h1.clone();
    h2.utxo_root = [4u8; 32];
    assert_ne!(h1.hash(), h2.hash());
}

struct TestKey {
    secret: SecretKey,
    pubkey: PublicKey,
    script_pubkey: Vec<u8>,
}

fn make_key(seed: u8) -> TestKey {
    let mut sk = [0u8; 32];
    sk[30] = 0xab;
    sk[31] = seed;
    let secret = SecretKey::from_slice(&sk).unwrap();
    let secp = Secp256k1::new();
    let pubkey = PublicKey::from_secret_key(&secp, &secret);
    let h = hash160(&pubkey.serialize());
    let mut script_pubkey = vec![0x76, 0xa9, 0x14];
    script_pubkey.extend_from_slice(&h);
    script_pubkey.extend_from_slice(&[0x88, 0xac]);
    TestKey {
        secret,
        pubkey,
        script_pubkey,
    }
}

/// Sign the coinstake input exactly like `StakingEngine::sign_coinstake_input`:
/// `script_sig = <len> <der_sig + 0x01> <len> <compressed_pubkey>`.
fn sign_coinstake(tx: &Transaction, utxo: &SpvUtxo, key: &TestKey) -> Vec<u8> {
    let sighash = tx.sighash(0, &utxo.script_pubkey);
    let secp = Secp256k1::new();
    let sig = secp.sign_ecdsa(&Message::from_digest(sighash), &key.secret);
    let mut der = sig.serialize_der().to_vec();
    der.push(0x01);
    let pk = key.pubkey.serialize();
    let mut script = Vec::with_capacity(1 + der.len() + 1 + pk.len());
    script.push(der.len() as u8);
    script.extend_from_slice(&der);
    script.push(pk.len() as u8);
    script.extend_from_slice(&pk);
    script
}

fn now_ts() -> u32 {
    std::time::SystemTime::now()
        .duration_since(std::time::UNIX_EPOCH)
        .unwrap()
        .as_secs() as u32
}

struct PosFixture {
    genesis: SpvHeader,
    header: SpvHeader,
    proof: StakeProof,
}

/// Build a genesis header committing to a single-UTXO set plus a PoS child
/// header with a fully valid `StakeProof` (real secp256k1 signature,
/// kernel-searched timestamp). `young` makes the staked UTXO younger than
/// MIN_STAKE_AGE for the age-violation test.
fn make_fixture(staked_value: u64, reward: u64, young: bool) -> PosFixture {
    let key = make_key(7);
    let now = now_ts();
    let utxo_timestamp = if young { now - 100_000 } else { now - 200_000 };
    let utxo = SpvUtxo {
        txid: [0x42u8; 32],
        vout: 0,
        value: staked_value,
        script_pubkey: key.script_pubkey.clone(),
        height: 0,
        timestamp: utxo_timestamp,
    };

    // Genesis header commits to the pre-apply UTXO set (single leaf:
    // tree root == hash_utxo).
    let utxo_root = hash_utxo(&utxo);
    let genesis = SpvHeader {
        version: 1,
        prev_hash: [0u8; 32],
        merkle_root: [1u8; 32],
        utxo_root,
        timestamp: utxo_timestamp,
        bits: 0x207f_ffff,
        nonce: 1,
        stake_modifier: 0,
        height: 0,
    };
    let genesis_hash = genesis.hash();

    // Search for a kernel-passing timestamp (target = value / 1000).
    // Kernel uses prev_stake_modifier (0 for genesis child), not the new header's modifier.
    let prev_modifier = 0u64;
    let modifier = compute_stake_modifier(prev_modifier, &genesis_hash);
    let search_start = if young {
        utxo_timestamp + 3600
    } else {
        now - 100_000
    };
    let mut header_timestamp = search_start;
    while !check_stake_kernel(
        prev_modifier,
        staked_value,
        &utxo.txid,
        utxo.vout,
        header_timestamp,
    ) {
        header_timestamp += 1;
        // safety bound: if we scan far, eventually kernel hits (value large)
        if header_timestamp > search_start + 1_000_000 {
            panic!("kernel search exhausted");
        }
    }

    // Coinstake spending the UTXO, minting `reward` on top.
    let mut coinstake = Transaction {
        version: 1,
        tx_type: TxType::Coinstake,
        inputs: vec![TxInput {
            prev_txid: utxo.txid,
            prev_vout: utxo.vout,
            script_sig: Vec::new(),
            sequence: 0xffff_ffff,
        }],
        outputs: vec![
            TxOutput {
                value: 0,
                script_pubkey: Vec::new(),
            },
            TxOutput {
                value: staked_value + reward,
                script_pubkey: key.script_pubkey.clone(),
            },
        ],
        lock_time: 1,
        claim_address: None,
        claim_signature: None,
    };
    coinstake.inputs[0].script_sig = sign_coinstake(&coinstake, &utxo, &key);

    // Tx merkle proof: coinstake at index 0 plus a dummy second tx.
    let txids = vec![coinstake.txid(), [0x99u8; 32]];
    let tx_tree = MerkleTree::build(&txids);
    let tx_merkle_proof = tx_tree.inclusion_proof(0).unwrap();

    let utxo_proof = UtxoInclusionProof {
        leaf_index: 0,
        siblings: Vec::new(),
        root: utxo_root,
    };

    let header = SpvHeader {
        version: 2,
        prev_hash: genesis_hash,
        merkle_root: tx_tree.root(),
        utxo_root: [7u8; 32],
        timestamp: header_timestamp,
        bits: genesis.bits,
        nonce: 0,
        stake_modifier: modifier,
        height: 1,
    };

    let proof = StakeProof {
        coinstake,
        tx_merkle_proof,
        utxo,
        utxo_proof,
        prev_stake_modifier: 0,
    };

    PosFixture {
        genesis,
        header,
        proof,
    }
}

fn seeded_chain(genesis: &SpvHeader) -> SpvChain {
    let mut chain = SpvChain::new();
    chain.add_trusted_header(genesis.clone()).unwrap();
    chain
}

#[test]
fn test_legacy_stake_proof_fails_closed_without_transition_proof() {
    let f = make_fixture(500 * COIN, 1_000, false);
    let mut chain = seeded_chain(&f.genesis);
    let error = chain.add_pos_header(f.header, f.proof).unwrap_err();
    assert!(error.message().contains("post-state"));
    assert_eq!(chain.best_height(), 0);
    assert_eq!(chain.len(), 1);
}

#[test]
fn test_add_pos_header_bad_kernel_rejected() {
    let mut f = make_fixture(500 * COIN, 1_000, false);
    f.proof.prev_stake_modifier ^= 1;
    let mut chain = seeded_chain(&f.genesis);
    assert!(chain.add_pos_header(f.header, f.proof).is_err());
}

#[test]
fn test_add_pos_header_bad_utxo_proof_rejected() {
    let mut f = make_fixture(500 * COIN, 1_000, false);
    f.proof.utxo_proof.root = [0xffu8; 32];
    let mut chain = seeded_chain(&f.genesis);
    assert!(chain.add_pos_header(f.header, f.proof).is_err());
}

#[test]
fn test_add_pos_header_bad_signature_rejected() {
    let mut f = make_fixture(500 * COIN, 1_000, false);
    // Corrupt a byte inside the DER signature (after the 0x30 tag).
    f.proof.coinstake.inputs[0].script_sig[5] ^= 0xff;
    // Rebuild the tx merkle proof so inclusion passes and the failure
    // isolates the signature check.
    let txids = vec![f.proof.coinstake.txid(), [0x99u8; 32]];
    let tree = MerkleTree::build(&txids);
    f.proof.tx_merkle_proof = tree.inclusion_proof(0).unwrap();
    f.header.merkle_root = tree.root();
    let mut chain = seeded_chain(&f.genesis);
    assert!(chain.add_pos_header(f.header, f.proof).is_err());
}

#[test]
fn test_add_pos_header_reward_excess_rejected() {
    let f = make_fixture(500 * COIN, 50 * COIN, false);
    let mut chain = seeded_chain(&f.genesis);
    assert!(chain.add_pos_header(f.header, f.proof).is_err());
}

#[test]
fn test_add_pos_header_age_violation_rejected() {
    let f = make_fixture(1000 * COIN, 1_000, true);
    let mut chain = seeded_chain(&f.genesis);
    assert!(chain.add_pos_header(f.header, f.proof).is_err());
}

#[test]
fn test_forged_utxo_value_tampered_rejected() {
    let mut f = make_fixture(500 * COIN, 1_000, false);
    // inflate UTXO value: leaf hash will no longer match proof
    f.proof.utxo.value += 100 * COIN;
    let mut chain = seeded_chain(&f.genesis);
    assert!(chain.add_pos_header(f.header, f.proof).is_err());
}

#[test]
fn test_utxo_root_forgery_fails_closed_immediately() {
    let mut f = make_fixture(500 * COIN, 1_000, false);
    f.header.utxo_root = [0xaa; 32];
    let mut chain = seeded_chain(&f.genesis);
    assert!(chain.add_pos_header(f.header, f.proof).is_err());
    assert_eq!(chain.best_height(), 0);
    assert_eq!(chain.len(), 1);
}
