//! What light clients rely on.

use sha2::{Digest, Sha256};
use vtorrent::spv::bloom::{bytes_for_bits, murmur3, BloomFilter};
use vtorrent::spv::chain::{SpvChain, SpvHeader};
use vtorrent::spv::error::SpvError;
use vtorrent::spv::filter::{siphash, BlockFilter, FilterMatcher};
use vtorrent::spv::golomb::{gcs_decode, gcs_encode};
use vtorrent::spv::merkle::{combine, MerkleScratch, MerkleTree};
use vtorrent::spv::stake::{
    check_stake_kernel, compute_pos_reward, compute_stake_modifier, stake_kernel_hash, Transaction,
    TxInput, TxOutput, TxType, COIN, MAX_STAKE_AGE, MIN_STAKE_AGE,
};
use vtorrent::spv::stake_rules::verify_p2pkh_signature;
use vtorrent::spv::stake::SpvUtxo;
use vtorrent::spv::target::{hash_meets_target, header_work};

fn twice(data: &[u8]) -> [u8; 32] {
    Sha256::digest(Sha256::digest(data)).into()
}

#[test]
fn errors_of_light_clients_are_described() {
    let x = || "x".to_string();
    assert_eq!(SpvError::InvalidMerkleProof(x()).message(), "Invalid Merkle proof: x");
    assert_eq!(SpvError::HeaderValidation(x()).message(), "Block header validation failed: x");
    assert_eq!(
        SpvError::HeightMismatch { expected: 3, got: 5 }.message(),
        "Chain height mismatch: expected 3, got 5"
    );
    assert_eq!(SpvError::UnknownParent(x()).message(), "Unknown parent block: x");
    assert_eq!(SpvError::FilterDecode(x()).message(), "Filter decode error: x");
    assert_eq!(SpvError::Serialization(x()).message(), "Serialization error: x");
    assert_eq!(SpvError::Io(x()).message(), "IO error: x");
}

#[test]
fn nodes_are_hashed_twice() {
    let mut both = vec![1u8; 32];
    both.extend_from_slice(&[2u8; 32]);
    assert_eq!(combine(&[1; 32], &[2; 32]), twice(&both));
}

#[test]
fn an_odd_leaf_is_repeated() {
    let three: Vec<[u8; 32]> = (0..3u8).map(|i| [i; 32]).collect();
    let mut four = three.clone();
    four.push([2; 32]);
    assert_eq!(MerkleTree::build(&three).root(), MerkleTree::build(&four).root());
    let mut scratch = MerkleScratch::new();
    assert_eq!(scratch.build(&three), scratch.build(&four));
    assert!(scratch.inclusion_proof(9).is_none());
    let proof = MerkleTree::build(&three).inclusion_proof(1).unwrap();
    let mut other = proof.clone();
    other.txid = [9; 32];
    assert!(matches!(other.verify(&proof.root), Err(SpvError::InvalidMerkleProof(_))));
}

#[test]
fn hashes_have_their_published_values() {
    // The vectors that accompany the two functions.
    assert_eq!(murmur3(b"", 0xFBA4_C795), 0x6a39_6f08);
    assert_eq!(murmur3(b"", 0xffff_ffff), 0x81f1_6f39);
    assert_eq!(murmur3(&[0x00], 0), 0x514e_28b7);
    assert_eq!(murmur3(&[0x00, 0x11, 0x22, 0x33, 0x44, 0x55, 0x66, 0x77, 0x88], 0), 0xb4698def);
    let key: [u8; 16] = [0, 1, 2, 3, 4, 5, 6, 7, 8, 9, 10, 11, 12, 13, 14, 15];
    assert_eq!(siphash(&key, &[]), 0x726f_db47_dd0e_0e31);
    let data: Vec<u8> = (0..15).collect();
    assert_eq!(siphash(&key, &data), 0xa129_ca61_49be_45e5);
}

#[test]
fn filters_survive_the_wire() {
    let mut f = BloomFilter::with_size(64, 5, 9);
    assert!(f.is_empty() && !f.is_full());
    f.insert_hash(&[7; 32]);
    f.insert_script(&[1, 2, 3]);
    let (data, funcs, tweak, flags) = f.to_wire();
    let g = BloomFilter::from_bytes(data, funcs, tweak, flags);
    assert_eq!(g.to_wire(), f.to_wire());
    assert!(g.contains_hash(&[7; 32]) && g.contains(&[1, 2, 3]));
    assert!(!g.contains(b"something else"));
    assert_eq!((g.size_bytes(), g.hash_funcs()), (64, 5));
    for flags in 0..=2u8 {
        assert_eq!(BloomFilter::from_bytes(vec![0], 1, 0, flags).to_wire().3, flags);
    }
    assert_eq!(bytes_for_bits(9), 2);
    assert_eq!(bytes_for_bits(usize::MAX), 36_000);
}

#[test]
fn numbers_in_order_read_back() {
    let values: Vec<u64> = vec![0, 0, 1, 5, 1 << 19, 1 << 20, (1 << 30) + 7];
    let code = gcs_encode(&values, 19);
    assert_eq!(gcs_decode(&code, values.len(), 19), values);
    assert_eq!(gcs_encode(&[5], 3), vec![0b0101_0000]);
    // Past the end there are zero bits.
    assert_eq!(gcs_decode(&[], 3, 19), vec![0, 0, 0]);
}

#[test]
fn scripts_are_reported_by_their_filter() {
    let scripts: Vec<Vec<u8>> = (0..40u8).map(|i| vec![i, 1, 2, 3]).collect();
    let filter = BlockFilter::build([3; 32], 7, &scripts);
    for s in &scripts {
        assert!(filter.match_any(std::slice::from_ref(s)));
    }
    assert!(!filter.match_any(&[]));
    let mut matcher = FilterMatcher::new();
    assert!(matcher.is_empty());
    matcher.add_script(vec![39, 1, 2, 3]);
    assert_eq!(matcher.len(), 1);
    assert!(matcher.matches(&filter));
    assert_ne!(filter.filter_hash(), BlockFilter::build([4; 32], 7, &scripts).filter_hash());
}

#[test]
fn smaller_targets_are_more_work() {
    assert!(header_work(0x1d00_ffff) > header_work(0x1e00_ffff));
    assert!(header_work(0x207f_ffff) > 0);
    let mut hash = [0u8; 32];
    assert!(hash_meets_target(&hash, 0x1d00_ffff));
    hash[31] = 0xff;
    assert!(!hash_meets_target(&hash, 0x1d00_ffff));
    let mut low = [0u8; 32];
    low[0] = 0xff;
    assert!(hash_meets_target(&low, 0x0300_00ff) && !hash_meets_target(&low, 0x0300_00fe));
}

fn header(prev: [u8; 32], height: u32, timestamp: u32) -> SpvHeader {
    let mut h = SpvHeader {
        version: 1,
        prev_hash: prev,
        merkle_root: [height as u8; 32],
        utxo_root: [0; 32],
        timestamp,
        bits: 0x207f_ffff,
        nonce: 1,
        stake_modifier: 0,
        height,
    };
    while !hash_meets_target(&h.hash(), h.bits) {
        h.nonce += 1;
    }
    h
}

#[test]
fn headers_are_linked_and_in_time() {
    let mut chain = SpvChain::new();
    assert!(chain.is_empty());
    let now = 1_700_000_000;
    let first = header([0; 32], 0, now);
    chain.add_header_at(first.clone(), now).unwrap();
    let second = header(first.hash(), 1, now + 10);
    let late = header(first.hash(), 1, now + 10_000);
    match chain.add_header_at(late, now) {
        Err(SpvError::HeaderValidation(m)) => assert!(m.contains("future"), "{m}"),
        other => panic!("unexpected {:?}", other),
    }
    match chain.add_header_at(header(first.hash(), 5, now + 1), now) {
        Err(SpvError::HeightMismatch { expected: 1, got: 5 }) => {}
        other => panic!("unexpected {:?}", other),
    }
    match chain.add_header_at(header([9; 32], 1, now), now) {
        Err(SpvError::UnknownParent(_)) => {}
        other => panic!("unexpected {:?}", other),
    }
    assert_eq!(chain.len(), 1);
    chain.add_header_at(second.clone(), now).unwrap();
    chain.add_header_at(second.clone(), now).unwrap();
    assert_eq!((chain.len(), chain.best_height()), (2, 1));
    assert_eq!(chain.best_hash(), Some(second.hash()));
    assert_eq!(chain.get_header(&first.hash()).unwrap().hash(), first.hash());
    assert_eq!(chain.get_locator(), vec![second.hash(), first.hash()]);
    let proof = MerkleTree::build(&[[5; 32]]).inclusion_proof(0).unwrap();
    assert!(chain.verify_tx_inclusion(&second.hash(), &proof).is_err());
    assert!(chain.verify_tx_inclusion(&[8; 32], &proof).is_err());
}

#[test]
fn the_chain_with_more_work_wins() {
    let now = 1_700_000_000;
    let mut chain = SpvChain::new();
    let root = header([0; 32], 0, now);
    chain.add_header_at(root.clone(), now).unwrap();
    let a1 = header(root.hash(), 1, now + 1);
    let b1 = header(root.hash(), 1, now + 2);
    let b2 = header(b1.hash(), 2, now + 3);
    chain.add_header_at(a1.clone(), now).unwrap();
    assert_eq!(chain.best_hash(), Some(a1.hash()));
    chain.add_header_at(b1, now).unwrap();
    assert_eq!(chain.best_hash(), Some(a1.hash()));
    chain.add_header_at(b2.clone(), now).unwrap();
    assert_eq!(chain.best_hash(), Some(b2.hash()));
    assert_eq!(chain.len(), 4);
}

#[test]
fn many_headers_are_added_until_one_fails() {
    let now = 1_700_000_000;
    let a = header([0; 32], 0, now);
    let b = header(a.hash(), 1, now + 1);
    let mut chain = SpvChain::new();
    assert_eq!(chain.add_headers(vec![a.clone(), b.clone()]).unwrap(), 2);
    let mut other = SpvChain::new();
    assert_eq!(other.add_headers(vec![a, header([7; 32], 1, now), b]).unwrap(), 1);
    assert_eq!(other.len(), 1);
    assert!(other.add_headers(vec![header([7; 32], 1, now)]).is_err());
}

#[test]
fn rewards_are_bounded() {
    let year = 365 * 24 * 3600;
    assert_eq!(compute_pos_reward(0, year), 0);
    let full = compute_pos_reward(1_000 * COIN, MAX_STAKE_AGE);
    assert_eq!(compute_pos_reward(1_000 * COIN, u64::MAX), full);
    assert!(full < 1_000 * COIN);
    assert!(compute_pos_reward(1_000 * COIN, MIN_STAKE_AGE) <= full);
}

#[test]
fn kernels_depend_on_all_their_parts() {
    let base = stake_kernel_hash(1, &[2; 32], 3, 4);
    assert_ne!(base, stake_kernel_hash(2, &[2; 32], 3, 4));
    assert_ne!(base, stake_kernel_hash(1, &[3; 32], 3, 4));
    assert_ne!(base, stake_kernel_hash(1, &[2; 32], 4, 4));
    assert_ne!(base, stake_kernel_hash(1, &[2; 32], 3, 5));
    assert!(!check_stake_kernel(1, 0, &[2; 32], 3, 4));
    assert_ne!(compute_stake_modifier(1, &[2; 32]), compute_stake_modifier(2, &[2; 32]));
    assert_ne!(compute_stake_modifier(1, &[2; 32]), compute_stake_modifier(1, &[3; 32]));
}

fn transaction() -> Transaction {
    Transaction {
        version: 1,
        tx_type: TxType::Standard,
        inputs: vec![
            TxInput { prev_txid: [1; 32], prev_vout: 0, script_sig: vec![1], sequence: 5 },
            TxInput { prev_txid: [2; 32], prev_vout: 1, script_sig: vec![2], sequence: 6 },
        ],
        outputs: vec![
            TxOutput { value: 7, script_pubkey: vec![3] },
            TxOutput { value: u64::MAX, script_pubkey: vec![] },
        ],
        lock_time: 8,
        claim_address: None,
        claim_signature: None,
    }
}

#[test]
fn signature_hashes_ignore_signatures() {
    let a = transaction();
    let mut b = a.clone();
    b.inputs[0].script_sig = vec![9; 70];
    b.inputs[1].script_sig = vec![];
    assert_eq!(a.sighash(0, b"script"), b.sighash(0, b"script"));
    assert_ne!(a.txid(), b.txid());
    assert_ne!(a.sighash(0, b"script"), a.sighash(1, b"script"));
    assert_ne!(a.sighash(0, b"script"), a.sighash(0, b"other"));
    assert_eq!(a.total_output(), u64::MAX);
    assert!(!a.is_coinbase() && !a.is_coinstake() && !a.is_legacy_claim());
}

#[test]
fn unsigned_stakes_are_refused() {
    let mut script = vec![0x76, 0xa9, 0x14];
    script.extend_from_slice(&[5; 20]);
    script.extend_from_slice(&[0x88, 0xac]);
    let utxo = SpvUtxo {
        txid: [1; 32],
        vout: 0,
        value: 5,
        script_pubkey: script,
        height: 0,
        timestamp: 0,
    };
    let mut tx = transaction();
    tx.inputs[0].script_sig = vec![];
    assert!(verify_p2pkh_signature(&tx, &utxo).is_err());
    tx.inputs[0].script_sig = vec![2, 0x30, 0x01, 1, 0x02];
    assert!(verify_p2pkh_signature(&tx, &utxo).is_err());
}

#[test]
fn large_targets_are_compared_exactly() {
    let top = [0xff; 32];
    // The target 0xff * 256^30 is below the hash.
    assert!(!hash_meets_target(&top, 0x2100_00ff));
    let mut below = [0u8; 32];
    below[30] = 0xff;
    assert!(hash_meets_target(&below, 0x2100_00ff));
    below[0] = 1;
    assert!(!hash_meets_target(&below, 0x2100_00ff));
    assert!(hash_meets_target(&below, 0x2100_0100));
    assert!(!hash_meets_target(&top, 0x2100_ffff));
    assert!(hash_meets_target(&top, 0x2101_0000));
    assert!(!hash_meets_target(&top, 0x2200_00ff));
    assert!(hash_meets_target(&below, 0x2200_0001));
    assert!(hash_meets_target(&top, 0x2200_0100));
    assert!(hash_meets_target(&top, 0x2300_0001));
    assert!(hash_meets_target(&top, 0xff00_0001));
    assert!(!hash_meets_target(&[0; 32], 0x2300_0000));
}

#[test]
fn equal_scripts_are_reported_too() {
    for i in 0..200u8 {
        let s = vec![i, 9];
        let filter = BlockFilter::build([i; 32], 1, &[s.clone(), s.clone(), s.clone()]);
        assert_eq!(filter.n_elements, 1);
        assert!(filter.match_any(&[s]));
    }
    let scripts: Vec<Vec<u8>> = (0..60u8).map(|i| vec![i % 20, 4]).collect();
    let filter = BlockFilter::build([8; 32], 1, &scripts);
    let once = BlockFilter::build([8; 32], 1, &scripts[..20]);
    assert_eq!(filter.filter_bytes, once.filter_bytes);
    assert_eq!(filter.n_elements, 20);
    for s in &scripts {
        assert!(filter.match_any(std::slice::from_ref(s)));
    }
}

#[test]
fn no_transaction_has_no_proof() {
    let tree = MerkleTree::build(&[]);
    assert_eq!(tree.root(), [0; 32]);
    assert!(tree.inclusion_proof(0).is_none());
    let mut scratch = MerkleScratch::new();
    assert_eq!(scratch.root(), [0; 32]);
    scratch.build(&[[1; 32], [2; 32]]);
    assert!(scratch.inclusion_proof(1).is_some());
    assert_eq!(scratch.build(&[]), [0; 32]);
    assert_eq!(scratch.root(), [0; 32]);
    assert!(scratch.inclusion_proof(0).is_none());
}

#[test]
fn inserting_twice_is_inserting_once() {
    let mut f = BloomFilter::with_size(16, 5, 7);
    f.insert(b"item");
    let once = f.to_wire();
    f.insert(b"item");
    assert_eq!(f.to_wire(), once);
}

#[test]
fn the_first_of_equal_work_stays_the_tip() {
    let now = 1_700_000_000;
    let mut chain = SpvChain::new();
    let root = header([0; 32], 0, now);
    let a = header(root.hash(), 1, now + 1);
    let b = header(root.hash(), 1, now + 2);
    chain.add_header_at(root, now).unwrap();
    chain.add_header_at(a, now).unwrap();
    chain.add_header_at(b, now).unwrap();
    assert_eq!(chain.best_hash(), Some(a.hash()));
    let c = header(b.hash(), 2, now + 3);
    chain.add_header_at(c, now).unwrap();
    assert_eq!((chain.best_hash(), chain.best_height()), (Some(c.hash()), 2));
}

#[test]
fn work_is_what_the_target_leaves() {
    assert_eq!(header_work(0x207f_ffff), (1u128 << 24) / 0x7f_ffff);
    assert_eq!(header_work(0x1d00_ffff), (1u128 << 48) / 0xffff);
    // 2^128 by the mantissa fits where the mantissa is above one.
    assert_eq!(header_work(0x1300_0002), 1u128 << 127);
    assert_eq!(header_work(0x1300_0001), u128::MAX);
    assert_eq!(header_work(0x1200_0100), u128::MAX);
    assert_eq!(header_work(0x1200_0200), 1u128 << 127);
    assert_eq!(header_work(0x0300_0001), u128::MAX);
    assert_eq!(header_work(0x2300_0001), 1);
    assert_eq!(header_work(0x2300_0002), 0);
    assert_eq!(header_work(0x2400_0001), 0);
    assert_eq!(header_work(0x1d00_0000), 0);
}
