//! Inclusion proofs.

use vtorrent::spv::merkle::{combine, MerkleScratch, MerkleTree};

fn make_txids(n: usize) -> Vec<[u8; 32]> {
    (0..n)
        .map(|i| {
            let mut h = [0u8; 32];
            h[0] = i as u8;
            h[1] = (i >> 8) as u8;
            h
        })
        .collect()
}

#[test]
fn test_single_tx_root() {
    let txids = make_txids(1);
    let tree = MerkleTree::build(&txids);
    assert_eq!(tree.root(), txids[0]);
}

#[test]
fn test_two_tx_root() {
    let txids = make_txids(2);
    let tree = MerkleTree::build(&txids);
    let expected = combine(&txids[0], &txids[1]);
    assert_eq!(tree.root(), expected);
}

#[test]
fn test_odd_tx_duplicates_last() {
    let txids = make_txids(3);
    let tree = MerkleTree::build(&txids);
    // Level 1: [combine(0,1), combine(2,2)]
    // Root: combine(combine(0,1), combine(2,2))
    let l1_0 = combine(&txids[0], &txids[1]);
    let l1_1 = combine(&txids[2], &txids[2]);
    let expected_root = combine(&l1_0, &l1_1);
    assert_eq!(tree.root(), expected_root);
}

#[test]
fn test_proof_verify_valid() {
    let txids = make_txids(8);
    let tree = MerkleTree::build(&txids);
    for i in 0..8 {
        let proof = tree.inclusion_proof(i).expect("proof should exist");
        proof.verify_self().expect("proof should be valid");
    }
}

#[test]
fn test_proof_verify_against_root() {
    let txids = make_txids(4);
    let tree = MerkleTree::build(&txids);
    let root = tree.root();
    let proof = tree.inclusion_proof(2).unwrap();
    proof.verify(&root).expect("proof should be valid");
}

#[test]
fn test_proof_invalid_root_fails() {
    let txids = make_txids(4);
    let tree = MerkleTree::build(&txids);
    let proof = tree.inclusion_proof(0).unwrap();
    let bad_root = [0xffu8; 32];
    assert!(proof.verify(&bad_root).is_err());
}

#[test]
fn test_empty_tree() {
    let tree = MerkleTree::build(&[]);
    assert_eq!(tree.root(), [0u8; 32]);
}

#[test]
fn test_large_tree() {
    let txids = make_txids(100);
    let tree = MerkleTree::build(&txids);
    let proof = tree.inclusion_proof(50).unwrap();
    proof
        .verify_self()
        .expect("proof for large tree should be valid");
}

#[test]
fn test_merkle_scratch_matches_tree_and_reuses_buffers() {
    let mut scratch = MerkleScratch::new();
    // Build over several sizes, including shrink-then-grow, to prove stale
    // level data is cleared and the root always matches MerkleTree.
    for n in [1usize, 5, 64, 3, 100, 7, 129] {
        let leaves = make_txids(n);
        let expected = MerkleTree::build(&leaves).root();
        let got = scratch.build(&leaves);
        assert_eq!(got, expected, "root mismatch at n={n}");
        for i in [0, n / 2, n - 1] {
            let p = scratch.inclusion_proof(i).unwrap();
            p.verify_self().expect("scratch proof valid");
            assert_eq!(p.root, expected);
        }
    }
    // Empty set.
    assert_eq!(scratch.build(&[]), [0u8; 32]);
}
