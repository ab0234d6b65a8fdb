//! The tables of the store, and the changes that are made to them in one transaction.
use crate::text::decimal;
use crate::text::hex_encode;
use crate::text::hex_text;
use crate::text::push_decimal;
use vstd::prelude::*;
use vstd::string::*;

verus! {

/// The name of the entry that holds the height of the best block.
pub open spec fn best_height_key() -> Seq<char> {
    "best_height"@
}

/// The name of the entry that holds the hash of the best block.
pub open spec fn best_hash_key() -> Seq<char> {
    "best_hash"@
}

/// The name of the entry that holds the version of the store.
pub open spec fn protocol_key() -> Seq<char> {
    "protocol_version"@
}

/// What the tables hold.
#[verifier::ext_equal]
pub ghost struct Tables {
    /// Blocks by their hash in hexadecimal.
    pub blocks: Map<Seq<char>, Seq<u8>>,
    /// The hash of the block at each height of the main chain.
    pub heights: Map<u32, Seq<char>>,
    /// Unspent outputs by their key.
    pub utxos: Map<Seq<char>, Seq<u8>>,
    /// Claimed addresses.
    pub claimed: Set<Seq<char>>,
    /// Named texts.
    pub meta: Map<Seq<char>, Seq<char>>,
}

/// A change to a table.
#[derive(Debug, Clone)]
pub enum TableOp {
    /// Store a block under its hash.
    PutBlock { hash: String, bytes: Vec<u8> },
    /// Remove a block.
    RemoveBlock { hash: String },
    /// Note the block at a height.
    PutHeight { height: u32, hash: String },
    /// Remove a height.
    RemoveHeight { height: u32 },
    /// Store an unspent output.
    PutUtxo { key: String, bytes: Vec<u8> },
    /// Remove an unspent output.
    RemoveUtxo { key: String },
    /// Note that an address is claimed.
    PutClaimed { address: String },
    /// Note that an address is not claimed.
    RemoveClaimed { address: String },
    /// Store a named text.
    PutMeta { key: String, value: String },
}

/// A [`TableOp`] over sequences.
pub ghost enum Op {
    PutBlock { hash: Seq<char>, bytes: Seq<u8> },
    RemoveBlock { hash: Seq<char> },
    PutHeight { height: u32, hash: Seq<char> },
    RemoveHeight { height: u32 },
    PutUtxo { key: Seq<char>, bytes: Seq<u8> },
    RemoveUtxo { key: Seq<char> },
    PutClaimed { address: Seq<char> },
    RemoveClaimed { address: Seq<char> },
    PutMeta { key: Seq<char>, value: Seq<char> },
}

impl View for TableOp {
    type V = Op;

    open spec fn view(&self) -> Op {
        match self {
            TableOp::PutBlock { hash, bytes } => Op::PutBlock { hash: hash@, bytes: bytes@ },
            TableOp::RemoveBlock { hash } => Op::RemoveBlock { hash: hash@ },
            TableOp::PutHeight { height, hash } => Op::PutHeight { height: *height, hash: hash@ },
            TableOp::RemoveHeight { height } => Op::RemoveHeight { height: *height },
            TableOp::PutUtxo { key, bytes } => Op::PutUtxo { key: key@, bytes: bytes@ },
            TableOp::RemoveUtxo { key } => Op::RemoveUtxo { key: key@ },
            TableOp::PutClaimed { address } => Op::PutClaimed { address: address@ },
            TableOp::RemoveClaimed { address } => Op::RemoveClaimed { address: address@ },
            TableOp::PutMeta { key, value } => Op::PutMeta { key: key@, value: value@ },
        }
    }
}

/// The tables after a change.
pub open spec fn after_op(t: Tables, op: Op) -> Tables {
    match op {
        Op::PutBlock { hash, bytes } => Tables { blocks: t.blocks.insert(hash, bytes), ..t },
        Op::RemoveBlock { hash } => Tables { blocks: t.blocks.remove(hash), ..t },
        Op::PutHeight { height, hash } => Tables { heights: t.heights.insert(height, hash), ..t },
        Op::RemoveHeight { height } => Tables { heights: t.heights.remove(height), ..t },
        Op::PutUtxo { key, bytes } => Tables { utxos: t.utxos.insert(key, bytes), ..t },
        Op::RemoveUtxo { key } => Tables { utxos: t.utxos.remove(key), ..t },
        Op::PutClaimed { address } => Tables { claimed: t.claimed.insert(address), ..t },
        Op::RemoveClaimed { address } => Tables { claimed: t.claimed.remove(address), ..t },
        Op::PutMeta { key, value } => Tables { meta: t.meta.insert(key, value), ..t },
    }
}

/// The changes as they read.
pub open spec fn op_views(s: Seq<TableOp>) -> Seq<Op> {
    s.map_values(|o: TableOp| o@)
}

/// The tables after changes, one after the other.
pub open spec fn after_ops(t: Tables, ops: Seq<Op>) -> Tables
    decreases ops.len(),
{
    if ops.len() == 0 {
        t
    } else {
        after_op(after_ops(t, ops.drop_last()), ops.last())
    }
}

/// One more change.
pub proof fn lemma_one_more(t: Tables, ops: Seq<TableOp>, op: TableOp)
    ensures
        after_ops(t, op_views(ops.push(op))) == after_op(after_ops(t, op_views(ops)), op@),
{
    assert(op_views(ops.push(op)).drop_last() =~= op_views(ops));
}

/// The key of an output: the identifier of its transaction and its position.
pub open spec fn utxo_key_text(txid: Seq<u8>, vout: u32) -> Seq<char> {
    hex_text(txid) + ":"@ + decimal(vout as nat)
}

/// The key of an output.
pub fn utxo_key(txid: &[u8; 32], vout: u32) -> (r: String)
    ensures
        r@ == utxo_key_text(txid@, vout),
{
    let mut s: String = hex_encode(txid.as_slice());
    s.append(":");
    push_decimal(&mut s, vout as u64);
    s
}

/// Outputs with different keys are different outputs, and each output has a key of its own.
pub proof fn law_outputs_have_their_own_keys(a: Seq<u8>, i: u32, b: Seq<u8>, j: u32)
    requires
        a.len() == 32,
        b.len() == 32,
    ensures
        utxo_key_text(a, i) == utxo_key_text(b, j) <==> a == b && i == j,
{
    let x = utxo_key_text(a, i);
    let y = utxo_key_text(b, j);
    if x == y {
        reveal_strlit(":");
        assert(hex_text(a) =~= x.take(64));
        assert(hex_text(b) =~= y.take(64));
        crate::text::law_hex_roundtrip(a);
        crate::text::law_hex_roundtrip(b);
        assert(decimal(i as nat) =~= x.skip(65));
        assert(decimal(j as nat) =~= y.skip(65));
        crate::text::law_decimal_roundtrip(i as nat);
        crate::text::law_decimal_roundtrip(j as nat);
    }
}

} // verus!
