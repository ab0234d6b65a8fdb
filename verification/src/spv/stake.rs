//! Stake proofs: transactions, unspent outputs and the rules of the stake lottery.
use crate::bytes::append_slice;
use crate::bytes::copy_all;
use crate::bytes::le_digits;
use crate::bytes::le_value;
use crate::bytes::push_u32_le;
use crate::bytes::push_u64_le;
use crate::bytes::read_u32_le;
use crate::bytes::read_u64_le;
use crate::bytes::same_bytes;
use crate::crypto::sha256d;
use crate::crypto::sha256d_of;
use crate::spv::error::SpvError;
use crate::spv::error::SpvFault;
use crate::spv::merkle::climb;
use crate::spv::merkle::follow;
use crate::spv::merkle::steps;
use crate::spv::merkle::MerkleProof;
use crate::spv::merkle::ProofNode;
use crate::spv::merkle::Step;
use crate::text::hex_encode;
use crate::text::hex_text;
use vstd::prelude::*;
use vstd::string::*;
use vstd::utf8::encode_utf8;

verus! {

/// The smallest units of one coin.
pub const COIN: u64 = 100_000_000;

/// The least value that can be staked.
pub const MIN_STAKE_AMOUNT: u64 = 100_000_000;

/// The least age of a stake, in seconds.
pub const MIN_STAKE_AGE: u64 = 21_600;

/// The greatest age of a stake, in seconds.
pub const MAX_STAKE_AGE: u64 = 518_400;

/// All the coins that can exist.
pub const MAX_MONEY: u64 = 2_000_000_000_000_000;

// ---- unspent outputs ----

/// An unspent output as a light client sees it.
#[derive(Debug, Clone, PartialEq, Eq)]
pub struct SpvUtxo {
    /// The transaction that made it.
    pub txid: [u8; 32],
    /// Its position among the outputs.
    pub vout: u32,
    /// Its value.
    pub value: u64,
    /// The script that guards it.
    pub script_pubkey: Vec<u8>,
    /// The height of its block.
    pub height: u32,
    /// The time of its block.
    pub timestamp: u32,
}

/// A length as it stands before a script: in one, three, five or nine bytes.
pub open spec fn compact_size(n: nat) -> Seq<u8> {
    if n < 0xfd {
        seq![n as u8]
    } else if n <= 0xffff {
        seq![0xfdu8] + le_digits(n, 2)
    } else if n <= 0xffff_ffff {
        seq![0xfeu8] + le_digits(n, 4)
    } else {
        seq![0xffu8] + le_digits(n, 8)
    }
}

/// The bytes that an unspent output commits to.
pub open spec fn utxo_bytes(u: SpvUtxo) -> Seq<u8> {
    u.txid@ + le_digits(u.vout as nat, 4) + le_digits(u.value as nat, 8) + compact_size(
        u.script_pubkey@.len(),
    ) + u.script_pubkey@ + le_digits(u.height as nat, 4) + le_digits(u.timestamp as nat, 4)
}

fn push_compact_size(buf: &mut Vec<u8>, n: u64)
    ensures
        final(buf)@ == old(buf)@ + compact_size(n as nat),
{
    let ghost start = buf@;
    if n < 0xfd {
        buf.push(n as u8);
        assert(buf@ =~= start + compact_size(n as nat));
    } else if n <= 0xffff {
        buf.push(0xfd);
        buf.push((n % 256) as u8);
        buf.push((n / 256) as u8);
        proof {
            reveal_with_fuel(le_digits, 3);
            assert(n / 256 % 256 == n / 256);
        }
        assert(buf@ =~= start + compact_size(n as nat));
    } else if n <= 0xffff_ffff {
        buf.push(0xfe);
        push_u32_le(buf, n as u32);
        assert(buf@ =~= start + compact_size(n as nat));
    } else {
        buf.push(0xff);
        push_u64_le(buf, n);
        assert(buf@ =~= start + compact_size(n as nat));
    }
}

/// The hash of an unspent output as a leaf of the commitment tree.
pub fn hash_utxo(u: &SpvUtxo) -> (r: [u8; 32])
    ensures
        r@ == sha256d_of(utxo_bytes(*u)),
{
    let mut buf: Vec<u8> = Vec::new();
    append_slice(&mut buf, u.txid.as_slice());
    push_u32_le(&mut buf, u.vout);
    push_u64_le(&mut buf, u.value);
    push_compact_size(&mut buf, u.script_pubkey.len() as u64);
    append_slice(&mut buf, u.script_pubkey.as_slice());
    push_u32_le(&mut buf, u.height);
    push_u32_le(&mut buf, u.timestamp);
    assert(buf@ =~= utxo_bytes(*u));
    sha256d(buf.as_slice())
}

/// A proof that a leaf is under a commitment.
#[derive(Debug, Clone, PartialEq, Eq)]
pub struct UtxoInclusionProof {
    /// The position of the leaf.
    pub leaf_index: usize,
    /// The siblings on the way up.
    pub siblings: Vec<ProofNode>,
    /// The root that the proof is for.
    pub root: [u8; 32],
}

/// What checking a leaf against a commitment gives.
pub open spec fn inclusion_of(
    root: Seq<u8>,
    path: Seq<Step>,
    expected: Seq<u8>,
    leaf: Seq<u8>,
) -> Result<(), SpvFault> {
    if root != expected {
        Err(
            SpvFault::InvalidMerkleProof(
                "utxo root mismatch expected "@ + hex_text(expected) + " got "@ + hex_text(root),
            ),
        )
    } else if climb(leaf, path) != expected {
        Err(
            SpvFault::InvalidMerkleProof(
                "computed "@ + hex_text(climb(leaf, path)) + " != expected "@ + hex_text(expected),
            ),
        )
    } else {
        Ok(())
    }
}

impl UtxoInclusionProof {
    /// Accepts the proof exactly when it is for `expected_root` and leads there from `leaf`.
    pub fn verify(&self, expected_root: &[u8; 32], leaf: &[u8; 32]) -> (r: Result<(), SpvError>)
        ensures
            match inclusion_of(self.root@, steps(self.siblings@), expected_root@, leaf@) {
                Ok(_) => r is Ok,
                Err(f) => r matches Err(e) && e@ == f,
            },
    {
        if !same_bytes(self.root.as_slice(), expected_root.as_slice()) {
            let mut m: String = "utxo root mismatch expected ".to_owned();
            m.append(hex_encode(expected_root.as_slice()).as_str());
            m.append(" got ");
            m.append(hex_encode(self.root.as_slice()).as_str());
            return Err(SpvError::InvalidMerkleProof(m));
        }
        let reached: [u8; 32] = follow(leaf, &self.siblings);
        if !same_bytes(reached.as_slice(), expected_root.as_slice()) {
            let mut m: String = "computed ".to_owned();
            m.append(hex_encode(reached.as_slice()).as_str());
            m.append(" != expected ");
            m.append(hex_encode(expected_root.as_slice()).as_str());
            return Err(SpvError::InvalidMerkleProof(m));
        }
        Ok(())
    }
}

// ---- transactions ----

/// What a transaction is for.
#[derive(Debug, Clone, Copy, PartialEq, Eq, Structural)]
pub enum TxType {
    /// An ordinary payment.
    Standard,
    /// The reward of a mined block.
    Coinbase,
    /// The stake of a minted block.
    Coinstake,
    /// A claim of a balance of the former chain.
    LegacyClaim,
    /// A swap with another chain.
    AtomicSwap,
    /// A payment for shared data.
    TorrentIncentive,
}

/// The number that stands for a type.
pub open spec fn type_number(t: TxType) -> nat {
    match t {
        TxType::Standard => 0,
        TxType::Coinbase => 1,
        TxType::Coinstake => 2,
        TxType::LegacyClaim => 3,
        TxType::AtomicSwap => 4,
        TxType::TorrentIncentive => 5,
    }
}

fn number_of_type(t: TxType) -> (n: u32)
    ensures
        n == type_number(t),
{
    match t {
        TxType::Standard => 0,
        TxType::Coinbase => 1,
        TxType::Coinstake => 2,
        TxType::LegacyClaim => 3,
        TxType::AtomicSwap => 4,
        TxType::TorrentIncentive => 5,
    }
}

/// What a transaction spends.
#[derive(Debug, Clone, PartialEq, Eq)]
pub struct TxInput {
    /// The transaction that made the output.
    pub prev_txid: [u8; 32],
    /// The position of the output.
    pub prev_vout: u32,
    /// The script that unlocks it.
    pub script_sig: Vec<u8>,
    /// The sequence number.
    pub sequence: u32,
}

/// What a transaction makes.
#[derive(Debug, Clone, PartialEq, Eq)]
pub struct TxOutput {
    /// Its value.
    pub value: u64,
    /// The script that guards it.
    pub script_pubkey: Vec<u8>,
}

/// A transaction.
#[derive(Debug, Clone, PartialEq, Eq)]
pub struct Transaction {
    /// The format version.
    pub version: u32,
    /// What it is for.
    pub tx_type: TxType,
    /// What it spends.
    pub inputs: Vec<TxInput>,
    /// What it makes.
    pub outputs: Vec<TxOutput>,
    /// The height or time from which on it counts.
    pub lock_time: u32,
    /// The address whose balance is claimed.
    pub claim_address: Option<String>,
    /// The signature for the claim.
    pub claim_signature: Option<Vec<u8>>,
}

/// A `TxInput` over sequences.
#[verifier::ext_equal]
pub struct Input {
    pub prev_txid: Seq<u8>,
    pub prev_vout: u32,
    pub script_sig: Seq<u8>,
    pub sequence: u32,
}

/// A `TxOutput` over sequences.
#[verifier::ext_equal]
pub struct Output {
    pub value: u64,
    pub script_pubkey: Seq<u8>,
}

/// A `Transaction` over sequences.
#[verifier::ext_equal]
pub struct Tx {
    pub version: u32,
    pub tx_type: TxType,
    pub inputs: Seq<Input>,
    pub outputs: Seq<Output>,
    pub lock_time: u32,
    pub claim_address: Option<Seq<char>>,
    pub claim_signature: Option<Seq<u8>>,
}

impl View for TxInput {
    type V = Input;

    open spec fn view(&self) -> Input {
        Input {
            prev_txid: self.prev_txid@,
            prev_vout: self.prev_vout,
            script_sig: self.script_sig@,
            sequence: self.sequence,
        }
    }
}

impl View for TxOutput {
    type V = Output;

    open spec fn view(&self) -> Output {
        Output { value: self.value, script_pubkey: self.script_pubkey@ }
    }
}

impl View for Transaction {
    type V = Tx;

    open spec fn view(&self) -> Tx {
        Tx {
            version: self.version,
            tx_type: self.tx_type,
            inputs: self.inputs@.map_values(|i: TxInput| i@),
            outputs: self.outputs@.map_values(|o: TxOutput| o@),
            lock_time: self.lock_time,
            claim_address: match self.claim_address {
                Some(a) => Some(a@),
                None => None,
            },
            claim_signature: match self.claim_signature {
                Some(s) => Some(s@),
                None => None,
            },
        }
    }
}

/// A byte string after its length.
pub open spec fn sized(b: Seq<u8>) -> Seq<u8> {
    le_digits(b.len(), 8) + b
}

/// A byte string that may be absent.
pub open spec fn optional(b: Option<Seq<u8>>) -> Seq<u8> {
    match b {
        None => seq![0u8],
        Some(s) => seq![1u8] + sized(s),
    }
}

/// The bytes of an input.
pub open spec fn input_bytes(i: Input) -> Seq<u8> {
    i.prev_txid + le_digits(i.prev_vout as nat, 4) + sized(i.script_sig) + le_digits(
        i.sequence as nat,
        4,
    )
}

/// The bytes of an output.
pub open spec fn output_bytes(o: Output) -> Seq<u8> {
    le_digits(o.value as nat, 8) + sized(o.script_pubkey)
}

/// The bytes of inputs one after the other.
pub open spec fn inputs_bytes(s: Seq<Input>) -> Seq<u8>
    decreases s.len(),
{
    if s.len() == 0 {
        Seq::empty()
    } else {
        inputs_bytes(s.drop_last()) + input_bytes(s.last())
    }
}

/// The bytes of outputs one after the other.
pub open spec fn outputs_bytes(s: Seq<Output>) -> Seq<u8>
    decreases s.len(),
{
    if s.len() == 0 {
        Seq::empty()
    } else {
        outputs_bytes(s.drop_last()) + output_bytes(s.last())
    }
}

/// The bytes of a transaction.
pub open spec fn tx_bytes(t: Tx) -> Seq<u8> {
    le_digits(t.version as nat, 4) + le_digits(type_number(t.tx_type), 4) + le_digits(
        t.inputs.len(),
        8,
    ) + inputs_bytes(t.inputs) + le_digits(t.outputs.len(), 8) + outputs_bytes(t.outputs)
        + le_digits(t.lock_time as nat, 4) + optional(
        match t.claim_address {
            Some(a) => Some(encode_utf8(a)),
            None => None,
        },
    ) + optional(t.claim_signature)
}

/// The hash that identifies a transaction.
pub open spec fn txid_of(t: Tx) -> Seq<u8> {
    sha256d_of(tx_bytes(t))
}

/// An input as a tuple of plain values.
pub open spec fn plain_input(i: ([u8; 32], u32, Vec<u8>, u32)) -> Input {
    Input { prev_txid: i.0@, prev_vout: i.1, script_sig: i.2@, sequence: i.3 }
}

/// An output as a tuple of plain values.
pub open spec fn plain_output(o: (u64, Vec<u8>)) -> Output {
    Output { value: o.0, script_pubkey: o.1@ }
}

/// `bincode::serialize` on a tuple, with its default options: integers in little-endian, a length
/// of eight bytes before the items of a vector and before the bytes of a text, one byte that says
/// whether an optional value is there, and the parts of a tuple or an array one after the other.
#[verifier::external_body]
pub(crate) fn bincode_parts(
    head: (u32, u32),
    inputs: &Vec<([u8; 32], u32, Vec<u8>, u32)>,
    outputs: &Vec<(u64, Vec<u8>)>,
    tail: (u32, &Option<String>, &Option<Vec<u8>>),
) -> (r: Vec<u8>)
    ensures
        r@ == le_digits(head.0 as nat, 4) + le_digits(head.1 as nat, 4) + le_digits(
            inputs@.len(),
            8,
        ) + inputs_bytes(
            inputs@.map_values(|i: ([u8; 32], u32, Vec<u8>, u32)| plain_input(i)),
        ) + le_digits(outputs@.len(), 8) + outputs_bytes(
            outputs@.map_values(|o: (u64, Vec<u8>)| plain_output(o)),
        ) + le_digits(tail.0 as nat, 4) + optional(
            match *tail.1 {
                Some(a) => Some(encode_utf8(a@)),
                None => None,
            },
        ) + optional(
            match *tail.2 {
                Some(s) => Some(s@),
                None => None,
            },
        ),
{
    bincode::serialize(&(head, inputs, outputs, tail)).unwrap_or_default()
}

/// A transaction as the signature of its input `index` sees it: that input holds `subscript`, the
/// others hold nothing.
pub open spec fn signing_form(t: Tx, index: int, subscript: Seq<u8>) -> Tx {
    Tx {
        inputs: Seq::new(
            t.inputs.len(),
            |i: int|
                Input {
                    script_sig: if i == index {
                        subscript
                    } else {
                        Seq::empty()
                    },
                    ..t.inputs[i]
                },
        ),
        ..t
    }
}

/// The hash that the signature of input `index` is over.
pub open spec fn sighash_of(t: Tx, index: int, subscript: Seq<u8>) -> Seq<u8> {
    sha256d_of(tx_bytes(signing_form(t, index, subscript)) + le_digits(1, 4))
}

fn push_sized(buf: &mut Vec<u8>, b: &[u8])
    ensures
        final(buf)@ == old(buf)@ + sized(b@),
{
    push_u64_le(buf, b.len() as u64);
    append_slice(buf, b);
    assert(buf@ =~= old(buf)@ + sized(b@));
}

/// The sum of the values, at most the largest 64-bit number.
pub open spec fn capped_total(s: Seq<Output>) -> nat
    decreases s.len(),
{
    if s.len() == 0 {
        0
    } else {
        let sum = capped_total(s.drop_last()) + s.last().value;
        if sum > u64::MAX {
            u64::MAX as nat
        } else {
            sum as nat
        }
    }
}

impl Transaction {
    fn plain_inputs(&self) -> (r: Vec<([u8; 32], u32, Vec<u8>, u32)>)
        ensures
            r@.map_values(|i: ([u8; 32], u32, Vec<u8>, u32)| plain_input(i)) == self@.inputs,
    {
        let mut r: Vec<([u8; 32], u32, Vec<u8>, u32)> = Vec::new();
        let mut i: usize = 0;
        while i < self.inputs.len()
            invariant
                i <= self.inputs@.len(),
                r@.len() == i,
                forall|k: int| 0 <= k < i ==> plain_input(#[trigger] r@[k]) == self@.inputs[k],
            decreases self.inputs@.len() - i,
        {
            let x: &TxInput = &self.inputs[i];
            r.push((x.prev_txid, x.prev_vout, copy_all(x.script_sig.as_slice()), x.sequence));
            i = i + 1;
        }
        assert(r@.map_values(|i: ([u8; 32], u32, Vec<u8>, u32)| plain_input(i)) =~= self@.inputs);
        r
    }

    fn plain_outputs(&self) -> (r: Vec<(u64, Vec<u8>)>)
        ensures
            r@.map_values(|o: (u64, Vec<u8>)| plain_output(o)) == self@.outputs,
    {
        let mut r: Vec<(u64, Vec<u8>)> = Vec::new();
        let mut i: usize = 0;
        while i < self.outputs.len()
            invariant
                i <= self.outputs@.len(),
                r@.len() == i,
                forall|k: int| 0 <= k < i ==> plain_output(#[trigger] r@[k]) == self@.outputs[k],
            decreases self.outputs@.len() - i,
        {
            let x: &TxOutput = &self.outputs[i];
            r.push((x.value, copy_all(x.script_pubkey.as_slice())));
            i = i + 1;
        }
        assert(r@.map_values(|o: (u64, Vec<u8>)| plain_output(o)) =~= self@.outputs);
        r
    }

    /// The hash that identifies the transaction.
    pub fn txid(&self) -> (r: [u8; 32])
        ensures
            r@ == txid_of(self@),
    {
        let inputs: Vec<([u8; 32], u32, Vec<u8>, u32)> = self.plain_inputs();
        let outputs: Vec<(u64, Vec<u8>)> = self.plain_outputs();
        let bytes: Vec<u8> = bincode_parts(
            (self.version, number_of_type(self.tx_type)),
            &inputs,
            &outputs,
            (self.lock_time, &self.claim_address, &self.claim_signature),
        );
        proof {
            assert(inputs@.len() == self@.inputs.len()) by {
                assert(inputs@.map_values(
                    |i: ([u8; 32], u32, Vec<u8>, u32)| plain_input(i),
                ).len() == inputs@.len());
            }
            assert(outputs@.len() == self@.outputs.len()) by {
                assert(outputs@.map_values(|o: (u64, Vec<u8>)| plain_output(o)).len()
                    == outputs@.len());
            }
            assert(bytes@ == tx_bytes(self@));
        }
        sha256d(bytes.as_slice())
    }

    /// The hash that the signature of input `input_index` is over.
    pub fn sighash(&self, input_index: usize, subscript: &[u8]) -> (r: [u8; 32])
        requires
            input_index < self.inputs@.len(),
        ensures
            r@ == sighash_of(self@, input_index as int, subscript@),
    {
        let ghost form = signing_form(self@, input_index as int, subscript@);
        let mut buf: Vec<u8> = Vec::new();
        push_u32_le(&mut buf, self.version);
        push_u32_le(&mut buf, number_of_type(self.tx_type));
        push_u64_le(&mut buf, self.inputs.len() as u64);
        let ghost head = buf@;
        let mut i: usize = 0;
        assert(form.inputs.take(0) =~= Seq::<Input>::empty());
        assert(head + inputs_bytes(form.inputs.take(0)) =~= head);
        while i < self.inputs.len()
            invariant
                i <= self.inputs@.len(),
                form == signing_form(self@, input_index as int, subscript@),
                buf@ == head + inputs_bytes(form.inputs.take(i as int)),
            decreases self.inputs@.len() - i,
        {
            let x: &TxInput = &self.inputs[i];
            append_slice(&mut buf, x.prev_txid.as_slice());
            push_u32_le(&mut buf, x.prev_vout);
            if i == input_index {
                push_sized(&mut buf, subscript);
            } else {
                push_u64_le(&mut buf, 0);
            }
            push_u32_le(&mut buf, x.sequence);
            i = i + 1;
            proof {
                let t = form.inputs.take(i as int);
                assert(t.drop_last() =~= form.inputs.take(i - 1));
                assert(t.last() == form.inputs[i - 1]);
                assert(sized(Seq::<u8>::empty()) =~= le_digits(0, 8));
                assert(buf@ =~= head + inputs_bytes(form.inputs.take(i - 1)) + input_bytes(
                    form.inputs[i - 1],
                ));
                assert(buf@ =~= head + inputs_bytes(t));
            }
        }
        assert(form.inputs.take(i as int) =~= form.inputs);
        push_u64_le(&mut buf, self.outputs.len() as u64);
        let ghost head2 = buf@;
        let mut k: usize = 0;
        assert(form.outputs.take(0) =~= Seq::<Output>::empty());
        assert(head2 + outputs_bytes(form.outputs.take(0)) =~= head2);
        while k < self.outputs.len()
            invariant
                k <= self.outputs@.len(),
                form.outputs == self@.outputs,
                buf@ == head2 + outputs_bytes(form.outputs.take(k as int)),
            decreases self.outputs@.len() - k,
        {
            push_u64_le(&mut buf, self.outputs[k].value);
            push_sized(&mut buf, self.outputs[k].script_pubkey.as_slice());
            k = k + 1;
            proof {
                let t = form.outputs.take(k as int);
                assert(t.drop_last() =~= form.outputs.take(k - 1));
                assert(t.last() == form.outputs[k - 1]);
                assert(buf@ =~= head2 + outputs_bytes(t));
            }
        }
        assert(form.outputs.take(k as int) =~= form.outputs);
        push_u32_le(&mut buf, self.lock_time);
        let ghost head3 = buf@;
        match &self.claim_address {
            None => {
                buf.push(0);
            },
            Some(a) => {
                buf.push(1);
                push_sized(&mut buf, a.as_str().as_bytes());
            },
        }
        match &self.claim_signature {
            None => {
                buf.push(0);
            },
            Some(s) => {
                buf.push(1);
                push_sized(&mut buf, s.as_slice());
            },
        }
        proof {
            let a = optional(
                match form.claim_address {
                    Some(a) => Some(encode_utf8(a)),
                    None => None,
                },
            );
            assert(buf@ =~= head3 + a + optional(form.claim_signature));
            assert(buf@ =~= tx_bytes(form));
        }
        push_u32_le(&mut buf, 1);
        sha256d(buf.as_slice())
    }

    /// Whether this is the reward of a mined block.
    pub fn is_coinbase(&self) -> (r: bool)
        ensures
            r == (self.tx_type == TxType::Coinbase),
    {
        self.tx_type == TxType::Coinbase
    }

    /// Whether this is the stake of a minted block.
    pub fn is_coinstake(&self) -> (r: bool)
        ensures
            r == (self.tx_type == TxType::Coinstake),
    {
        self.tx_type == TxType::Coinstake
    }

    /// Whether this claims a balance of the former chain.
    pub fn is_legacy_claim(&self) -> (r: bool)
        ensures
            r == (self.tx_type == TxType::LegacyClaim),
    {
        self.tx_type == TxType::LegacyClaim
    }

    /// The sum of the outputs, at most the largest 64-bit number.
    pub fn total_output(&self) -> (r: u64)
        ensures
            r == capped_total(self@.outputs),
    {
        let mut total: u64 = 0;
        let mut i: usize = 0;
        assert(self@.outputs.take(0) =~= Seq::<Output>::empty());
        while i < self.outputs.len()
            invariant
                i <= self.outputs@.len(),
                total == capped_total(self@.outputs.take(i as int)),
            decreases self.outputs@.len() - i,
        {
            total = total.saturating_add(self.outputs[i].value);
            i = i + 1;
            assert(self@.outputs.take(i as int).drop_last() =~= self@.outputs.take(i - 1));
        }
        assert(self@.outputs.take(i as int) =~= self@.outputs);
        total
    }
}

/// A proof that the stake of a minted block is valid.
#[derive(Debug, Clone, PartialEq, Eq)]
pub struct StakeProof {
    /// The transaction that spends the stake.
    pub coinstake: Transaction,
    /// That the transaction is in the block.
    pub tx_merkle_proof: MerkleProof,
    /// The output that is staked.
    pub utxo: SpvUtxo,
    /// That the output was unspent before the block.
    pub utxo_proof: UtxoInclusionProof,
    /// The stake modifier of the block before.
    pub prev_stake_modifier: u64,
}

// ---- the stake lottery ----

/// The stake modifier that follows a modifier and a block.
pub open spec fn next_modifier(modifier: u64, block_hash: Seq<u8>) -> u64 {
    le_value(sha256d_of(le_digits(modifier as nat, 8) + block_hash).take(8)) as u64
}

/// The stake modifier that follows a modifier and a block.
pub fn compute_stake_modifier(prev_stake_modifier: u64, prev_block_hash: &[u8; 32]) -> (r: u64)
    ensures
        r == next_modifier(prev_stake_modifier, prev_block_hash@),
{
    let mut buf: Vec<u8> = Vec::new();
    push_u64_le(&mut buf, prev_stake_modifier);
    append_slice(&mut buf, prev_block_hash.as_slice());
    assert(buf@ =~= le_digits(prev_stake_modifier as nat, 8) + prev_block_hash@);
    let digest: [u8; 32] = sha256d(buf.as_slice());
    assert(digest@.subrange(0, 8) =~= digest@.take(8));
    read_u64_le(digest.as_slice(), 0)
}

/// The hash of a stake at a time.
pub open spec fn kernel_of(modifier: u64, txid: Seq<u8>, vout: u32, timestamp: u32) -> Seq<u8> {
    sha256d_of(
        le_digits(modifier as nat, 8) + txid + le_digits(vout as nat, 4) + le_digits(
            timestamp as nat,
            4,
        ),
    )
}

/// Whether a stake wins at a time: the first four bytes of its hash are at most a thousandth of
/// its value.
pub open spec fn kernel_wins(
    modifier: u64,
    value: u64,
    txid: Seq<u8>,
    vout: u32,
    timestamp: u32,
) -> bool {
    le_value(kernel_of(modifier, txid, vout, timestamp).take(4)) <= value as nat / 1000
}

/// The hash of a stake at a time.
pub fn stake_kernel_hash(stake_modifier: u64, txid: &[u8; 32], vout: u32, timestamp: u32) -> (r: [u8;
    32])
    ensures
        r@ == kernel_of(stake_modifier, txid@, vout, timestamp),
{
    let mut buf: Vec<u8> = Vec::new();
    push_u64_le(&mut buf, stake_modifier);
    append_slice(&mut buf, txid.as_slice());
    push_u32_le(&mut buf, vout);
    push_u32_le(&mut buf, timestamp);
    assert(buf@ =~= le_digits(stake_modifier as nat, 8) + txid@ + le_digits(vout as nat, 4)
        + le_digits(timestamp as nat, 4));
    sha256d(buf.as_slice())
}

/// Whether a stake of this value wins at a time.
pub fn check_stake_kernel(
    stake_modifier: u64,
    value: u64,
    txid: &[u8; 32],
    vout: u32,
    timestamp: u32,
) -> (r: bool)
    ensures
        r == kernel_wins(stake_modifier, value, txid@, vout, timestamp),
{
    let hash: [u8; 32] = stake_kernel_hash(stake_modifier, txid, vout, timestamp);
    assert(hash@.subrange(0, 4) =~= hash@.take(4));
    let drawn: u32 = read_u32_le(hash.as_slice(), 0);
    let share: u64 = value / 1000;
    let target: u32 = if share > u32::MAX as u64 {
        u32::MAX
    } else {
        share as u32
    };
    drawn <= target
}

/// Whether an unspent output wins at a time.
pub fn check_stake_kernel_for_utxo(stake_modifier: u64, utxo: &SpvUtxo, timestamp: u32) -> (r: bool)
    ensures
        r == kernel_wins(stake_modifier, utxo.value, utxo.txid@, utxo.vout, timestamp),
{
    check_stake_kernel(stake_modifier, utxo.value, &utxo.txid, utxo.vout, timestamp)
}

/// The reward of a stake: five in a hundred for a year, by the second, for no more than the
/// greatest age.
pub open spec fn reward_of(amount: u64, age: u64) -> nat {
    let counted = if age > MAX_STAKE_AGE {
        MAX_STAKE_AGE
    } else {
        age
    };
    (amount as nat * counted as nat * 5) / 3_153_600_000
}

/// The reward of a stake of this amount and age in seconds.
pub fn compute_pos_reward(stake_amount: u64, coin_age_seconds: u64) -> (r: u64)
    ensures
        r == reward_of(stake_amount, coin_age_seconds),
{
    let counted: u64 = if coin_age_seconds > MAX_STAKE_AGE {
        MAX_STAKE_AGE
    } else {
        coin_age_seconds
    };
    assert(stake_amount * counted <= 0xffff_ffff_ffff_ffff * 518_400) by (nonlinear_arith)
        requires
            stake_amount <= 0xffff_ffff_ffff_ffff,
            counted <= 518_400,
    ;
    let numerator: u128 = stake_amount as u128 * counted as u128 * 5;
    let denominator: u128 = 3_153_600_000;
    (numerator / denominator) as u64
}

/// No stake earns more by growing older than the greatest age, and none earns more than its
/// amount.
pub proof fn law_reward_is_bounded(amount: u64, age: u64)
    ensures
        reward_of(amount, age) <= reward_of(amount, MAX_STAKE_AGE),
        reward_of(amount, age) <= amount,
        age >= MAX_STAKE_AGE ==> reward_of(amount, age) == reward_of(amount, MAX_STAKE_AGE),
{
    let counted = if age > MAX_STAKE_AGE {
        MAX_STAKE_AGE
    } else {
        age
    };
    assert(amount * counted <= amount * 518_400) by (nonlinear_arith)
        requires
            counted <= 518_400,
    ;
}

/// A stake earns five in a hundred for a year of 365 days, by the second and rounded down, for the
/// first six days of its age.
pub proof fn law_reward_is_five_in_a_hundred_a_year(amount: u64, age: u64)
    ensures
        age <= 6 * 86_400 ==> 100 * 365 * 86_400 * reward_of(amount, age) <= 5 * (amount * age)
            && 5 * (amount * age) < 100 * 365 * 86_400 * (reward_of(amount, age) + 1),
        age > 6 * 86_400 ==> reward_of(amount, age) == reward_of(amount, 518_400),
        100 * 365 * 86_400 * reward_of(amount, age) <= 5 * (amount * age),
{
    let counted = if age > 518_400 {
        518_400u64
    } else {
        age
    };
    assert(amount * counted <= amount * age) by (nonlinear_arith)
        requires
            counted <= age,
    ;
    let earned = amount as nat * counted as nat;
    assert(earned == amount * counted);
    let r = reward_of(amount, age);
    assert(r == earned * 5 / 3_153_600_000);
    assert(3_153_600_000 * r <= 5 * earned < 3_153_600_000 * (r + 1));
    assert(100 * 365 * 86_400 * r == 3_153_600_000 * r) by (nonlinear_arith);
    assert(100 * 365 * 86_400 * (r + 1) == 3_153_600_000 * (r + 1)) by (nonlinear_arith);
}

/// What is signed does not depend on the scripts that hold the signatures.
pub proof fn law_sighash_ignores_signatures(t: Tx, u: Tx, index: int, subscript: Seq<u8>)
    requires
        signing_form(t, -1, Seq::empty()) == signing_form(u, -1, Seq::empty()),
    ensures
        sighash_of(t, index, subscript) == sighash_of(u, index, subscript),
{
    let a = signing_form(t, -1, Seq::empty());
    let b = signing_form(u, -1, Seq::empty());
    assert(t.inputs.len() == a.inputs.len() && u.inputs.len() == b.inputs.len());
    assert forall|i: int| 0 <= i < t.inputs.len() implies #[trigger] signing_form(
        t,
        index,
        subscript,
    ).inputs[i] == signing_form(u, index, subscript).inputs[i] by {
        assert(a.inputs[i] == b.inputs[i]);
    }
    assert(signing_form(t, index, subscript).inputs =~= signing_form(u, index, subscript).inputs);
    assert(signing_form(t, index, subscript) == signing_form(u, index, subscript));
}

} // verus!
