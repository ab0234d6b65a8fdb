//! The standard output scripts: builders and a classifier.
use crate::bytes::le_digits;
use crate::bytes::lemma_le_digits_len;
use crate::bytes::push_u32_le;
use crate::script::engine::views;
use crate::script::error::ScriptError;
use crate::script::program::push_bytes;
use crate::script::program::push_int_bytes;
use crate::script::program::Script;
use crate::script::program::MAX_PUSH_SIZE;
use vstd::prelude::*;

verus! {

/// The most keys of a multisignature output.
pub const MAX_MULTISIG_KEYS: usize = 15;

/// The most bytes that a data output carries.
pub const MAX_OP_RETURN_SIZE: usize = 80;

/// The form of an output script.
#[derive(Debug, Clone, Copy, PartialEq, Eq, Structural)]
pub enum ScriptType {
    /// `OP_DUP OP_HASH160 <20 bytes> OP_EQUALVERIFY OP_CHECKSIG`
    P2PKH,
    /// `<33 or 65 bytes> OP_CHECKSIG`
    P2PK,
    /// `OP_HASH160 <20 bytes> OP_EQUAL`
    P2SH,
    /// `OP_m <key> ... <key> OP_n OP_CHECKMULTISIG`
    P2MS { m: u8, n: u8 },
    /// A hash time-locked contract.
    Htlc,
    /// A data output, which cannot be spent.
    OpReturn,
    /// Anything else.
    NonStandard,
}

pub open spec fn p2pkh_form(b: Seq<u8>) -> bool {
    b.len() == 25 && b[0] == 0x76 && b[1] == 0xa9 && b[2] == 0x14 && b[23] == 0x88 && b[24] == 0xac
}

pub open spec fn p2sh_form(b: Seq<u8>) -> bool {
    b.len() == 23 && b[0] == 0xa9 && b[1] == 0x14 && b[22] == 0x87
}

pub open spec fn p2pk_form(b: Seq<u8>) -> bool {
    (b.len() == 35 && b[0] == 33 && b[34] == 0xac) || (b.len() == 67 && b[0] == 65 && b[66] == 0xac)
}

pub open spec fn p2ms_form(b: Seq<u8>) -> bool {
    b.len() >= 3 && 0x51 <= b[0] <= b[b.len() - 2] <= 0x60 && b[b.len() - 1] == 0xae
}

pub open spec fn htlc_form(b: Seq<u8>) -> bool {
    b.len() > 5 && b[0] == 0x63 && b[1] == 0xa8
}

/// The form of an output script; the first that fits, in this order.
pub open spec fn script_type(b: Seq<u8>) -> ScriptType {
    if p2pkh_form(b) {
        ScriptType::P2PKH
    } else if p2sh_form(b) {
        ScriptType::P2SH
    } else if p2pk_form(b) {
        ScriptType::P2PK
    } else if b.len() > 0 && b[0] == 0x6a {
        ScriptType::OpReturn
    } else if p2ms_form(b) {
        ScriptType::P2MS { m: (b[0] - 0x50) as u8, n: (b[b.len() - 2] - 0x50) as u8 }
    } else if htlc_form(b) {
        ScriptType::Htlc
    } else {
        ScriptType::NonStandard
    }
}

/// The form of an output script.
pub fn classify_script(script: &Script) -> (r: ScriptType)
    ensures
        r == script_type(script@),
{
    let b: &[u8] = script.as_bytes();
    let len: usize = b.len();
    if len == 25 && b[0] == 0x76 && b[1] == 0xa9 && b[2] == 0x14 && b[23] == 0x88 && b[24] == 0xac {
        return ScriptType::P2PKH;
    }
    if len == 23 && b[0] == 0xa9 && b[1] == 0x14 && b[22] == 0x87 {
        return ScriptType::P2SH;
    }
    if (len == 35 && b[0] == 33 && b[34] == 0xac) || (len == 67 && b[0] == 65 && b[66] == 0xac) {
        return ScriptType::P2PK;
    }
    if len > 0 && b[0] == 0x6a {
        return ScriptType::OpReturn;
    }
    if len >= 3 && 0x51 <= b[0] && b[0] <= b[len - 2] && b[len - 2] <= 0x60 && b[len - 1] == 0xae {
        return ScriptType::P2MS { m: b[0] - 0x50, n: b[len - 2] - 0x50 };
    }
    if len > 5 && b[0] == 0x63 && b[1] == 0xa8 {
        return ScriptType::Htlc;
    }
    ScriptType::NonStandard
}

/// `OP_DUP OP_HASH160 <hash> OP_EQUALVERIFY OP_CHECKSIG`
pub open spec fn p2pkh_script(hash: Seq<u8>) -> Seq<u8> {
    seq![0x76u8, 0xa9u8] + push_bytes(hash) + seq![0x88u8, 0xacu8]
}

/// `OP_HASH160 <hash> OP_EQUAL`
pub open spec fn p2sh_script(hash: Seq<u8>) -> Seq<u8> {
    seq![0xa9u8] + push_bytes(hash) + seq![0x87u8]
}

/// The pushes of these keys, one after the other.
pub open spec fn key_pushes(keys: Seq<Seq<u8>>) -> Seq<u8>
    decreases keys.len(),
{
    if keys.len() == 0 {
        Seq::empty()
    } else {
        key_pushes(keys.drop_last()) + push_bytes(keys.last())
    }
}

/// `OP_m <key> ... <key> OP_n OP_CHECKMULTISIG`
pub open spec fn p2ms_script(m: u8, keys: Seq<Seq<u8>>) -> Seq<u8> {
    push_int_bytes(m) + key_pushes(keys) + push_int_bytes(keys.len() as u8) + seq![0xaeu8]
}

/// The claim branch of a hash time-locked contract.
pub open spec fn htlc_claim_branch(payment_hash: Seq<u8>, claim_hash: Seq<u8>) -> Seq<u8> {
    seq![0xa8u8] + push_bytes(payment_hash) + seq![0x88u8, 0x76u8, 0xa9u8] + push_bytes(claim_hash)
        + seq![0x88u8, 0xacu8]
}

/// The refund branch of a hash time-locked contract.
pub open spec fn htlc_refund_branch(refund_hash: Seq<u8>, expiry: u32) -> Seq<u8> {
    push_bytes(le_digits(expiry as nat, 4)) + seq![0xb1u8, 0x75u8, 0x76u8, 0xa9u8] + push_bytes(
        refund_hash,
    ) + seq![0x88u8, 0xacu8]
}

/// `OP_IF <claim branch> OP_ELSE <refund branch> OP_ENDIF`
pub open spec fn htlc_script(
    payment_hash: Seq<u8>,
    claim_hash: Seq<u8>,
    refund_hash: Seq<u8>,
    expiry: u32,
) -> Seq<u8> {
    seq![0x63u8] + htlc_claim_branch(payment_hash, claim_hash) + seq![0x67u8] + htlc_refund_branch(
        refund_hash,
        expiry,
    ) + seq![0x68u8]
}

/// `OP_RETURN <data>`, or a bare `OP_RETURN` for no data.
pub open spec fn op_return_script(data: Seq<u8>) -> Seq<u8> {
    if data.len() == 0 {
        seq![0x6au8]
    } else {
        seq![0x6au8] + push_bytes(data)
    }
}

/// Appends a push that is known to fit.
fn push_short(s: &mut Script, data: &[u8])
    requires
        data@.len() <= MAX_PUSH_SIZE,
    ensures
        final(s)@ == old(s)@ + push_bytes(data@),
{
    let _ = s.push_data(data);
}

/// The output script that pays to the hash of a public key.
pub fn build_p2pkh(pubkey_hash: &[u8; 20]) -> (s: Script)
    ensures
        s@ == p2pkh_script(pubkey_hash@),
{
    let mut s: Script = Script::new();
    s.push_opcode(0x76);
    s.push_opcode(0xa9);
    push_short(&mut s, pubkey_hash.as_slice());
    s.push_opcode(0x88);
    s.push_opcode(0xac);
    assert(s@ =~= p2pkh_script(pubkey_hash@));
    s
}

/// The output script that pays to the hash of a redeem script.
pub fn build_p2sh(script_hash: &[u8; 20]) -> (s: Script)
    ensures
        s@ == p2sh_script(script_hash@),
{
    let mut s: Script = Script::new();
    s.push_opcode(0xa9);
    push_short(&mut s, script_hash.as_slice());
    s.push_opcode(0x87);
    assert(s@ =~= p2sh_script(script_hash@));
    s
}

/// The output script that asks for `m` signatures by the given keys; refused where `m` is more
/// than there are keys, or there are more keys than such an output may have.
pub fn build_p2ms(m: u8, keys: &[Vec<u8>]) -> (r: Result<Script, ScriptError>)
    requires
        m <= keys@.len() <= MAX_MULTISIG_KEYS ==> forall|i: int|
            0 <= i < keys@.len() ==> (#[trigger] keys@[i])@.len() <= MAX_PUSH_SIZE,
    ensures
        m <= keys@.len() <= MAX_MULTISIG_KEYS ==> (r matches Ok(s) && s@ == p2ms_script(
            m,
            views(keys@),
        )),
        !(m <= keys@.len() <= MAX_MULTISIG_KEYS) ==> r == Err::<Script, ScriptError>(
            ScriptError::MultisigKeyCount(m as usize, keys@.len() as usize),
        ),
{
    let n: usize = keys.len();
    if m as usize > n || n > MAX_MULTISIG_KEYS {
        return Err(ScriptError::MultisigKeyCount(m as usize, n));
    }
    let ghost all = views(keys@);
    let mut s: Script = Script::new();
    s.push_int(m);
    let mut i: usize = 0;
    assert(s@ =~= push_int_bytes(m) + key_pushes(all.take(0)));
    while i < keys.len()
        invariant
            i <= keys@.len(),
            all == views(keys@),
            forall|j: int| 0 <= j < keys@.len() ==> (#[trigger] keys@[j])@.len() <= MAX_PUSH_SIZE,
            s@ == push_int_bytes(m) + key_pushes(all.take(i as int)),
        decreases keys@.len() - i,
    {
        push_short(&mut s, keys[i].as_slice());
        i = i + 1;
        proof {
            assert(all.take(i as int).drop_last() =~= all.take(i - 1));
            assert(all.take(i as int).last() == keys@[i - 1]@);
            assert(s@ =~= push_int_bytes(m) + key_pushes(all.take(i as int)));
        }
    }
    assert(all.take(i as int) =~= all);
    s.push_int(n as u8);
    s.push_opcode(0xae);
    assert(s@ =~= p2ms_script(m, all));
    Ok(s)
}

/// The output script of an atomic swap: the claimer spends with the preimage of `payment_hash`,
/// the refunder once `expiry` has passed.
pub fn build_htlc(
    payment_hash: &[u8; 32],
    claim_pubkey_hash: &[u8; 20],
    refund_pubkey_hash: &[u8; 20],
    expiry: u32,
) -> (s: Script)
    ensures
        s@ == htlc_script(payment_hash@, claim_pubkey_hash@, refund_pubkey_hash@, expiry),
{
    let mut s: Script = Script::new();
    s.push_opcode(0x63);
    s.push_opcode(0xa8);
    push_short(&mut s, payment_hash.as_slice());
    s.push_opcode(0x88);
    s.push_opcode(0x76);
    s.push_opcode(0xa9);
    push_short(&mut s, claim_pubkey_hash.as_slice());
    s.push_opcode(0x88);
    s.push_opcode(0xac);
    assert(s@ =~= seq![0x63u8] + htlc_claim_branch(payment_hash@, claim_pubkey_hash@));
    s.push_opcode(0x67);
    let ghost half = s@;
    let mut expiry_bytes: Vec<u8> = Vec::new();
    push_u32_le(&mut expiry_bytes, expiry);
    proof {
        assert(expiry_bytes@ =~= le_digits(expiry as nat, 4));
        lemma_le_digits_len(expiry as nat, 4);
    }
    push_short(&mut s, expiry_bytes.as_slice());
    s.push_opcode(0xb1);
    s.push_opcode(0x75);
    s.push_opcode(0x76);
    s.push_opcode(0xa9);
    push_short(&mut s, refund_pubkey_hash.as_slice());
    s.push_opcode(0x88);
    s.push_opcode(0xac);
    assert(s@ =~= half + htlc_refund_branch(refund_pubkey_hash@, expiry));
    s.push_opcode(0x68);
    assert(s@ =~= htlc_script(payment_hash@, claim_pubkey_hash@, refund_pubkey_hash@, expiry));
    s
}

/// The output script that carries `data` and cannot be spent.
pub fn build_op_return(data: &[u8]) -> (r: Result<Script, ScriptError>)
    ensures
        data@.len() <= MAX_OP_RETURN_SIZE ==> (r matches Ok(s) && s@ == op_return_script(data@)),
        data@.len() > MAX_OP_RETURN_SIZE ==> r == Err::<Script, ScriptError>(
            ScriptError::PushTooLarge(data@.len() as usize),
        ),
{
    if data.len() > MAX_OP_RETURN_SIZE {
        return Err(ScriptError::PushTooLarge(data.len()));
    }
    let mut s: Script = Script::new();
    s.push_opcode(0x6a);
    if data.len() > 0 {
        push_short(&mut s, data);
    }
    assert(s@ =~= op_return_script(data@));
    Ok(s)
}

/// Every script that a builder makes is classified as what it was built for.
pub proof fn law_builders_classify(
    hash: Seq<u8>,
    payment_hash: Seq<u8>,
    claim_hash: Seq<u8>,
    refund_hash: Seq<u8>,
    expiry: u32,
    data: Seq<u8>,
    m: u8,
    keys: Seq<Seq<u8>>,
)
    requires
        hash.len() == 20,
        1 <= m <= keys.len() <= MAX_MULTISIG_KEYS,
    ensures
        script_type(p2pkh_script(hash)) == ScriptType::P2PKH,
        script_type(p2sh_script(hash)) == ScriptType::P2SH,
        script_type(htlc_script(payment_hash, claim_hash, refund_hash, expiry)) == ScriptType::Htlc,
        script_type(op_return_script(data)) == ScriptType::OpReturn,
        script_type(p2ms_script(m, keys)) == (ScriptType::P2MS { m, n: keys.len() as u8 }),
{
    let h = htlc_script(payment_hash, claim_hash, refund_hash, expiry);
    let claim = htlc_claim_branch(payment_hash, claim_hash);
    assert(h[0] == 0x63);
    assert(claim[0] == 0xa8);
    assert(h[1] == claim[0]);
    assert(h.len() > 5);
    let b = p2ms_script(m, keys);
    assert(b[0] == (0x50 + m) as u8);
    assert(b[b.len() - 1] == 0xae);
    assert(b[b.len() - 2] == (0x50 + keys.len()) as u8);
}

} // verus!
