//! The rules that a minted block's header and stake proof must meet.
use crate::bytes::same_bytes;
use crate::crypto::ecdsa_check;
use crate::crypto::hash160;
use crate::crypto::hash160_of;
use crate::crypto::sha256d_of;
use crate::crypto::verify_ecdsa;
use crate::crypto::SignatureFault;
use crate::spv::chain::future_header;
use crate::spv::chain::future_text;
use crate::spv::chain::height_after;
use crate::spv::chain::next_height;
use crate::spv::chain::SpvHeader;
use crate::spv::chain::MAX_FUTURE_SECONDS;
use crate::spv::error::fault_text;
use crate::spv::error::SpvError;
use crate::spv::error::SpvFault;
use crate::spv::merkle::climb;
use crate::spv::merkle::steps;
use crate::spv::merkle::wrong_root_text;
use crate::spv::stake::capped_total;
use crate::spv::stake::check_stake_kernel;
use crate::spv::stake::compute_pos_reward;
use crate::spv::stake::compute_stake_modifier;
use crate::spv::stake::hash_utxo;
use crate::spv::stake::inclusion_of;
use crate::spv::stake::kernel_wins;
use crate::spv::stake::next_modifier;
use crate::spv::stake::reward_of;
use crate::spv::stake::sighash_of;
use crate::spv::stake::txid_of;
use crate::spv::stake::utxo_bytes;
use crate::spv::stake::SpvUtxo;
use crate::spv::stake::StakeProof;
use crate::spv::stake::Transaction;
use crate::spv::stake::Tx;
use crate::spv::stake::TxType;
use crate::spv::stake::MAX_STAKE_AGE;
use crate::spv::stake::MIN_STAKE_AGE;
use crate::spv::stake::MIN_STAKE_AMOUNT;
use crate::text::decimal;
use crate::text::hex_encode;
use crate::text::hex_text;
use crate::text::join;
use crate::text::push_decimal;
use vstd::prelude::*;
use vstd::string::*;

verus! {

/// A header that breaks a rule.
pub open spec fn refused(text: Seq<char>) -> SpvFault {
    SpvFault::HeaderValidation(text)
}

fn refuse(text: &str) -> (e: SpvError)
    ensures
        e@ == refused(text@),
{
    SpvError::HeaderValidation(text.to_owned())
}

/// Two numbers in a text.
pub open spec fn numbers_text(a: Seq<char>, x: nat, b: Seq<char>, y: nat) -> Seq<char> {
    a + decimal(x) + b + decimal(y)
}

fn refuse_numbers(a: &str, x: u64, b: &str, y: u64) -> (e: SpvError)
    ensures
        e@ == refused(numbers_text(a@, x as nat, b@, y as nat)),
{
    let mut m: String = a.to_owned();
    push_decimal(&mut m, x);
    m.append(b);
    push_decimal(&mut m, y);
    SpvError::HeaderValidation(m)
}

// ---- the signature of the stake ----

/// The text of a signature fault.
pub open spec fn signature_text(f: SignatureFault) -> Seq<char> {
    match f {
        SignatureFault::Encoding => "bad DER sig: malformed signature"@,
        SignatureFault::PublicKey => "bad pubkey: malformed public key"@,
        SignatureFault::Mismatch => "sig verify failed: signature failed verification"@,
    }
}

/// Whether a script pays to a public key's hash.
pub open spec fn is_p2pkh(s: Seq<u8>) -> bool {
    s.len() == 25 && s[0] == 0x76 && s[1] == 0xa9 && s[2] == 0x14 && s[23] == 0x88 && s[24] == 0xac
}

/// What follows the check of a signature: the fault that it found, or one of the script that the
/// key unlocks.
pub open spec fn judged(
    check: Result<(), SignatureFault>,
    key: Seq<u8>,
    script_pubkey: Seq<u8>,
) -> Result<(), SpvFault> {
    match check {
        Err(f) => Err(refused(signature_text(f))),
        Ok(_) => if !is_p2pkh(script_pubkey) {
            Err(refused("utxo script not P2PKH"@))
        } else if hash160_of(key) != script_pubkey.subrange(3, 23) {
            Err(refused("pubkey hash160 mismatch"@))
        } else {
            Ok(())
        },
    }
}

/// Judges the outcome of a signature check by the script that the key unlocks.
pub fn judge_signature(check: Result<(), SignatureFault>, key: &[u8], script_pubkey: &[u8]) -> (r:
    Result<(), SpvError>)
    ensures
        match judged(check, key@, script_pubkey@) {
            Ok(_) => r is Ok,
            Err(f) => r matches Err(e) && e@ == f,
        },
{
    match check {
        Err(f) => {
            return Err(
                match f {
                    SignatureFault::Encoding => refuse("bad DER sig: malformed signature"),
                    SignatureFault::PublicKey => refuse("bad pubkey: malformed public key"),
                    SignatureFault::Mismatch => refuse(
                        "sig verify failed: signature failed verification",
                    ),
                },
            );
        },
        Ok(_) => {},
    }
    if script_pubkey.len() != 25 || script_pubkey[0] != 0x76 || script_pubkey[1] != 0xa9
        || script_pubkey[2] != 0x14 || script_pubkey[23] != 0x88 || script_pubkey[24] != 0xac {
        return Err(refuse("utxo script not P2PKH"));
    }
    let hash: [u8; 20] = hash160(key);
    if !same_bytes(hash.as_slice(), vstd::slice::slice_subrange(script_pubkey, 3, 23)) {
        return Err(refuse("pubkey hash160 mismatch"));
    }
    Ok(())
}

/// What checking the signature of a stake gives. The unlocking script is a length, a signature
/// that ends in one, a length and a public key, and nothing else.
pub open spec fn stake_signature(t: Tx, utxo: SpvUtxo) -> Result<(), SpvFault> {
    let s = t.inputs[0].script_sig;
    let n = s[0] as int;
    if s.len() < 2 {
        Err(refused("script_sig too short"@))
    } else if s.len() < n + 2 {
        Err(refused("script_sig truncated sig"@))
    } else if n == 0 || s[n] != 0x01 {
        Err(refused("missing SIGHASH_ALL"@))
    } else if s.len() != n + 2 + s[n + 1] {
        Err(refused("script_sig extra bytes"@))
    } else {
        judged(
            ecdsa_check(
                sighash_of(t, 0, utxo.script_pubkey@),
                s.subrange(1, n),
                s.skip(n + 2),
            ),
            s.skip(n + 2),
            utxo.script_pubkey@,
        )
    }
}

/// Checks the signature of a stake.
pub fn verify_p2pkh_signature(coinstake: &Transaction, utxo: &SpvUtxo) -> (r: Result<(), SpvError>)
    requires
        coinstake.inputs@.len() > 0,
    ensures
        match stake_signature(coinstake@, *utxo) {
            Ok(_) => r is Ok,
            Err(f) => r matches Err(e) && e@ == f,
        },
{
    let script: &[u8] = coinstake.inputs[0].script_sig.as_slice();
    assert(coinstake@.inputs[0].script_sig == script@);
    if script.len() < 2 {
        return Err(refuse("script_sig too short"));
    }
    let n: usize = script[0] as usize;
    if script.len() < 1 + n + 1 {
        return Err(refuse("script_sig truncated sig"));
    }
    if n == 0 || script[n] != 0x01 {
        return Err(refuse("missing SIGHASH_ALL"));
    }
    let key_len: usize = script[n + 1] as usize;
    if script.len() != n + 2 + key_len {
        return Err(refuse("script_sig extra bytes"));
    }
    let der: &[u8] = vstd::slice::slice_subrange(script, 1, n);
    let key: &[u8] = vstd::slice::slice_subrange(script, n + 2, script.len());
    assert(key@ =~= script@.skip(n + 2));
    let sighash: [u8; 32] = coinstake.sighash(0, utxo.script_pubkey.as_slice());
    judge_signature(verify_ecdsa(&sighash, der, key), key, utxo.script_pubkey.as_slice())
}

// ---- the header and the proof ----

/// What is wrong with the place of a header in the chain.
pub open spec fn place_fault(parent: SpvHeader, h: SpvHeader, now: u32) -> Option<SpvFault> {
    if h.height != height_after(parent.height) {
        Some(SpvFault::HeightMismatch { expected: height_after(parent.height), got: h.height })
    } else if h.bits != parent.bits {
        Some(
            refused(
                numbers_text(
                    "header difficulty "@,
                    h.bits as nat,
                    " does not match parent difficulty "@,
                    parent.bits as nat,
                ),
            ),
        )
    } else if h.timestamp > now + MAX_FUTURE_SECONDS {
        Some(refused(future_text(h.timestamp)))
    } else if h.timestamp <= parent.timestamp {
        Some(refused("header timestamp must exceed parent timestamp"@))
    } else {
        None
    }
}

/// What is wrong with the stake modifiers.
pub open spec fn modifier_fault(parent: SpvHeader, h: SpvHeader, p: StakeProof) -> Option<SpvFault> {
    let expected = next_modifier(p.prev_stake_modifier, h.prev_hash@);
    if h.stake_modifier != expected {
        Some(
            refused(
                numbers_text(
                    "stake modifier "@,
                    h.stake_modifier as nat,
                    " != expected "@,
                    expected as nat,
                ),
            ),
        )
    } else if p.prev_stake_modifier != parent.stake_modifier {
        Some(
            refused(
                numbers_text(
                    "prev_stake_modifier "@,
                    p.prev_stake_modifier as nat,
                    " != parent "@,
                    parent.stake_modifier as nat,
                ),
            ),
        )
    } else {
        None
    }
}

/// What is wrong with the shape of the staking transaction.
pub open spec fn shape_fault(h: SpvHeader, t: Tx) -> Option<SpvFault> {
    if t.tx_type != TxType::Coinstake {
        Some(refused("coinstake must be Coinstake"@))
    } else if t.inputs.len() != 1 {
        Some(refused("coinstake must have 1 input"@))
    } else if t.outputs.len() == 0 || t.outputs[0].value != 0 || t.outputs[0].script_pubkey.len()
        != 0 {
        Some(refused("coinstake first output must be empty marker"@))
    } else if t.lock_time != h.height {
        Some(
            refused(
                numbers_text(
                    "coinstake lock_time "@,
                    t.lock_time as nat,
                    " != height "@,
                    h.height as nat,
                ),
            ),
        )
    } else {
        None
    }
}

/// What is wrong with the proofs that the transaction is in the block and the output was unspent.
pub open spec fn inclusion_fault(parent: SpvHeader, h: SpvHeader, p: StakeProof) -> Option<
    SpvFault,
> {
    let reached = climb(p.tx_merkle_proof.txid@, steps(p.tx_merkle_proof.siblings@));
    let input = p.coinstake@.inputs[0];
    if reached != h.merkle_root@ {
        Some(
            refused(
                "tx merkle proof: "@ + fault_text(
                    SpvFault::InvalidMerkleProof(wrong_root_text(reached, h.merkle_root@)),
                ),
            ),
        )
    } else if p.tx_merkle_proof.txid@ != txid_of(p.coinstake@) {
        Some(refused("tx merkle proof txid mismatch"@))
    } else if p.tx_merkle_proof.index != 0 {
        Some(refused("coinstake must be index 0"@))
    } else {
        match inclusion_of(
            p.utxo_proof.root@,
            steps(p.utxo_proof.siblings@),
            parent.utxo_root@,
            sha256d_of(utxo_bytes(p.utxo)),
        ) {
            Err(f) => Some(refused("utxo proof: "@ + fault_text(f))),
            Ok(_) => if input.prev_txid != p.utxo.txid@ || input.prev_vout != p.utxo.vout {
                Some(refused("coinstake outpoint != utxo"@))
            } else {
                None
            },
        }
    }
}

/// The age of the stake; zero where it is later than the header.
pub open spec fn stake_age(h: SpvHeader, p: StakeProof) -> nat {
    if h.timestamp <= p.utxo.timestamp {
        0
    } else {
        (h.timestamp - p.utxo.timestamp) as nat
    }
}

/// What is wrong with the stake itself: its value, its age, its luck.
pub open spec fn kernel_fault(h: SpvHeader, p: StakeProof) -> Option<SpvFault> {
    if p.utxo.value < MIN_STAKE_AMOUNT {
        Some(
            refused(
                numbers_text(
                    "stake value "@,
                    p.utxo.value as nat,
                    " below minimum "@,
                    MIN_STAKE_AMOUNT as nat,
                ),
            ),
        )
    } else if stake_age(h, p) < MIN_STAKE_AGE || stake_age(h, p) > MAX_STAKE_AGE {
        Some(
            refused(
                numbers_text(
                    "stake age "@,
                    stake_age(h, p),
                    " outside "@,
                    MIN_STAKE_AGE as nat,
                ) + "..="@ + decimal(MAX_STAKE_AGE as nat),
            ),
        )
    } else if !kernel_wins(
        p.prev_stake_modifier,
        p.utxo.value,
        p.utxo.txid@,
        p.utxo.vout,
        h.timestamp,
    ) {
        Some(refused("kernel hash does not meet stake target"@))
    } else {
        None
    }
}

/// What is wrong with the amount that the transaction makes.
pub open spec fn mint_fault(h: SpvHeader, p: StakeProof) -> Option<SpvFault> {
    let made = capped_total(p.coinstake@.outputs);
    let minted = if made <= p.utxo.value {
        0nat
    } else {
        (made - p.utxo.value) as nat
    };
    let allowed = reward_of(p.utxo.value, stake_age(h, p) as u64);
    if minted > allowed {
        Some(refused(numbers_text("minted "@, minted, " exceeds max reward "@, allowed)))
    } else {
        None
    }
}

/// Why a minted block's header is refused: the first rule that it breaks, or that its proof says
/// nothing of the outputs after the block.
pub open spec fn pos_fault(
    parent: Option<SpvHeader>,
    h: SpvHeader,
    p: StakeProof,
    now: u32,
) -> SpvFault {
    if h.nonce != 0 {
        refused("expected PoS header (nonce 0)"@)
    } else if h.height == 0 {
        refused("PoS genesis not allowed"@)
    } else if parent is None {
        SpvFault::UnknownParent(hex_text(h.prev_hash@))
    } else if place_fault(parent->0, h, now) is Some {
        place_fault(parent->0, h, now)->0
    } else if modifier_fault(parent->0, h, p) is Some {
        modifier_fault(parent->0, h, p)->0
    } else if shape_fault(h, p.coinstake@) is Some {
        shape_fault(h, p.coinstake@)->0
    } else if inclusion_fault(parent->0, h, p) is Some {
        inclusion_fault(parent->0, h, p)->0
    } else if kernel_fault(h, p) is Some {
        kernel_fault(h, p)->0
    } else if stake_signature(p.coinstake@, p.utxo) is Err {
        stake_signature(p.coinstake@, p.utxo)->Err_0
    } else if mint_fault(h, p) is Some {
        mint_fault(h, p)->0
    } else {
        refused(
            "stake proof authenticates the parent UTXO but not the committed post-state; use add_trusted_header until state-transition proofs are implemented"@,
        )
    }
}

/// Whether `e` describes the fault `f`.
spec fn tells(e: Option<SpvError>, f: Option<SpvFault>) -> bool {
    match f {
        Some(f) => e matches Some(e) && e@ == f,
        None => e is None,
    }
}

fn check_place(parent: &SpvHeader, h: &SpvHeader, now: u32) -> (e: Option<SpvError>)
    ensures
        tells(e, place_fault(*parent, *h, now)),
{
    let expected: u32 = next_height(parent.height);
    if h.height != expected {
        return Some(SpvError::HeightMismatch { expected, got: h.height });
    }
    if h.bits != parent.bits {
        return Some(
            refuse_numbers(
                "header difficulty ",
                h.bits as u64,
                " does not match parent difficulty ",
                parent.bits as u64,
            ),
        );
    }
    if h.timestamp as u64 > now as u64 + MAX_FUTURE_SECONDS {
        return Some(future_header(h.timestamp));
    }
    if h.timestamp <= parent.timestamp {
        return Some(refuse("header timestamp must exceed parent timestamp"));
    }
    None
}

fn check_modifiers(parent: &SpvHeader, h: &SpvHeader, p: &StakeProof) -> (e: Option<SpvError>)
    ensures
        tells(e, modifier_fault(*parent, *h, *p)),
{
    let expected: u64 = compute_stake_modifier(p.prev_stake_modifier, &h.prev_hash);
    if h.stake_modifier != expected {
        return Some(
            refuse_numbers("stake modifier ", h.stake_modifier, " != expected ", expected),
        );
    }
    if p.prev_stake_modifier != parent.stake_modifier {
        return Some(
            refuse_numbers(
                "prev_stake_modifier ",
                p.prev_stake_modifier,
                " != parent ",
                parent.stake_modifier,
            ),
        );
    }
    None
}

fn check_shape(h: &SpvHeader, t: &Transaction) -> (e: Option<SpvError>)
    ensures
        tells(e, shape_fault(*h, t@)),
{
    if !t.is_coinstake() {
        return Some(refuse("coinstake must be Coinstake"));
    }
    if t.inputs.len() != 1 {
        return Some(refuse("coinstake must have 1 input"));
    }
    if t.outputs.len() == 0 || t.outputs[0].value != 0 || t.outputs[0].script_pubkey.len() != 0 {
        return Some(refuse("coinstake first output must be empty marker"));
    }
    if t.lock_time != h.height {
        return Some(
            refuse_numbers(
                "coinstake lock_time ",
                t.lock_time as u64,
                " != height ",
                h.height as u64,
            ),
        );
    }
    None
}

fn check_inclusion(parent: &SpvHeader, h: &SpvHeader, p: &StakeProof) -> (e: Option<SpvError>)
    requires
        p.coinstake.inputs@.len() == 1,
    ensures
        tells(e, inclusion_fault(*parent, *h, *p)),
{
    match p.tx_merkle_proof.verify(&h.merkle_root) {
        Err(e) => {
            return Some(
                SpvError::HeaderValidation(join("tx merkle proof: ", e.message().as_str())),
            );
        },
        Ok(_) => {},
    }
    let txid: [u8; 32] = p.coinstake.txid();
    if !same_bytes(p.tx_merkle_proof.txid.as_slice(), txid.as_slice()) {
        return Some(refuse("tx merkle proof txid mismatch"));
    }
    if p.tx_merkle_proof.index != 0 {
        return Some(refuse("coinstake must be index 0"));
    }
    let leaf: [u8; 32] = hash_utxo(&p.utxo);
    match p.utxo_proof.verify(&parent.utxo_root, &leaf) {
        Err(e) => {
            return Some(SpvError::HeaderValidation(join("utxo proof: ", e.message().as_str())));
        },
        Ok(_) => {},
    }
    let input = &p.coinstake.inputs[0];
    assert(input@ == p.coinstake@.inputs[0]);
    if !same_bytes(input.prev_txid.as_slice(), p.utxo.txid.as_slice()) || input.prev_vout
        != p.utxo.vout {
        return Some(refuse("coinstake outpoint != utxo"));
    }
    None
}

fn check_kernel(h: &SpvHeader, p: &StakeProof) -> (e: Option<SpvError>)
    ensures
        tells(e, kernel_fault(*h, *p)),
{
    if p.utxo.value < MIN_STAKE_AMOUNT {
        return Some(
            refuse_numbers("stake value ", p.utxo.value, " below minimum ", MIN_STAKE_AMOUNT),
        );
    }
    let age: u64 = h.timestamp.saturating_sub(p.utxo.timestamp) as u64;
    if age < MIN_STAKE_AGE || age > MAX_STAKE_AGE {
        let mut m: String = "stake age ".to_owned();
        push_decimal(&mut m, age);
        m.append(" outside ");
        push_decimal(&mut m, MIN_STAKE_AGE);
        m.append("..=");
        push_decimal(&mut m, MAX_STAKE_AGE);
        return Some(SpvError::HeaderValidation(m));
    }
    if !check_stake_kernel(
        p.prev_stake_modifier,
        p.utxo.value,
        &p.utxo.txid,
        p.utxo.vout,
        h.timestamp,
    ) {
        return Some(refuse("kernel hash does not meet stake target"));
    }
    None
}

fn check_mint(h: &SpvHeader, p: &StakeProof) -> (e: Option<SpvError>)
    ensures
        tells(e, mint_fault(*h, *p)),
{
    let age: u64 = h.timestamp.saturating_sub(p.utxo.timestamp) as u64;
    let minted: u64 = p.coinstake.total_output().saturating_sub(p.utxo.value);
    let allowed: u64 = compute_pos_reward(p.utxo.value, age);
    if minted > allowed {
        return Some(refuse_numbers("minted ", minted, " exceeds max reward ", allowed));
    }
    None
}

/// Says why a minted block's header is refused.
pub fn check_pos_header(
    parent: Option<SpvHeader>,
    header: &SpvHeader,
    stake: &StakeProof,
    now: u32,
) -> (e: SpvError)
    ensures
        e@ == pos_fault(parent, *header, *stake, now),
{
    if !header.is_pos() {
        return refuse("expected PoS header (nonce 0)");
    }
    if header.height == 0 {
        return refuse("PoS genesis not allowed");
    }
    let parent: SpvHeader = match parent {
        None => {
            return SpvError::UnknownParent(hex_encode(header.prev_hash.as_slice()));
        },
        Some(p) => p,
    };
    if let Some(e) = check_place(&parent, header, now) {
        return e;
    }
    if let Some(e) = check_modifiers(&parent, header, stake) {
        return e;
    }
    if let Some(e) = check_shape(header, &stake.coinstake) {
        return e;
    }
    if let Some(e) = check_inclusion(&parent, header, stake) {
        return e;
    }
    if let Some(e) = check_kernel(header, stake) {
        return e;
    }
    match verify_p2pkh_signature(&stake.coinstake, &stake.utxo) {
        Err(e) => {
            return e;
        },
        Ok(_) => {},
    }
    if let Some(e) = check_mint(header, stake) {
        return e;
    }
    refuse(
        "stake proof authenticates the parent UTXO but not the committed post-state; use add_trusted_header until state-transition proofs are implemented",
    )
}

} // verus!
