//! Claims of balances of the former chain.
use crate::bytes::append_slice;
use crate::crypto::derive_public_keys;
use crate::crypto::is_secret_key;
use crate::crypto::public_keys_of;
use crate::crypto::recoverable_signature;
use crate::crypto::sign_recoverable;
use crate::desktop::error::bad_input;
use crate::desktop::error::bad_input_about;
use crate::desktop::error::node_error;
use crate::desktop::error::node_not_running;
use crate::desktop::error::TauriError;
use crate::desktop::error::TauriFault;
use crate::spv::stake::Input;
use crate::spv::stake::Output;
use crate::spv::stake::Transaction;
use crate::spv::stake::Tx;
use crate::spv::stake::TxOutput;
use crate::spv::stake::TxType;
use crate::text::hex_encode;
use crate::text::hex_text;
use crate::torrent::double::coins_text;
use crate::torrent::double::format_coins;
use vstd::prelude::*;
use vstd::string::*;

verus! {

/// The smallest units in a coin of the former chain.
pub const LEGACY_COIN: u64 = 100_000_000;

/// What can be claimed for an address.
#[derive(Debug, Clone)]
pub struct ClaimCheckResult {
    /// The address.
    pub address: String,
    /// What can be claimed, in smallest units.
    pub claimable_satoshis: u64,
    /// The same for people to read.
    pub display: String,
    /// Whether it was claimed already.
    pub already_claimed: bool,
}

/// Tells what can be claimed for an address.
pub fn check_legacy_claim(
    node_running: bool,
    address: &str,
    claimable: u64,
    already_claimed: bool,
) -> (r: Result<ClaimCheckResult, TauriError>)
    ensures
        if node_running {
            &&& r matches Ok(c)
            &&& c.address@ == address@
            &&& c.claimable_satoshis == claimable
            &&& c.display@ == coins_text(claimable as nat, LEGACY_COIN as nat)
            &&& c.already_claimed == already_claimed
        } else {
            r matches Err(e) && e@ == TauriFault::NodeError("Node not running"@)
        },
{
    if !node_running {
        return Err(node_not_running());
    }
    Ok(
        ClaimCheckResult {
            address: address.to_owned(),
            claimable_satoshis: claimable,
            display: format_coins(claimable, LEGACY_COIN),
            already_claimed,
        },
    )
}

/// What is answered when a claim was handed in.
#[derive(Debug, Clone)]
pub struct ClaimSubmitResult {
    /// The transaction.
    pub txid: String,
    /// What was claimed, in smallest units.
    pub claimed_satoshis: u64,
    /// Who is paid.
    pub recipient_address: String,
}

/// Refuses a claim without a key or without a recipient.
pub fn check_claim_request(wif_private_key: &str, recipient_address: &str) -> (r: Result<
    (),
    TauriError,
>)
    ensures
        if wif_private_key@.len() == 0 {
            r matches Err(e) && e@ == TauriFault::InvalidInput("WIF private key is required"@)
        } else if recipient_address@.len() == 0 {
            r matches Err(e) && e@ == TauriFault::InvalidInput("Recipient address is required"@)
        } else {
            r is Ok
        },
{
    if wif_private_key.unicode_len() == 0 {
        return Err(bad_input("WIF private key is required"));
    }
    if recipient_address.unicode_len() == 0 {
        return Err(bad_input("Recipient address is required"));
    }
    Ok(())
}

/// What is said of bytes that are no secret key.
pub open spec fn bad_key() -> TauriFault {
    TauriFault::InvalidInput("Invalid key bytes: "@ + "malformed or out-of-range secret key"@)
}

/// The public key for a claim, in the form that its address was made from.
pub fn claim_public_key(secret: &[u8], compressed: bool) -> (r: Result<Vec<u8>, TauriError>)
    ensures
        if is_secret_key(secret@) {
            r matches Ok(k) && k@ == if compressed {
                public_keys_of(secret@).0
            } else {
                public_keys_of(secret@).1
            }
        } else {
            r matches Err(e) && e@ == bad_key()
        },
{
    match derive_public_keys(secret) {
        Err(t) => Err(bad_input_about("Invalid key bytes: ", t.as_str())),
        Ok(p) => Ok(pick_form(&p.0, &p.1, compressed)),
    }
}

/// One of the two forms of a public key.
pub fn pick_form(short: &[u8; 33], long: &[u8; 65], compressed: bool) -> (r: Vec<u8>)
    ensures
        r@ == if compressed {
            short@
        } else {
            long@
        },
{
    if compressed {
        crate::bytes::copy_all(short.as_slice())
    } else {
        crate::bytes::copy_all(long.as_slice())
    }
}

/// The bytes of a signature from which the key can be recovered: the first tells which key it is,
/// and in which form.
pub open spec fn signature_code(id: u8, sig: Seq<u8>, compressed: bool) -> Seq<u8> {
    seq![
        (27 + id + (if compressed {
            4int
        } else {
            0
        })) as u8,
    ] + sig
}

/// The bytes of a signature from which the key can be recovered.
pub fn signature_bytes(id: u8, sig: &[u8; 64], compressed: bool) -> (r: Vec<u8>)
    requires
        id <= 3,
    ensures
        r@ == signature_code(id, sig@, compressed),
{
    let form: u8 = if compressed {
        4
    } else {
        0
    };
    let mut r: Vec<u8> = Vec::new();
    r.push(27 + id + form);
    append_slice(&mut r, sig.as_slice());
    assert(r@ =~= signature_code(id, sig@, compressed));
    r
}

/// What is known when a claim is to be handed in.
#[derive(Debug)]
pub struct ClaimFacts {
    /// The secret key, and whether its address was made from the short form of the public key.
    pub secret: Vec<u8>,
    pub compressed: bool,
    /// The address, and what can be claimed for it.
    pub address: String,
    pub claimable: u64,
    /// Whether the node runs.
    pub node_running: bool,
    /// Whether the address was claimed already.
    pub already_claimed: bool,
    /// The script that pays the recipient, or why there is none.
    pub script_pubkey: Result<Vec<u8>, String>,
    /// The digest of the message that is signed.
    pub message_hash: [u8; 32],
}

/// Why a claim is not handed in, where it is not.
pub open spec fn claim_fault(f: ClaimFacts) -> Option<TauriFault> {
    if f.claimable == 0 {
        Some(TauriFault::InvalidInput("No claimable balance for address "@ + f.address@))
    } else if !f.node_running {
        Some(TauriFault::NodeError("Node not running"@))
    } else if f.already_claimed {
        Some(
            TauriFault::InvalidInput("Address "@ + f.address@ + " has already been claimed"@),
        )
    } else {
        match f.script_pubkey {
            Err(t) => Some(TauriFault::InvalidInput("Invalid recipient address: "@ + t@)),
            Ok(_) => None,
        }
    }
}

/// The transaction that claims a balance.
pub open spec fn claim_tx(address: Seq<char>, claimable: u64, script: Seq<u8>, sig: Seq<u8>) -> Tx {
    Tx {
        version: 1,
        tx_type: TxType::LegacyClaim,
        inputs: Seq::empty(),
        outputs: seq![Output { value: claimable, script_pubkey: script }],
        lock_time: 0,
        claim_address: Some(address),
        claim_signature: Some(sig),
    }
}

fn check_claim(f: &ClaimFacts) -> (r: Result<(), TauriError>)
    ensures
        match claim_fault(*f) {
            Some(x) => r matches Err(e) && e@ == x,
            None => r is Ok,
        },
{
    if f.claimable == 0 {
        return Err(bad_input_about("No claimable balance for address ", f.address.as_str()));
    }
    if !f.node_running {
        return Err(node_not_running());
    }
    if f.already_claimed {
        let mut m: String = "Address ".to_owned();
        m.append(f.address.as_str());
        m.append(" has already been claimed");
        return Err(TauriError::InvalidInput(m));
    }
    match &f.script_pubkey {
        Err(t) => Err(bad_input_about("Invalid recipient address: ", t.as_str())),
        Ok(_) => Ok(()),
    }
}

/// The transaction that claims a balance with a given signature.
pub fn claim_transaction(f: &ClaimFacts, id: u8, sig: &[u8; 64]) -> (r: Result<
    Transaction,
    TauriError,
>)
    requires
        id <= 3,
    ensures
        match claim_fault(*f) {
            Some(x) => r matches Err(e) && e@ == x,
            None => r matches Ok(t) && t@ == claim_tx(
                f.address@,
                f.claimable,
                f.script_pubkey->Ok_0@,
                signature_code(id, sig@, f.compressed),
            ),
        },
{
    check_claim(f)?;
    let script: Vec<u8> = match &f.script_pubkey {
        Ok(s) => s.clone(),
        Err(_) => Vec::new(),
    };
    let mut outputs: Vec<TxOutput> = Vec::new();
    outputs.push(TxOutput { value: f.claimable, script_pubkey: script });
    let t: Transaction = Transaction {
        version: 1,
        tx_type: TxType::LegacyClaim,
        inputs: Vec::new(),
        outputs,
        lock_time: 0,
        claim_address: Some(f.address.clone()),
        claim_signature: Some(signature_bytes(id, sig, f.compressed)),
    };
    assert(t@.inputs =~= Seq::<Input>::empty());
    assert(t@.outputs =~= seq![
        Output { value: f.claimable, script_pubkey: f.script_pubkey->Ok_0@ },
    ]);
    Ok(t)
}

/// Builds the transaction that claims a balance, signed with the key of its address.
pub fn submit_legacy_claim(f: &ClaimFacts) -> (r: Result<Transaction, TauriError>)
    ensures
        if !is_secret_key(f.secret@) {
            r matches Err(e) && e@ == bad_key()
        } else {
            match claim_fault(*f) {
                Some(x) => r matches Err(e) && e@ == x,
                None => {
                    let s = recoverable_signature(f.secret@, f.message_hash@);
                    r matches Ok(t) && t@ == claim_tx(
                        f.address@,
                        f.claimable,
                        f.script_pubkey->Ok_0@,
                        signature_code(s.0, s.1, f.compressed),
                    )
                },
            }
        },
{
    match sign_recoverable(f.secret.as_slice(), &f.message_hash) {
        Err(t) => Err(bad_input_about("Invalid key bytes: ", t.as_str())),
        Ok(s) => claim_transaction(f, s.0, &s.1),
    }
}

/// The fee of a claim. Without it the claim is not handed in.
pub fn claim_fee(real_fee: Option<u64>) -> (r: Result<u64, TauriError>)
    ensures
        match real_fee {
            Some(fee) => r == Ok::<u64, TauriError>(fee),
            None => r matches Err(e) && e@ == TauriFault::NodeError(
                "Claim inputs not found in UTXO set"@,
            ),
        },
{
    match real_fee {
        Some(fee) => Ok(fee),
        None => Err(node_error("Claim inputs not found in UTXO set")),
    }
}

/// What is answered when a claim was handed in.
pub fn claim_result(tx: &Transaction, claimed: u64, recipient: &str) -> (r: ClaimSubmitResult)
    ensures
        r.txid@ == hex_text(crate::spv::stake::txid_of(tx@)),
        r.claimed_satoshis == claimed,
        r.recipient_address@ == recipient@,
{
    let txid: [u8; 32] = tx.txid();
    ClaimSubmitResult {
        txid: hex_encode(txid.as_slice()),
        claimed_satoshis: claimed,
        recipient_address: recipient.to_owned(),
    }
}

/// A claim pays all that can be claimed to the recipient, spends nothing, and counts as a claim.
pub proof fn law_claim_pays_the_balance(f: ClaimFacts, sig: Seq<u8>)
    requires
        claim_fault(f) is None,
    ensures
        ({
            let t = claim_tx(f.address@, f.claimable, f.script_pubkey->Ok_0@, sig);
            &&& t.tx_type == TxType::LegacyClaim
            &&& t.inputs.len() == 0
            &&& t.outputs.len() == 1
            &&& t.outputs[0].value == f.claimable
            &&& f.claimable > 0
            &&& t.claim_address == Some(f.address@)
        }),
{
}

} // verus!
