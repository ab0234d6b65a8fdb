//! The steps by which a matched order is carried out: the other side is funded, both sides are
//! claimed with the secret, or both are refunded when the time is over.
use crate::bytes::append_slice;
use crate::bytes::array32;
use crate::bytes::same_bytes;
use crate::crypto::sha256;
use crate::crypto::sha256_of;
use crate::desktop::error::bad_input;
use crate::desktop::error::node_not_running;
use crate::desktop::error::TauriError;
use crate::desktop::error::TauriFault;
use crate::desktop::swap::bytes_if_any;
use crate::desktop::swap::order_if_any;
use crate::desktop::swap::Order;
use crate::desktop::swap::BTC_FEE_SATOSHIS;
use crate::desktop::swap::SwapOrder;
use crate::script::engine::spend;
use crate::script::engine::ScriptEnv;
use crate::script::program::push_bytes;
use crate::script::spending::key_hash_verdict;
use crate::script::spending::law_htlc_claim;
use crate::script::standard::htlc_script;
use crate::text::hex_bytes;
use crate::text::hex_decode;
use crate::text::hex_encode;
use crate::text::hex_text;
use crate::torrent::metainfo::text_option;
use vstd::prelude::*;
use vstd::string::*;
use vstd::utf8::encode_utf8;

verus! {

/// How far a swap has come.
#[derive(Debug, Clone, Copy, PartialEq, Eq, Structural)]
pub enum SwapStatus {
    /// Nothing is recorded yet.
    Pending,
    /// The other side is funded.
    BtcFunded,
    /// A side was claimed.
    Claimed,
    /// The swap was given back.
    Refunded,
}

/// What is recorded of a swap.
#[derive(Debug, Clone)]
pub struct SwapState {
    /// The order.
    pub order_id: [u8; 32],
    /// The digest of the secret.
    pub hash_lock: [u8; 32],
    /// The secret, once it is known.
    pub preimage: Option<[u8; 32]>,
    /// The transaction that funds the other side.
    pub btc_funding_txid: Option<[u8; 32]>,
    /// Where the maker is paid on the other side.
    pub maker_btc_address: Option<String>,
    /// Where the taker is refunded on the other side.
    pub taker_btc_refund_address: Option<String>,
    /// What the other side is worth.
    pub btc_amount: u64,
    /// When the other side ends.
    pub btc_expiry: u32,
    /// How far the swap has come.
    pub status: SwapStatus,
}

/// What a [`SwapState`] says.
#[verifier::ext_equal]
pub ghost struct Swap {
    pub order_id: Seq<u8>,
    pub hash_lock: Seq<u8>,
    pub preimage: Option<Seq<u8>>,
    pub btc_funding_txid: Option<Seq<u8>>,
    pub maker_btc_address: Option<Seq<char>>,
    pub taker_btc_refund_address: Option<Seq<char>>,
    pub btc_amount: u64,
    pub btc_expiry: u32,
    pub status: SwapStatus,
}

impl View for SwapState {
    type V = Swap;

    open spec fn view(&self) -> Swap {
        Swap {
            order_id: self.order_id@,
            hash_lock: self.hash_lock@,
            preimage: bytes_if_any(self.preimage),
            btc_funding_txid: bytes_if_any(self.btc_funding_txid),
            maker_btc_address: text_option(self.maker_btc_address),
            taker_btc_refund_address: text_option(self.taker_btc_refund_address),
            btc_amount: self.btc_amount,
            btc_expiry: self.btc_expiry,
            status: self.status,
        }
    }
}

/// A swap that may be absent.
pub open spec fn swap_if_any(s: Option<&SwapState>) -> Option<Swap> {
    match s {
        Some(x) => Some(x@),
        None => None,
    }
}

/// A swap of which nothing is recorded.
pub open spec fn fresh_swap(order_id: Seq<u8>, hash_lock: Seq<u8>) -> Swap {
    Swap {
        order_id,
        hash_lock,
        preimage: None,
        btc_funding_txid: None,
        maker_btc_address: None,
        taker_btc_refund_address: None,
        btc_amount: 0,
        btc_expiry: 0,
        status: SwapStatus::Pending,
    }
}

/// A swap after its other side was funded.
pub open spec fn swap_funded(
    s: Swap,
    txid: Seq<u8>,
    maker: Seq<char>,
    refund: Seq<char>,
    amount: u64,
    expiry: u32,
) -> Swap {
    Swap {
        btc_funding_txid: Some(txid),
        maker_btc_address: Some(maker),
        taker_btc_refund_address: Some(refund),
        btc_amount: amount,
        btc_expiry: expiry,
        status: SwapStatus::BtcFunded,
        ..s
    }
}

impl SwapState {
    /// A swap of which nothing is recorded.
    pub fn new(order_id: [u8; 32], hash_lock: [u8; 32]) -> (r: Self)
        ensures
            r@ == fresh_swap(order_id@, hash_lock@),
    {
        SwapState {
            order_id,
            hash_lock,
            preimage: None,
            btc_funding_txid: None,
            maker_btc_address: None,
            taker_btc_refund_address: None,
            btc_amount: 0,
            btc_expiry: 0,
            status: SwapStatus::Pending,
        }
    }

    /// Records that the other side was funded.
    pub fn record_btc_funding(
        &mut self,
        txid: [u8; 32],
        terms: &BtcFundTerms,
        refund_address: &str,
        expiry: u32,
    )
        ensures
            final(self)@ == swap_funded(
                old(self)@,
                txid@,
                terms.maker_btc_address@,
                refund_address@,
                terms.amount,
                expiry,
            ),
    {
        self.btc_funding_txid = Some(txid);
        self.maker_btc_address = Some(terms.maker_btc_address.clone());
        self.taker_btc_refund_address = Some(refund_address.to_owned());
        self.btc_amount = terms.amount;
        self.btc_expiry = expiry;
        self.status = SwapStatus::BtcFunded;
    }

    /// Records that a side was claimed, and the secret where it became known by that.
    pub fn record_claim(&mut self, preimage: Option<[u8; 32]>)
        ensures
            final(self)@ == (Swap {
                preimage: if preimage is Some {
                    bytes_if_any(preimage)
                } else {
                    old(self)@.preimage
                },
                status: SwapStatus::Claimed,
                ..old(self)@
            }),
    {
        if preimage.is_some() {
            self.preimage = preimage;
        }
        self.status = SwapStatus::Claimed;
    }

    /// Records that the swap was given back.
    pub fn record_refund(&mut self)
        ensures
            final(self)@ == (Swap { status: SwapStatus::Refunded, ..old(self)@ }),
    {
        self.status = SwapStatus::Refunded;
    }
}

/// What is answered to a step of a swap.
#[derive(Debug, Clone)]
pub struct SwapActionResult {
    /// The order.
    pub order_id: String,
    /// The transaction.
    pub txid: String,
    /// How far the swap has come.
    pub status: String,
}

/// The name of a status.
pub open spec fn status_name(s: SwapStatus) -> Seq<char> {
    match s {
        SwapStatus::Pending => "Pending"@,
        SwapStatus::BtcFunded => "BtcFunded"@,
        SwapStatus::Claimed => "Claimed"@,
        SwapStatus::Refunded => "Refunded"@,
    }
}

/// What is answered to a step of a swap.
pub fn swap_action(order_id: &str, txid: &[u8; 32], status: SwapStatus) -> (r: SwapActionResult)
    ensures
        r.order_id@ == order_id@,
        r.txid@ == hex_text(txid@),
        r.status@ == status_name(status),
{
    let name: &str = match status {
        SwapStatus::Pending => "Pending",
        SwapStatus::BtcFunded => "BtcFunded",
        SwapStatus::Claimed => "Claimed",
        SwapStatus::Refunded => "Refunded",
    };
    SwapActionResult {
        order_id: order_id.to_owned(),
        txid: hex_encode(txid.as_slice()),
        status: name.to_owned(),
    }
}

/// Why there is no such order.
pub open spec fn order_not_found(id: Seq<char>) -> TauriFault {
    TauriFault::NotFound("Order "@ + id + " not found"@)
}

fn no_order(id: &str) -> (r: TauriError)
    ensures
        r@ == order_not_found(id@),
{
    let mut m: String = "Order ".to_owned();
    m.append(id);
    m.append(" not found");
    TauriError::NotFound(m)
}

// ---- funding the other side ----

/// How the other side is funded.
#[derive(Debug, Clone)]
pub struct BtcFundTerms {
    /// The digest of the secret.
    pub hash_lock: [u8; 32],
    /// Who can claim.
    pub maker_btc_address: String,
    /// What the contract is worth.
    pub amount: u64,
    /// What the output that funds the contract must be worth.
    pub needed: u64,
}

/// Why the other side cannot be funded, where it cannot.
pub open spec fn btc_fund_fault(running: bool, id: Seq<char>, order: Option<Order>) -> Option<
    TauriFault,
> {
    if !running {
        Some(TauriFault::NodeError("Node not running"@))
    } else {
        match order {
            None => Some(order_not_found(id)),
            Some(o) => if o.hash_lock is None {
                Some(TauriFault::InvalidInput("Order has no hash lock"@))
            } else if o.maker_btc_address is None {
                Some(TauriFault::InvalidInput("Order has no maker BTC address"@))
            } else if o.target_amount == 0 {
                Some(TauriFault::InvalidInput("Order target amount is zero"@))
            } else if o.target_amount + BTC_FEE_SATOSHIS > u64::MAX {
                Some(TauriFault::InvalidInput("Insufficient BTC funds"@))
            } else {
                None
            },
        }
    }
}

/// Decides whether the other side of an order can be funded, and how.
pub fn check_btc_fund(node_running: bool, order_id: &str, order: Option<&SwapOrder>) -> (r: Result<
    BtcFundTerms,
    TauriError,
>)
    ensures
        match btc_fund_fault(node_running, order_id@, order_if_any(order)) {
            Some(f) => r matches Err(e) && e@ == f,
            None => {
                let o = order->0@;
                &&& r matches Ok(t)
                &&& Some(t.hash_lock@) == o.hash_lock
                &&& Some(t.maker_btc_address@) == o.maker_btc_address
                &&& t.amount == o.target_amount
                &&& t.needed == o.target_amount + BTC_FEE_SATOSHIS
            },
        },
{
    if !node_running {
        return Err(node_not_running());
    }
    let o: &SwapOrder = match order {
        Some(o) => o,
        None => {
            return Err(no_order(order_id));
        },
    };
    let hash_lock: [u8; 32] = match o.hash_lock {
        Some(h) => h,
        None => {
            return Err(bad_input("Order has no hash lock"));
        },
    };
    let maker_btc_address: String = match &o.maker_btc_address {
        Some(a) => a.clone(),
        None => {
            return Err(bad_input("Order has no maker BTC address"));
        },
    };
    if o.target_amount == 0 {
        return Err(bad_input("Order target amount is zero"));
    }
    match o.target_amount.checked_add(BTC_FEE_SATOSHIS) {
        None => Err(bad_input("Insufficient BTC funds")),
        Some(needed) => Ok(
            BtcFundTerms { hash_lock, maker_btc_address, amount: o.target_amount, needed },
        ),
    }
}

// ---- claiming this side ----

/// A secret that is given in hexadecimal.
pub open spec fn preimage_in(s: Seq<char>) -> Result<Seq<u8>, TauriFault> {
    match hex_bytes(encode_utf8(s)) {
        None => Err(TauriFault::InvalidInput("Invalid preimage hex"@)),
        Some(b) => if b.len() == 32 {
            Ok(b)
        } else {
            Err(TauriFault::InvalidInput("Preimage must be 32 bytes"@))
        },
    }
}

/// Reads a secret that is given in hexadecimal.
pub fn parse_preimage(s: &str) -> (r: Result<[u8; 32], TauriError>)
    ensures
        match preimage_in(s@) {
            Ok(b) => r matches Ok(p) && p@ == b,
            Err(f) => r matches Err(e) && e@ == f,
        },
{
    match hex_decode(s.as_bytes()) {
        Err(_) => Err(bad_input("Invalid preimage hex")),
        Ok(b) => {
            if b.len() != 32 {
                return Err(bad_input("Preimage must be 32 bytes"));
            }
            let p: [u8; 32] = array32(b.as_slice(), 0);
            assert(p@ =~= b@);
            Ok(p)
        },
    }
}

/// How this side is claimed.
#[derive(Debug, Clone)]
pub struct VtrClaimTerms {
    /// The secret.
    pub preimage: [u8; 32],
    /// Its digest.
    pub hash_lock: [u8; 32],
    /// The transaction that funds the contract.
    pub funding_txid: [u8; 32],
    /// Who can claim.
    pub taker_address: String,
}

/// Why this side cannot be claimed, where it cannot.
pub open spec fn vtr_claim_fault(
    running: bool,
    id: Seq<char>,
    preimage: Seq<char>,
    key: Seq<char>,
    order: Option<Order>,
) -> Option<TauriFault> {
    if !running {
        Some(TauriFault::NodeError("Node not running"@))
    } else {
        match preimage_in(preimage) {
            Err(f) => Some(f),
            Ok(p) => if key.len() == 0 {
                Some(TauriFault::InvalidInput("Taker WIF is required"@))
            } else {
                match order {
                    None => Some(order_not_found(id)),
                    Some(o) => if o.hash_lock is None {
                        Some(TauriFault::InvalidInput("Order has no hash lock"@))
                    } else if o.funding_txid is None {
                        Some(TauriFault::InvalidInput("Order has no VTR funding txid"@))
                    } else if o.taker_address is None {
                        Some(TauriFault::InvalidInput("Order has no taker address"@))
                    } else if sha256_of(p) != o.hash_lock->0 {
                        Some(TauriFault::InvalidInput("Preimage does not match hash lock"@))
                    } else {
                        None
                    },
                }
            },
        }
    }
}

/// Decides whether this side of an order can be claimed with a secret, and how.
pub fn check_vtr_claim(
    node_running: bool,
    order_id: &str,
    preimage: &str,
    taker_wif: &str,
    order: Option<&SwapOrder>,
) -> (r: Result<VtrClaimTerms, TauriError>)
    ensures
        match vtr_claim_fault(
            node_running,
            order_id@,
            preimage@,
            taker_wif@,
            order_if_any(order),
        ) {
            Some(f) => r matches Err(e) && e@ == f,
            None => {
                let o = order->0@;
                &&& r matches Ok(t)
                &&& preimage_in(preimage@) == Ok::<Seq<u8>, TauriFault>(t.preimage@)
                &&& Some(t.hash_lock@) == o.hash_lock
                &&& Some(t.funding_txid@) == o.funding_txid
                &&& Some(t.taker_address@) == o.taker_address
                &&& sha256_of(t.preimage@) == t.hash_lock@
            },
        },
{
    if !node_running {
        return Err(node_not_running());
    }
    let secret: [u8; 32] = match parse_preimage(preimage) {
        Ok(p) => p,
        Err(e) => {
            return Err(e);
        },
    };
    if taker_wif.unicode_len() == 0 {
        return Err(bad_input("Taker WIF is required"));
    }
    let o: &SwapOrder = match order {
        Some(o) => o,
        None => {
            return Err(no_order(order_id));
        },
    };
    let hash_lock: [u8; 32] = match o.hash_lock {
        Some(h) => h,
        None => {
            return Err(bad_input("Order has no hash lock"));
        },
    };
    let funding_txid: [u8; 32] = match o.funding_txid {
        Some(t) => t,
        None => {
            return Err(bad_input("Order has no VTR funding txid"));
        },
    };
    let taker_address: String = match &o.taker_address {
        Some(a) => a.clone(),
        None => {
            return Err(bad_input("Order has no taker address"));
        },
    };
    let digest: [u8; 32] = sha256(secret.as_slice());
    if !same_bytes(digest.as_slice(), hash_lock.as_slice()) {
        return Err(bad_input("Preimage does not match hash lock"));
    }
    Ok(VtrClaimTerms { preimage: secret, hash_lock, funding_txid, taker_address })
}

/// The script that claims a contract with a secret.
pub open spec fn claim_script(sig: Seq<u8>, key: Seq<u8>, preimage: Seq<u8>) -> Seq<u8> {
    seq![sig.len() as u8] + sig + seq![key.len() as u8] + key + seq![0x20u8] + preimage + seq![
        0x51u8,
    ]
}

/// The script that claims a contract with a secret: a signature, the key, the secret, and the
/// choice of the claim.
pub fn claim_script_sig(sig: &[u8], pubkey: &[u8], preimage: &[u8; 32]) -> (r: Vec<u8>)
    ensures
        r@ == claim_script(sig@, pubkey@, preimage@),
{
    let mut r: Vec<u8> = Vec::new();
    r.push(#[verifier::truncate] (sig.len() as u8));
    append_slice(&mut r, sig);
    r.push(#[verifier::truncate] (pubkey.len() as u8));
    append_slice(&mut r, pubkey);
    r.push(0x20);
    append_slice(&mut r, preimage.as_slice());
    r.push(0x51);
    assert(r@ =~= claim_script(sig@, pubkey@, preimage@));
    r
}

/// A contract is claimed by the script that is built for it: where the secret has the digest of
/// the contract, the script spends it just when the key is the claimer's and the signature is by
/// that key.
pub proof fn law_claim_script_takes_the_contract(
    hash_lock: Seq<u8>,
    claim_hash: Seq<u8>,
    refund_hash: Seq<u8>,
    expiry: u32,
    sig: Seq<u8>,
    key: Seq<u8>,
    preimage: Seq<u8>,
    env: ScriptEnv,
)
    requires
        hash_lock.len() == 32,
        claim_hash.len() == 20,
        refund_hash.len() == 20,
        preimage.len() == 32,
        0 < sig.len() <= 75,
        0 < key.len() <= 75,
        sha256_of(preimage) == hash_lock,
    ensures
        spend(
            claim_script(sig, key, preimage),
            htlc_script(hash_lock, claim_hash, refund_hash, expiry),
            env,
        ).1 == key_hash_verdict(claim_hash, sig, key, env),
{
    law_htlc_claim(hash_lock, claim_hash, refund_hash, expiry, sig, key, preimage, env);
    assert(push_bytes(sig) + push_bytes(key) + push_bytes(preimage) + seq![0x51u8]
        =~= claim_script(sig, key, preimage));
}

// ---- claiming the other side ----

/// How the other side is claimed.
#[derive(Debug, Clone)]
pub struct BtcClaimTerms {
    /// The secret.
    pub preimage: [u8; 32],
    /// Its digest.
    pub hash_lock: [u8; 32],
    /// The transaction that funds the contract.
    pub funding_txid: [u8; 32],
    /// Who can claim.
    pub maker_btc_address: String,
    /// Who is refunded.
    pub refund_address: String,
    /// What the contract is worth.
    pub amount: u64,
    /// When the contract ends.
    pub expiry: u32,
}

/// The secret of a swap: as it is recorded, else as it stands in the order.
pub open spec fn known_preimage(s: Swap, in_order: Option<Seq<u8>>) -> Option<Seq<u8>> {
    if s.preimage is Some {
        s.preimage
    } else {
        in_order
    }
}

/// Why the other side cannot be claimed, where it cannot.
pub open spec fn btc_claim_fault(
    running: bool,
    id: Seq<char>,
    swap: Option<Swap>,
    in_order: Option<Seq<u8>>,
) -> Option<TauriFault> {
    if !running {
        Some(TauriFault::NodeError("Node not running"@))
    } else {
        match swap {
            None => Some(TauriFault::NotFound("Swap "@ + id + " not found"@)),
            Some(s) => if known_preimage(s, in_order) is None {
                Some(TauriFault::InvalidInput("Preimage not available"@))
            } else if s.btc_funding_txid is None {
                Some(TauriFault::InvalidInput("BTC funding txid not recorded"@))
            } else if s.maker_btc_address is None {
                Some(TauriFault::InvalidInput("Maker BTC address not recorded"@))
            } else if s.taker_btc_refund_address is None {
                Some(TauriFault::InvalidInput("Taker BTC refund address not recorded"@))
            } else {
                None
            },
        }
    }
}

/// Decides whether the other side of a swap can be claimed, and how.
pub fn check_btc_claim(
    node_running: bool,
    order_id: &str,
    swap: Option<&SwapState>,
    preimage_in_order: Option<[u8; 32]>,
) -> (r: Result<BtcClaimTerms, TauriError>)
    ensures
        match btc_claim_fault(
            node_running,
            order_id@,
            swap_if_any(swap),
            bytes_if_any(preimage_in_order),
        ) {
            Some(f) => r matches Err(e) && e@ == f,
            None => {
                let s = swap->0@;
                &&& r matches Ok(t)
                &&& Some(t.preimage@) == known_preimage(s, bytes_if_any(preimage_in_order))
                &&& t.hash_lock@ == sha256_of(t.preimage@)
                &&& Some(t.funding_txid@) == s.btc_funding_txid
                &&& Some(t.maker_btc_address@) == s.maker_btc_address
                &&& Some(t.refund_address@) == s.taker_btc_refund_address
                &&& t.amount == s.btc_amount
                &&& t.expiry == s.btc_expiry
            },
        },
{
    if !node_running {
        return Err(node_not_running());
    }
    let s: &SwapState = match swap {
        Some(s) => s,
        None => {
            let mut m: String = "Swap ".to_owned();
            m.append(order_id);
            m.append(" not found");
            return Err(TauriError::NotFound(m));
        },
    };
    let known: Option<[u8; 32]> = match s.preimage {
        Some(p) => Some(p),
        None => preimage_in_order,
    };
    let preimage: [u8; 32] = match known {
        Some(p) => p,
        None => {
            return Err(bad_input("Preimage not available"));
        },
    };
    let funding_txid: [u8; 32] = match s.btc_funding_txid {
        Some(t) => t,
        None => {
            return Err(bad_input("BTC funding txid not recorded"));
        },
    };
    let maker_btc_address: String = match &s.maker_btc_address {
        Some(a) => a.clone(),
        None => {
            return Err(bad_input("Maker BTC address not recorded"));
        },
    };
    let refund_address: String = match &s.taker_btc_refund_address {
        Some(a) => a.clone(),
        None => {
            return Err(bad_input("Taker BTC refund address not recorded"));
        },
    };
    Ok(
        BtcClaimTerms {
            preimage,
            hash_lock: sha256(preimage.as_slice()),
            funding_txid,
            maker_btc_address,
            refund_address,
            amount: s.btc_amount,
            expiry: s.btc_expiry,
        },
    )
}

// ---- refunding ----

/// How the other side is refunded.
#[derive(Debug, Clone)]
pub struct BtcRefundTerms {
    /// The digest of the secret.
    pub hash_lock: [u8; 32],
    /// The transaction that funds the contract.
    pub funding_txid: [u8; 32],
    /// Who could claim.
    pub recipient: String,
    /// Who is refunded.
    pub refund_address: String,
    /// What the contract is worth.
    pub amount: u64,
    /// When the contract ends.
    pub expiry: u32,
}

/// Whether the other side of a swap was funded.
pub open spec fn other_side_funded(s: Option<Swap>) -> bool {
    s matches Some(x) && x.btc_funding_txid is Some && x.btc_expiry > 0
}

/// Why a swap is not refunded, where it is not.
pub open spec fn refund_fault(
    running: bool,
    id: Seq<char>,
    order: Option<Order>,
    swap: Option<Swap>,
    now: u32,
) -> Option<TauriFault> {
    if !running {
        Some(TauriFault::NodeError("Node not running"@))
    } else {
        match order {
            None => Some(order_not_found(id)),
            Some(o) => if now < o.expiry {
                Some(TauriFault::InvalidInput("Swap has not expired yet"@))
            } else if other_side_funded(swap) && swap->0.taker_btc_refund_address is None {
                Some(TauriFault::InvalidInput("Taker BTC refund address not recorded"@))
            } else {
                None
            },
        }
    }
}

/// Decides whether a swap can be refunded, and whether its other side is to be refunded too.
pub fn check_refund(
    node_running: bool,
    order_id: &str,
    order: Option<&SwapOrder>,
    swap: Option<&SwapState>,
    now: u32,
) -> (r: Result<Option<BtcRefundTerms>, TauriError>)
    ensures
        match refund_fault(
            node_running,
            order_id@,
            order_if_any(order),
            swap_if_any(swap),
            now,
        ) {
            Some(f) => r matches Err(e) && e@ == f,
            None => if other_side_funded(swap_if_any(swap)) {
                let s = swap->0@;
                &&& r matches Ok(Some(t))
                &&& t.hash_lock@ == s.hash_lock
                &&& Some(t.funding_txid@) == s.btc_funding_txid
                &&& t.recipient@ == (match s.maker_btc_address {
                    Some(a) => a,
                    None => ""@,
                })
                &&& Some(t.refund_address@) == s.taker_btc_refund_address
                &&& t.amount == s.btc_amount
                &&& t.expiry == s.btc_expiry
            } else {
                r matches Ok(None)
            },
        },
{
    if !node_running {
        return Err(node_not_running());
    }
    let o: &SwapOrder = match order {
        Some(o) => o,
        None => {
            return Err(no_order(order_id));
        },
    };
    if now < o.expiry {
        return Err(bad_input("Swap has not expired yet"));
    }
    let s: &SwapState = match swap {
        Some(s) => s,
        None => {
            return Ok(None);
        },
    };
    let funding_txid: [u8; 32] = match s.btc_funding_txid {
        Some(t) => t,
        None => {
            return Ok(None);
        },
    };
    if s.btc_expiry == 0 {
        return Ok(None);
    }
    let refund_address: String = match &s.taker_btc_refund_address {
        Some(a) => a.clone(),
        None => {
            return Err(bad_input("Taker BTC refund address not recorded"));
        },
    };
    let recipient: String = match &s.maker_btc_address {
        Some(a) => a.clone(),
        None => "".to_owned(),
    };
    Ok(
        Some(
            BtcRefundTerms {
                hash_lock: s.hash_lock,
                funding_txid,
                recipient,
                refund_address,
                amount: s.btc_amount,
                expiry: s.btc_expiry,
            },
        ),
    )
}

/// What is answered when a swap was refunded: the transaction on the other side, or the order
/// where there is none.
pub fn refund_action(order_id: &str, order: &SwapOrder, refund_txid: Option<[u8; 32]>) -> (r:
    SwapActionResult)
    ensures
        r.order_id@ == order_id@,
        r.txid@ == hex_text(
            match refund_txid {
                Some(t) => t@,
                None => order@.order_id,
            },
        ),
        r.status@ == status_name(SwapStatus::Refunded),
{
    match refund_txid {
        Some(t) => swap_action(order_id, &t, SwapStatus::Refunded),
        None => swap_action(order_id, &order.order_id, SwapStatus::Refunded),
    }
}

/// A swap whose other side was recorded as funded can be claimed there once the secret is known,
/// on the terms that were recorded.
pub proof fn law_funded_swap_can_be_claimed(
    s: Swap,
    id: Seq<char>,
    txid: Seq<u8>,
    maker: Seq<char>,
    refund: Seq<char>,
    amount: u64,
    expiry: u32,
    secret: Seq<u8>,
)
    requires
        expiry > 0,
    ensures
        ({
            let funded = swap_funded(s, txid, maker, refund, amount, expiry);
            &&& btc_claim_fault(true, id, Some(funded), Some(secret)) is None
            &&& other_side_funded(Some(funded))
            &&& forall|o: Order, now: u32|
                now >= o.expiry ==> #[trigger] refund_fault(true, id, Some(o), Some(funded), now)
                    is None
        }),
{
}

} // verus!
