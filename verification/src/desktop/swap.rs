//! Swaps of coins between two chains: orders, and the steps by which an order is carried out.
use crate::desktop::error::bad_input;
use crate::desktop::error::bad_input_about;
use crate::desktop::error::node_not_running;
use crate::desktop::error::TauriError;
use crate::desktop::error::TauriFault;
use crate::text::decimal;
use crate::text::hex_encode;
use crate::text::hex_text;
use crate::text::push_decimal;
use crate::text::same_text;
use crate::torrent::metainfo::text_option;
use vstd::prelude::*;
use vstd::string::*;

verus! {

/// The fee for funding and claiming on this chain.
pub const VTR_FEE_SATOSHIS: u64 = 10_000;

/// The fee for funding, claiming and refunding on the other chain.
pub const BTC_FEE_SATOSHIS: u64 = 1_000;

/// How long an order stands, in seconds: a day.
pub const ORDER_LOCKTIME: u32 = 86_400;

// ---- texts ----

/// Whether a character is white space.
pub open spec fn is_white(c: char) -> bool {
    ||| '\u{9}' <= c <= '\u{d}'
    ||| c == '\u{20}'
    ||| c == '\u{85}'
    ||| c == '\u{a0}'
    ||| c == '\u{1680}'
    ||| '\u{2000}' <= c <= '\u{200a}'
    ||| c == '\u{2028}'
    ||| c == '\u{2029}'
    ||| c == '\u{202f}'
    ||| c == '\u{205f}'
    ||| c == '\u{3000}'
}

/// Whether a text holds nothing but white space.
pub open spec fn blank(s: Seq<char>) -> bool {
    forall|i: int| 0 <= i < s.len() ==> is_white(#[trigger] s[i])
}

/// Whether a text holds nothing but white space.
pub fn is_blank(s: &str) -> (r: bool)
    ensures
        r == blank(s@),
{
    let n: usize = s.unicode_len();
    let mut i: usize = 0;
    while i < n
        invariant
            i <= n,
            n == s@.len(),
            forall|k: int| 0 <= k < i ==> is_white(#[trigger] s@[k]),
        decreases n - i,
    {
        let c: char = s.get_char(i);
        let white: bool = ('\u{9}' <= c && c <= '\u{d}') || c == '\u{20}' || c == '\u{85}' || c
            == '\u{a0}' || c == '\u{1680}' || ('\u{2000}' <= c && c <= '\u{200a}') || c
            == '\u{2028}' || c == '\u{2029}' || c == '\u{202f}' || c == '\u{205f}' || c
            == '\u{3000}';
        if !white {
            assert(!is_white(s@[i as int]));
            return false;
        }
        i = i + 1;
    }
    true
}

// ---- orders ----

/// Where an order stands.
#[derive(Debug, Clone)]
pub enum OrderStatus {
    /// It can be matched.
    Open,
    /// Its maker took it back.
    Cancelled,
    /// It is being carried out, or was. The name says how far.
    Other(String),
}

/// An [`OrderStatus`] over sequences.
#[verifier::ext_equal]
pub enum Standing {
    Open,
    Cancelled,
    Other(Seq<char>),
}

impl View for OrderStatus {
    type V = Standing;

    open spec fn view(&self) -> Standing {
        match self {
            OrderStatus::Open => Standing::Open,
            OrderStatus::Cancelled => Standing::Cancelled,
            OrderStatus::Other(s) => Standing::Other(s@),
        }
    }
}

/// The name of a standing.
pub open spec fn standing_name(s: Standing) -> Seq<char> {
    match s {
        Standing::Open => "Open"@,
        Standing::Cancelled => "Cancelled"@,
        Standing::Other(n) => n,
    }
}

impl OrderStatus {
    /// The name of the status.
    pub fn name(&self) -> (r: String)
        ensures
            r@ == standing_name(self@),
    {
        match self {
            OrderStatus::Open => "Open".to_owned(),
            OrderStatus::Cancelled => "Cancelled".to_owned(),
            OrderStatus::Other(s) => s.clone(),
        }
    }
}

/// An offer of coins of this chain for coins of another.
#[derive(Debug, Clone)]
pub struct SwapOrder {
    /// Names the order.
    pub order_id: [u8; 32],
    /// Who offers.
    pub maker_address: String,
    /// Where the offerer is paid on the other chain.
    pub maker_btc_address: Option<String>,
    /// Who accepted.
    pub taker_address: Option<String>,
    /// What is offered.
    pub vtr_amount: u64,
    /// Which coins are wanted.
    pub target_asset: String,
    /// How much of them is wanted.
    pub target_amount: u64,
    /// When the order ends.
    pub expiry: u32,
    /// Where the order stands.
    pub status: OrderStatus,
    /// The digest of the secret.
    pub hash_lock: Option<[u8; 32]>,
    /// The secret.
    pub preimage: Option<[u8; 32]>,
    /// The transaction that funds the contract.
    pub funding_txid: Option<[u8; 32]>,
}

/// Bytes that may be absent.
pub open spec fn bytes_if_any(b: Option<[u8; 32]>) -> Option<Seq<u8>> {
    match b {
        Some(x) => Some(x@),
        None => None,
    }
}

/// What a [`SwapOrder`] says.
pub ghost struct Order {
    pub order_id: Seq<u8>,
    pub maker_address: Seq<char>,
    pub maker_btc_address: Option<Seq<char>>,
    pub taker_address: Option<Seq<char>>,
    pub vtr_amount: u64,
    pub target_asset: Seq<char>,
    pub target_amount: u64,
    pub expiry: u32,
    pub status: Standing,
    pub hash_lock: Option<Seq<u8>>,
    pub preimage: Option<Seq<u8>>,
    pub funding_txid: Option<Seq<u8>>,
}

impl View for SwapOrder {
    type V = Order;

    open spec fn view(&self) -> Order {
        Order {
            order_id: self.order_id@,
            maker_address: self.maker_address@,
            maker_btc_address: text_option(self.maker_btc_address),
            taker_address: text_option(self.taker_address),
            vtr_amount: self.vtr_amount,
            target_asset: self.target_asset@,
            target_amount: self.target_amount,
            expiry: self.expiry,
            status: self.status@,
            hash_lock: bytes_if_any(self.hash_lock),
            preimage: bytes_if_any(self.preimage),
            funding_txid: bytes_if_any(self.funding_txid),
        }
    }
}

/// An order that may be absent.
pub open spec fn order_if_any(o: Option<&SwapOrder>) -> Option<Order> {
    match o {
        Some(x) => Some(x@),
        None => None,
    }
}

/// Whether an order is shown: it is open, or a swap is under way for it.
pub fn order_is_listed(order: &SwapOrder, has_swap: bool) -> (r: bool)
    ensures
        r == (order@.status == Standing::Open || has_swap),
{
    match order.status {
        OrderStatus::Open => true,
        _ => has_swap,
    }
}

/// What is shown of an order. The rate is left to whoever shows it.
#[derive(Debug, Clone)]
pub struct DexOrderResult {
    /// Names the order.
    pub id: String,
    /// Who offers.
    pub maker_address: String,
    /// What is offered.
    pub offer_amount_satoshis: u64,
    /// Which coins are offered.
    pub offer_asset: String,
    /// How much is wanted.
    pub request_amount_satoshis: u64,
    /// Which coins are wanted.
    pub request_asset: String,
    /// Where the order stands.
    pub status: String,
    /// When the order was made.
    pub created_at: u32,
    /// When the order ends.
    pub expires_at: u32,
}

/// Whether `r` shows the order `o`.
pub open spec fn shows_order(r: DexOrderResult, o: Order) -> bool {
    &&& r.id@ == hex_text(o.order_id)
    &&& r.maker_address@ == o.maker_address
    &&& r.offer_amount_satoshis == o.vtr_amount
    &&& r.offer_asset@ == "VTR"@
    &&& r.request_amount_satoshis == o.target_amount
    &&& r.request_asset@ == o.target_asset
    &&& r.status@ == standing_name(o.status)
    &&& r.created_at == 0
    &&& r.expires_at == o.expiry
}

/// What is shown of an order.
pub fn order_result(order: &SwapOrder) -> (r: DexOrderResult)
    ensures
        shows_order(r, order@),
{
    DexOrderResult {
        id: hex_encode(order.order_id.as_slice()),
        maker_address: order.maker_address.clone(),
        offer_amount_satoshis: order.vtr_amount,
        offer_asset: "VTR".to_owned(),
        request_amount_satoshis: order.target_amount,
        request_asset: order.target_asset.clone(),
        status: order.status.name(),
        created_at: 0,
        expires_at: order.expiry,
    }
}

/// What is known of an order that is to be placed.
#[derive(Debug, Clone)]
pub struct OrderRequest {
    /// Whether the wallet is unlocked.
    pub wallet_unlocked: bool,
    /// Who offers, and whether that is an address.
    pub maker_address: String,
    pub maker_address_valid: bool,
    /// Where the offerer is paid on the other chain, and whether that is an address.
    pub maker_btc_address: Option<String>,
    pub maker_btc_address_valid: bool,
    /// What is offered.
    pub vtr_amount: u64,
    /// Which coins are wanted.
    pub target_asset: String,
    /// How much of them is wanted.
    pub target_amount: u64,
    /// The shortest and the longest time that a contract can be locked.
    pub min_locktime: u32,
    pub max_locktime: u32,
}

/// Why an order is not placed, where it is not.
pub open spec fn order_fault(q: OrderRequest) -> Option<TauriFault> {
    if !q.wallet_unlocked {
        Some(TauriFault::WalletLocked)
    } else if q.vtr_amount == 0 || q.target_amount == 0 {
        Some(
            TauriFault::InvalidInput(
                "DEX order amounts must be greater than zero (offer: "@ + decimal(
                    q.vtr_amount as nat,
                ) + " sats, request: "@ + decimal(q.target_amount as nat) + " sats)"@,
            ),
        )
    } else if blank(q.target_asset@) {
        Some(
            TauriFault::InvalidInput(
                "Requested asset is required — specify the target asset (e.g. \"BTC\")"@,
            ),
        )
    } else if !q.maker_address_valid {
        Some(TauriFault::InvalidInput("Invalid maker address: "@ + q.maker_address@))
    } else if q.maker_btc_address is Some && !q.maker_btc_address_valid {
        Some(
            TauriFault::InvalidInput(
                "Invalid maker BTC address: "@ + (q.maker_btc_address->0)@,
            ),
        )
    } else if !(q.min_locktime <= ORDER_LOCKTIME <= q.max_locktime) {
        Some(TauriFault::InvalidInput("DEX order expiry outside valid range"@))
    } else {
        None
    }
}

/// Decides whether an order can be placed.
pub fn check_order(q: &OrderRequest) -> (r: Result<(), TauriError>)
    ensures
        match order_fault(*q) {
            Some(f) => r matches Err(e) && e@ == f,
            None => r is Ok,
        },
{
    if !q.wallet_unlocked {
        return Err(TauriError::WalletLocked);
    }
    if q.vtr_amount == 0 || q.target_amount == 0 {
        let mut m: String = "DEX order amounts must be greater than zero (offer: ".to_owned();
        push_decimal(&mut m, q.vtr_amount);
        m.append(" sats, request: ");
        push_decimal(&mut m, q.target_amount);
        m.append(" sats)");
        return Err(TauriError::InvalidInput(m));
    }
    if is_blank(q.target_asset.as_str()) {
        return Err(
            bad_input("Requested asset is required — specify the target asset (e.g. \"BTC\")"),
        );
    }
    if !q.maker_address_valid {
        return Err(bad_input_about("Invalid maker address: ", q.maker_address.as_str()));
    }
    if let Some(a) = &q.maker_btc_address {
        if !q.maker_btc_address_valid {
            return Err(bad_input_about("Invalid maker BTC address: ", a.as_str()));
        }
    }
    if ORDER_LOCKTIME < q.min_locktime || ORDER_LOCKTIME > q.max_locktime {
        return Err(bad_input("DEX order expiry outside valid range"));
    }
    Ok(())
}

/// Why an order is not cancelled, where it is not.
pub open spec fn cancel_fault(
    unlocked: bool,
    wallet_address: Option<Seq<char>>,
    order: Option<Order>,
) -> Option<TauriFault> {
    if !unlocked {
        Some(TauriFault::WalletLocked)
    } else {
        match wallet_address {
            None => Some(TauriFault::Internal("Change address not set"@)),
            Some(a) => if order is Some && order->0.maker_address == a {
                None
            } else {
                Some(TauriFault::Unauthorized("Only the maker may cancel this order"@))
            },
        }
    }
}

/// Decides whether an order can be cancelled. Only its maker can. Tells whether it is open, in
/// which case its cancellation is to be recorded.
pub fn check_cancel(
    unlocked: bool,
    wallet_address: &Option<String>,
    order: Option<&SwapOrder>,
) -> (r: Result<bool, TauriError>)
    ensures
        match cancel_fault(unlocked, text_option(*wallet_address), order_if_any(order)) {
            Some(f) => r matches Err(e) && e@ == f,
            None => r == Ok::<bool, TauriError>(order->0@.status == Standing::Open),
        },
{
    if !unlocked {
        return Err(TauriError::WalletLocked);
    }
    let address: &String = match wallet_address {
        Some(a) => a,
        None => {
            return Err(TauriError::Internal("Change address not set".to_owned()));
        },
    };
    match order {
        Some(o) => {
            if same_text(o.maker_address.as_str(), address.as_str()) {
                return Ok(order_is_listed(o, false));
            }
        },
        None => {},
    }
    Err(TauriError::Unauthorized("Only the maker may cancel this order".to_owned()))
}

// ---- funding ----

/// Whether `r` is the output with the greatest value among those worth at least `needed`, the last
/// of those that are equal.
pub open spec fn is_best_funding(values: Seq<u64>, needed: u64, r: Option<usize>) -> bool {
    match r {
        Some(i) => {
            &&& i < values.len()
            &&& values[i as int] >= needed
            &&& forall|j: int|
                0 <= j < values.len() ==> #[trigger] values[j] < values[i as int] || (values[j]
                    == values[i as int] && j <= i)
        },
        None => forall|j: int| 0 <= j < values.len() ==> #[trigger] values[j] < needed,
    }
}

/// The output that funds a payment on its own: the one with the greatest value.
pub fn select_funding(values: &[u64], needed: u64) -> (r: Option<usize>)
    ensures
        is_best_funding(values@, needed, r),
{
    let mut best: Option<usize> = None;
    let mut i: usize = 0;
    while i < values.len()
        invariant
            i <= values.len(),
            match best {
                Some(b) => {
                    &&& b < i
                    &&& values@[b as int] >= needed
                    &&& forall|j: int|
                        0 <= j < i ==> #[trigger] values@[j] < values@[b as int] || (values@[j]
                            == values@[b as int] && j <= b)
                },
                None => forall|j: int| 0 <= j < i ==> #[trigger] values@[j] < needed,
            },
        decreases values.len() - i,
    {
        if values[i] >= needed {
            match best {
                None => {
                    best = Some(i);
                },
                Some(b) => {
                    if values[i] >= values[b] {
                        best = Some(i);
                    }
                },
            }
        }
        i = i + 1;
    }
    best
}

/// What is known when an order is to be matched.
#[derive(Debug, Clone)]
pub struct MatchRequest {
    /// Whether the node runs.
    pub node_running: bool,
    /// Whether the wallet is unlocked.
    pub wallet_unlocked: bool,
    /// Who accepts, and why that is no address where it is none.
    pub taker_address: String,
    pub taker_fault: Option<String>,
    /// Whether the wallet's key is at hand.
    pub has_key: bool,
    /// The wallet's address.
    pub wallet_address: Option<String>,
    /// The order.
    pub order_id: String,
    pub order: Option<SwapOrder>,
    /// The time.
    pub now: u32,
    /// The shortest time that a contract can be locked.
    pub min_locktime: u32,
}

/// How an order is matched.
#[derive(Debug, Clone)]
pub struct MatchTerms {
    /// How long the contract is locked.
    pub locktime: u32,
    /// The secret and its digest, where the order has both. Else they are made anew.
    pub secret: Option<([u8; 32], [u8; 32])>,
    /// What the output that funds the contract must be worth.
    pub needed: u64,
}

/// How long an order still stands.
pub open spec fn time_left(expiry: u32, now: u32) -> int {
    if expiry > now {
        expiry - now
    } else {
        0
    }
}

/// Why an order is not matched, where it is not.
pub open spec fn match_fault(q: MatchRequest) -> Option<TauriFault> {
    if !q.node_running {
        Some(TauriFault::NodeError("Node not running"@))
    } else if !q.wallet_unlocked {
        Some(TauriFault::WalletLocked)
    } else if blank(q.taker_address@) {
        Some(TauriFault::InvalidInput("Taker address is required"@))
    } else if q.taker_fault is Some {
        Some(TauriFault::InvalidInput("Invalid taker address: "@ + (q.taker_fault->0)@))
    } else if !q.has_key {
        Some(TauriFault::WalletLocked)
    } else if q.wallet_address is None {
        Some(TauriFault::Internal("Change address not set"@))
    } else if q.order is None || (q.order->0)@.status != Standing::Open {
        Some(TauriFault::NotFound("Order "@ + q.order_id@ + " not found or not open"@))
    } else if (q.order->0)@.maker_address != (q.wallet_address->0)@ {
        Some(
            TauriFault::Unauthorized("Only the maker's imported wallet may fund this order"@),
        )
    } else if time_left((q.order->0).expiry, q.now) < q.min_locktime {
        Some(TauriFault::InvalidInput("DEX order is too close to expiry to fund safely"@))
    } else {
        None
    }
}

/// Whether `t` are the terms on which the order `o` is matched at `now`.
pub open spec fn are_match_terms(t: MatchTerms, o: SwapOrder, now: u32) -> bool {
    &&& t.locktime == time_left(o.expiry, now)
    &&& t.secret == (match (o.preimage, o.hash_lock) {
        (Some(p), Some(h)) => Some((p, h)),
        _ => None,
    })
    &&& t.needed == (if o.vtr_amount + VTR_FEE_SATOSHIS > u64::MAX {
        u64::MAX as int
    } else {
        o.vtr_amount + VTR_FEE_SATOSHIS
    })
}

/// Decides whether an order can be matched, and on which terms.
pub fn check_match(q: &MatchRequest) -> (r: Result<MatchTerms, TauriError>)
    ensures
        match match_fault(*q) {
            Some(f) => r matches Err(e) && e@ == f,
            None => r matches Ok(t) && are_match_terms(t, q.order->0, q.now),
        },
{
    if !q.node_running {
        return Err(node_not_running());
    }
    if !q.wallet_unlocked {
        return Err(TauriError::WalletLocked);
    }
    if is_blank(q.taker_address.as_str()) {
        return Err(bad_input("Taker address is required"));
    }
    if let Some(why) = &q.taker_fault {
        return Err(bad_input_about("Invalid taker address: ", why.as_str()));
    }
    if !q.has_key {
        return Err(TauriError::WalletLocked);
    }
    let wallet_address: &String = match &q.wallet_address {
        Some(a) => a,
        None => {
            return Err(TauriError::Internal("Change address not set".to_owned()));
        },
    };
    let order: &SwapOrder = match &q.order {
        Some(o) => {
            if !order_is_listed(o, false) {
                return Err(order_not_open(q.order_id.as_str()));
            }
            o
        },
        None => {
            return Err(order_not_open(q.order_id.as_str()));
        },
    };
    if !same_text(order.maker_address.as_str(), wallet_address.as_str()) {
        return Err(
            TauriError::Unauthorized(
                "Only the maker's imported wallet may fund this order".to_owned(),
            ),
        );
    }
    let locktime: u32 = order.expiry.saturating_sub(q.now);
    if locktime < q.min_locktime {
        return Err(bad_input("DEX order is too close to expiry to fund safely"));
    }
    let secret: Option<([u8; 32], [u8; 32])> = match (order.preimage, order.hash_lock) {
        (Some(p), Some(h)) => Some((p, h)),
        _ => None,
    };
    Ok(
        MatchTerms {
            locktime,
            secret,
            needed: order.vtr_amount.saturating_add(VTR_FEE_SATOSHIS),
        },
    )
}

fn order_not_open(id: &str) -> (r: TauriError)
    ensures
        r@ == TauriFault::NotFound("Order "@ + id@ + " not found or not open"@),
{
    let mut m: String = "Order ".to_owned();
    m.append(id);
    m.append(" not found or not open");
    TauriError::NotFound(m)
}

/// How far funding an order has come.
#[derive(Debug, Clone, Copy, PartialEq, Eq, Structural)]
pub enum FundingStage {
    /// The order is to be reserved.
    Reserve,
    /// The funding transaction is to be handed in.
    Admit,
    /// The order is to be marked as matched.
    Mark,
    /// The order is funded.
    Funded,
}

/// What follows from a step of funding.
#[derive(Debug, Clone)]
pub enum FundingStep {
    /// Go on with this stage.
    Go(FundingStage),
    /// Stop, and tell why.
    Fail(TauriError),
    /// Give the reservation back, stop, and tell why.
    ReleaseAndFail(TauriError),
}

/// Whether `r` follows from a step that went well, or went wrong for the reason `why`.
pub open spec fn funding_follows(
    r: FundingStep,
    stage: FundingStage,
    why: Option<Seq<char>>,
    order_id: Seq<char>,
) -> bool {
    match stage {
        FundingStage::Reserve => match why {
            None => r == FundingStep::Go(FundingStage::Admit),
            Some(_) => r matches FundingStep::Fail(e) && e@ == TauriFault::NotFound(
                "Order "@ + order_id + " is no longer open"@,
            ),
        },
        FundingStage::Admit => match why {
            None => r == FundingStep::Go(FundingStage::Mark),
            Some(w) => r matches FundingStep::ReleaseAndFail(e) && e@ == TauriFault::InvalidInput(
                "Mempool rejected HTLC funding transaction: "@ + w,
            ),
        },
        FundingStage::Mark => match why {
            None => r == FundingStep::Go(FundingStage::Funded),
            Some(_) => r matches FundingStep::Fail(e) && e@ == TauriFault::Internal(
                "Funding reservation disappeared"@,
            ),
        },
        FundingStage::Funded => r == FundingStep::Go(FundingStage::Funded),
    }
}

/// Takes what came of a step of funding. An order whose transaction is rejected is given back.
pub fn funding_step(stage: FundingStage, why: Option<&str>, order_id: &str) -> (r: FundingStep)
    ensures
        funding_follows(
            r,
            stage,
            match why {
                Some(w) => Some(w@),
                None => None,
            },
            order_id@,
        ),
{
    match stage {
        FundingStage::Reserve => match why {
            None => FundingStep::Go(FundingStage::Admit),
            Some(_) => {
                let mut m: String = "Order ".to_owned();
                m.append(order_id);
                m.append(" is no longer open");
                FundingStep::Fail(TauriError::NotFound(m))
            },
        },
        FundingStage::Admit => match why {
            None => FundingStep::Go(FundingStage::Mark),
            Some(w) => FundingStep::ReleaseAndFail(
                bad_input_about("Mempool rejected HTLC funding transaction: ", w),
            ),
        },
        FundingStage::Mark => match why {
            None => FundingStep::Go(FundingStage::Funded),
            Some(_) => FundingStep::Fail(
                TauriError::Internal("Funding reservation disappeared".to_owned()),
            ),
        },
        FundingStage::Funded => FundingStep::Go(FundingStage::Funded),
    }
}

/// What is answered when an order was matched.
#[derive(Debug, Clone)]
pub struct MatchOrderResponse {
    pub order_id: String,
    pub maker_address: String,
    pub vtr_amount: u64,
    pub target_asset: String,
    pub target_amount: u64,
    pub hash_lock: String,
    pub expiry: u32,
    pub funding_txid: String,
}

/// What is answered when an order was matched.
pub fn match_response(order: &SwapOrder, hash_lock: &[u8; 32], funding_txid: &[u8; 32]) -> (r:
    MatchOrderResponse)
    ensures
        r.order_id@ == hex_text(order@.order_id),
        r.maker_address@ == order@.maker_address,
        r.vtr_amount == order@.vtr_amount,
        r.target_asset@ == order@.target_asset,
        r.target_amount == order@.target_amount,
        r.hash_lock@ == hex_text(hash_lock@),
        r.expiry == order@.expiry,
        r.funding_txid@ == hex_text(funding_txid@),
{
    MatchOrderResponse {
        order_id: hex_encode(order.order_id.as_slice()),
        maker_address: order.maker_address.clone(),
        vtr_amount: order.vtr_amount,
        target_asset: order.target_asset.clone(),
        target_amount: order.target_amount,
        hash_lock: hex_encode(hash_lock.as_slice()),
        expiry: order.expiry,
        funding_txid: hex_encode(funding_txid.as_slice()),
    }
}

} // verus!
