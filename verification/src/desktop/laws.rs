//! What holds of the answers to requests.
use crate::crypto::sha256_of;
use crate::crypto::sha512_of;
use crate::desktop::claim::claim_fault;
use crate::desktop::claim::claim_tx;
use crate::desktop::claim::signature_code;
use crate::desktop::claim::ClaimFacts;
use crate::desktop::claim::LEGACY_COIN;
use crate::desktop::error::TauriFault;
use crate::desktop::node::confirmation_count;
use crate::desktop::node::is_plan_for;
use crate::desktop::node::network_for;
use crate::desktop::node::seed_for;
use crate::desktop::node::verb_for;
use crate::desktop::node::NodePlan;
use crate::desktop::node::DEFAULT_TX_LIMIT;
use crate::desktop::node::MAX_PROBE_CANDIDATES;
use crate::desktop::staking::start_fault;
use crate::desktop::swap::are_match_terms;
use crate::desktop::swap::blank;
use crate::desktop::swap::cancel_fault;
use crate::desktop::swap::funding_follows;
use crate::desktop::swap::is_best_funding;
use crate::desktop::swap::is_white;
use crate::desktop::swap::match_fault;
use crate::desktop::swap::order_fault;
use crate::desktop::swap::shows_order;
use crate::desktop::swap::standing_name;
use crate::desktop::swap::time_left;
use crate::desktop::swap::DexOrderResult;
use crate::desktop::swap::FundingStage;
use crate::desktop::swap::FundingStep;
use crate::desktop::swap::MatchRequest;
use crate::desktop::swap::MatchTerms;
use crate::desktop::swap::Order;
use crate::desktop::swap::OrderRequest;
use crate::desktop::swap::Standing;
use crate::desktop::swap::SwapOrder;
use crate::desktop::swap::BTC_FEE_SATOSHIS;
use crate::desktop::swap::ORDER_LOCKTIME;
use crate::desktop::swap::VTR_FEE_SATOSHIS;
use crate::desktop::swap_steps::btc_claim_fault;
use crate::desktop::swap_steps::btc_fund_fault;
use crate::desktop::swap_steps::fresh_swap;
use crate::desktop::swap_steps::known_preimage;
use crate::desktop::swap_steps::other_side_funded;
use crate::desktop::swap_steps::preimage_in;
use crate::desktop::swap_steps::refund_fault;
use crate::desktop::swap_steps::status_name;
use crate::desktop::swap_steps::swap_funded;
use crate::desktop::swap_steps::vtr_claim_fault;
use crate::desktop::swap_steps::Swap;
use crate::desktop::swap_steps::SwapStatus;
use crate::desktop::torrents::shows_session;
use crate::desktop::torrents::source_meta;
use crate::desktop::torrents::TorrentResult;
use crate::desktop::wallet::MIN_PASSPHRASE;
use crate::desktop::wallet::WALLET_VERSION;
use crate::encoding::base64_code;
use crate::encoding::law_base64_reads_back;
use crate::spv::stake::TxType;
use crate::text::hex_text;
use crate::text::law_hex_roundtrip;
use crate::torrent::magnet::link_in;
use crate::torrent::metainfo::metainfo_in;
use crate::torrent::metainfo::texts;
use crate::torrent::session::Session;
use crate::torrent::session::SessionState;
use vstd::prelude::*;
use vstd::string::*;
use vstd::utf8::encode_utf8;

verus! {

/// Limits and fees: passphrases have eight bytes, ten seeds are tried, fifty transactions are shown.
/// Ten thousand smallest units are paid on this chain and a thousand on the other; an order stands a
/// day.
pub proof fn law_limits_and_fees()
    ensures
        MIN_PASSPHRASE == 8,
        WALLET_VERSION == 2,
        MAX_PROBE_CANDIDATES == 10,
        DEFAULT_TX_LIMIT == 50,
        VTR_FEE_SATOSHIS == 10_000,
        BTC_FEE_SATOSHIS == 1_000,
        ORDER_LOCKTIME == 24 * 60 * 60,
        LEGACY_COIN == 100_000_000,
{
}

// ---- the node ----

/// A node of the main network takes no seeds from a request and has no rules or directory of its own;
/// one of the test network has all of them.
pub proof fn law_networks_are_kept_apart(
    p: NodePlan,
    name: Option<Seq<char>>,
    seeds: Option<Seq<Seq<char>>>,
)
    requires
        is_plan_for(p, network_for(name), seeds),
    ensures
        name == Some("testnet"@) ==> p.network@ == "vtorrent-regtest"@ && p.regtest
            && p.regtest_fast_stake && p.isolated && (p.data_subdir matches Some(d) && d@
            == "testnet"@),
        name == Some("testnet"@) ==> (seeds matches Some(s) ==> texts(p.extra_seeds@) == s),
        name == Some("testnet"@) && seeds is None ==> p.extra_seeds@.len() == 0,
        name != Some("testnet"@) ==> p.network@ == "vtorrent-mainnet"@ && !p.regtest
            && !p.regtest_fast_stake && !p.isolated && p.data_subdir is None
            && p.extra_seeds@.len() == 0,
{
    crate::desktop::node::law_test_network_is_asked_for_by_name(name);
    assert(texts(p.extra_seeds@).len() == p.extra_seeds@.len());
}

/// The seed of the other wallet is that of the words. Without words it is the digest of a label and
/// the key, and without a key there is none.
pub proof fn law_seed_of_the_other_wallet(words: Seq<u8>, key: Seq<char>)
    ensures
        seed_for(Some(words), Some(key)) == Some(words),
        seed_for(Some(words), None) == Some(words),
        seed_for(None, Some(key)) == Some(
            sha512_of(encode_utf8("vtorrent-ng-btc-seed-v1"@) + encode_utf8(key)),
        ),
        seed_for(None, None) is None,
{
}

/// A transaction in the best block is confirmed once, and once more by each block above it.
pub proof fn law_confirmations(best: u32, height: u32)
    ensures
        best < height ==> confirmation_count(best, height) == 1,
        best == height ==> confirmation_count(best, height) == 1,
        height < best < u32::MAX ==> confirmation_count(best, height) == confirmation_count(
            (best - 1) as u32,
            height,
        ) + 1,
        confirmation_count(best, height) <= u32::MAX,
{
}

/// What is received or staked is named so; anything else was sent.
pub proof fn law_verbs(direction: Seq<char>)
    ensures
        verb_for("receive"@) == "Received"@,
        verb_for("stake"@) == "Staked"@,
        direction != "receive"@ && direction != "stake"@ ==> verb_for(direction) == "Sent"@,
{
    reveal_strlit("receive");
    reveal_strlit("stake");
    assert("receive"@.len() == 7 && "stake"@.len() == 5);
}

/// Staking starts exactly if there is an address, the node runs and the wallet is unlocked.
pub proof fn law_when_staking_starts(address: Seq<char>, running: bool, unlocked: bool)
    ensures
        start_fault(address, running, unlocked) is None <==> address.len() > 0 && running && unlocked,
        address.len() > 0 && running && !unlocked ==> start_fault(address, running, unlocked) == Some(
            TauriFault::WalletLocked,
        ),
        address.len() > 0 && !running ==> start_fault(address, running, unlocked) == Some(
            TauriFault::NodeError("Node not running"@),
        ),
        address.len() == 0 ==> start_fault(address, running, unlocked) == Some(
            TauriFault::NodeError("Staking address is required"@),
        ),
{
}

// ---- claims ----

/// The first byte of a signature tells which of four keys it is, from 27 on, and from 31 on that the
/// short form of the key counts. The signature follows.
pub proof fn law_signature_of_a_claim(id: u8, sig: Seq<u8>, compressed: bool)
    requires
        id <= 3,
    ensures
        ({
            let s = signature_code(id, sig, compressed);
            &&& s.len() == sig.len() + 1
            &&& 27 <= s[0] <= 34
            &&& (s[0] - 27) % 4 == id
            &&& s[0] >= 31 <==> compressed
            &&& s.skip(1) == sig
        }),
{
    assert(signature_code(id, sig, compressed).skip(1) =~= sig);
}

/// A claim is handed in exactly if there is something to claim, the node runs, the address was not
/// claimed, and the recipient can be paid.
pub proof fn law_when_a_claim_is_handed_in(f: ClaimFacts)
    ensures
        claim_fault(f) is None <==> f.claimable > 0 && f.node_running && !f.already_claimed
            && f.script_pubkey is Ok,
        f.claimable > 0 && f.node_running && f.already_claimed ==> claim_fault(f) == Some(
            TauriFault::InvalidInput("Address "@ + f.address@ + " has already been claimed"@),
        ),
{
}

/// What a claim holds besides its payment.
pub proof fn law_what_a_claim_holds(address: Seq<char>, claimable: u64, script: Seq<u8>, sig: Seq<u8>)
    ensures
        ({
            let t = claim_tx(address, claimable, script, sig);
            &&& t.version == 1 && t.lock_time == 0
            &&& t.tx_type == TxType::LegacyClaim
            &&& t.inputs.len() == 0
            &&& t.outputs.len() == 1 && t.outputs[0].value == claimable
                && t.outputs[0].script_pubkey == script
            &&& t.claim_address == Some(address)
            &&& t.claim_signature == Some(sig)
        }),
{
}

// ---- torrents ----

/// A session is shown as it is; nothing is paid for it.
pub proof fn law_session_is_shown_as_it_is(r: TorrentResult, s: Session)
    requires
        shows_session(r, s),
    ensures
        r.id@ == s.id,
        r.name@ == s.metainfo.name,
        r.info_hash@ == hex_text(s.metainfo.info_hash),
        s.state == SessionState::Seeding ==> r.state@ == "Seeding"@,
        s.state == SessionState::Downloading ==> r.state@ == "Downloading"@,
        s.state == SessionState::Queued ==> r.state@ == "Queued"@,
        r.size_bytes == s.metainfo.total_size,
        r.downloaded_bytes == s.bytes_downloaded,
        r.uploaded_bytes == s.bytes_uploaded,
        r.download_speed == s.download_speed,
        r.upload_speed == s.upload_speed,
        r.peer_count == s.peers.len(),
        r.vtr_paid_satoshis == 0,
{
}

/// A torrent file is added through its base64 text; a magnet link as it stands.
pub proof fn law_sources_of_torrents(file: Seq<u8>, source: Seq<char>)
    requires
        encode_utf8(source) == base64_code(file),
    ensures
        source_meta(source, false) is Ok <==> metainfo_in(file) is Ok,
        metainfo_in(file) matches Ok(m) ==> source_meta(source, false) == Ok::<
            crate::torrent::metainfo::Meta,
            TauriFault,
        >(m),
        source_meta(source, true) is Ok <==> link_in(encode_utf8(source)) is Ok,
{
    law_base64_reads_back(file);
}

// ---- orders ----

/// The characters that count as white space, by their numbers.
pub proof fn law_white_space(c: char)
    ensures
        is_white(c) <==> {
            let n = c as u32;
            ||| 9 <= n <= 13
            ||| n == 32
            ||| n == 0x85
            ||| n == 0xa0
            ||| n == 0x1680
            ||| 0x2000 <= n <= 0x200a
            ||| n == 0x2028
            ||| n == 0x2029
            ||| n == 0x202f
            ||| n == 0x205f
            ||| n == 0x3000
        },
{
}

/// A text is blank exactly if each of its parts is; a letter or digit makes it not blank.
pub proof fn law_blank_texts(a: Seq<char>, b: Seq<char>)
    ensures
        blank(Seq::empty()),
        blank(a + b) <==> blank(a) && blank(b),
        forall|i: int| 0 <= i < a.len() && ('!' <= #[trigger] a[i] <= '~') ==> !blank(a),
{
    if blank(a + b) {
        assert forall|i: int| 0 <= i < a.len() implies is_white(#[trigger] a[i]) by {
            assert((a + b)[i] == a[i]);
        }
        assert forall|i: int| 0 <= i < b.len() implies is_white(#[trigger] b[i]) by {
            assert((a + b)[a.len() + i] == b[i]);
        }
    }
}

/// An order is placed exactly if the wallet is unlocked, both amounts and the wanted coins are given,
/// the addresses are valid, and a day is a time that a contract can be locked.
pub proof fn law_when_an_order_is_placed(q: OrderRequest)
    ensures
        order_fault(q) is None <==> {
            &&& q.wallet_unlocked
            &&& q.vtr_amount > 0
            &&& q.target_amount > 0
            &&& !blank(q.target_asset@)
            &&& q.maker_address_valid
            &&& q.maker_btc_address is None || q.maker_btc_address_valid
            &&& q.min_locktime <= 86_400 <= q.max_locktime
        },
        !q.wallet_unlocked ==> order_fault(q) == Some(TauriFault::WalletLocked),
{
}

/// An order is cancelled exactly by the wallet with the address of its maker.
pub proof fn law_only_the_maker_cancels(unlocked: bool, wallet: Option<Seq<char>>, order: Option<Order>)
    ensures
        cancel_fault(unlocked, wallet, order) is None <==> unlocked && wallet is Some && order is Some
            && order->0.maker_address == wallet->0,
        !unlocked ==> cancel_fault(unlocked, wallet, order) == Some(TauriFault::WalletLocked),
{
}

/// An order is shown as it is.
pub proof fn law_order_is_shown_as_it_is(r: DexOrderResult, o: Order)
    requires
        shows_order(r, o),
    ensures
        r.id@ == hex_text(o.order_id),
        r.maker_address@ == o.maker_address,
        r.offer_asset@ == "VTR"@ && r.offer_amount_satoshis == o.vtr_amount,
        r.request_asset@ == o.target_asset && r.request_amount_satoshis == o.target_amount,
        o.status == Standing::Open ==> r.status@ == "Open"@,
        o.status == Standing::Cancelled ==> r.status@ == "Cancelled"@,
        o.status matches Standing::Other(n) ==> r.status@ == n,
        r.expires_at == o.expiry,
        r.created_at == 0,
{
}

/// The names of where swaps stand.
pub proof fn law_names_of_standings()
    ensures
        standing_name(Standing::Open) == "Open"@,
        standing_name(Standing::Cancelled) == "Cancelled"@,
        status_name(SwapStatus::Pending) == "Pending"@,
        status_name(SwapStatus::BtcFunded) == "BtcFunded"@,
        status_name(SwapStatus::Claimed) == "Claimed"@,
        status_name(SwapStatus::Refunded) == "Refunded"@,
{
}

/// A payment is funded by the most valuable output where that suffices; where none suffices there is
/// none. Of equal ones the last is taken.
pub proof fn law_greatest_output_funds(values: Seq<u64>, needed: u64, r: Option<usize>, j: int)
    requires
        is_best_funding(values, needed, r),
        0 <= j < values.len(),
    ensures
        values[j] >= needed ==> r is Some,
        r matches Some(i) ==> i < values.len() && values[i as int] >= needed && values[j]
            <= values[i as int] && (j > i ==> values[j] < values[i as int]),
{
}

/// An order is matched exactly by its maker's unlocked wallet while it is open, for a taker with a
/// valid address, as long as it stands for as long as a contract must be locked.
pub proof fn law_when_an_order_is_matched(q: MatchRequest)
    ensures
        match_fault(q) is None <==> {
            &&& q.node_running && q.wallet_unlocked && q.has_key
            &&& !blank(q.taker_address@) && q.taker_fault is None
            &&& q.wallet_address is Some
            &&& q.order is Some
            &&& (q.order->0)@.status == Standing::Open
            &&& (q.order->0)@.maker_address == (q.wallet_address->0)@
            &&& (q.order->0).expiry - q.now >= q.min_locktime || q.min_locktime == 0
        },
{
}

/// A contract is locked until the order ends, and its output must be worth the offer and the fee. A
/// secret that the order has is kept.
pub proof fn law_terms_of_a_match(t: MatchTerms, o: SwapOrder, now: u32)
    requires
        are_match_terms(t, o, now),
    ensures
        now <= o.expiry ==> now + t.locktime == o.expiry,
        now > o.expiry ==> t.locktime == 0,
        o.vtr_amount + 10_000 <= u64::MAX ==> t.needed == o.vtr_amount + 10_000,
        o.preimage is Some && o.hash_lock is Some ==> t.secret == Some(
            (o.preimage->0, o.hash_lock->0),
        ),
        o.preimage is None || o.hash_lock is None ==> t.secret is None,
        time_left(o.expiry, now) == t.locktime,
{
}

/// An order is reserved, then its transaction handed in, then it is marked. What fails after it was
/// reserved and before the transaction was taken gives the reservation back.
pub proof fn law_stages_of_funding(r: FundingStep, stage: FundingStage, why: Option<Seq<char>>, id: Seq<char>)
    requires
        funding_follows(r, stage, why, id),
    ensures
        stage == FundingStage::Reserve && why is None ==> r == FundingStep::Go(FundingStage::Admit),
        stage == FundingStage::Admit && why is None ==> r == FundingStep::Go(FundingStage::Mark),
        stage == FundingStage::Mark && why is None ==> r == FundingStep::Go(FundingStage::Funded),
        stage == FundingStage::Reserve && why is Some ==> r is Fail,
        stage == FundingStage::Admit && why is Some ==> r is ReleaseAndFail,
        stage == FundingStage::Mark && why is Some ==> r is Fail,
        stage == FundingStage::Funded ==> r == FundingStep::Go(FundingStage::Funded),
{
}

// ---- the steps of a swap ----

/// Nothing is recorded of a new swap. Funding records the transaction, both addresses, the amount and
/// the end, and leaves the rest.
pub proof fn law_what_is_recorded(
    s: Swap,
    id: Seq<u8>,
    lock: Seq<u8>,
    txid: Seq<u8>,
    maker: Seq<char>,
    refund: Seq<char>,
    amount: u64,
    expiry: u32,
)
    ensures
        ({
            let n = fresh_swap(id, lock);
            &&& n.order_id == id && n.hash_lock == lock
            &&& n.preimage is None && n.btc_funding_txid is None
            &&& n.maker_btc_address is None && n.taker_btc_refund_address is None
            &&& n.btc_amount == 0 && n.btc_expiry == 0
            &&& n.status == SwapStatus::Pending
        }),
        ({
            let f = swap_funded(s, txid, maker, refund, amount, expiry);
            &&& f.btc_funding_txid == Some(txid)
            &&& f.maker_btc_address == Some(maker)
            &&& f.taker_btc_refund_address == Some(refund)
            &&& f.btc_amount == amount && f.btc_expiry == expiry
            &&& f.status == SwapStatus::BtcFunded
            &&& f.order_id == s.order_id && f.hash_lock == s.hash_lock && f.preimage == s.preimage
        }),
{
}

/// A secret in hexadecimal is read back; it must have 32 bytes.
pub proof fn law_secrets_are_read_back(b: Seq<u8>)
    ensures
        b.len() == 32 ==> preimage_in(hex_text(b)) == Ok::<Seq<u8>, TauriFault>(b),
        b.len() != 32 ==> preimage_in(hex_text(b)) == Err::<Seq<u8>, TauriFault>(
            TauriFault::InvalidInput("Preimage must be 32 bytes"@),
        ),
{
    law_hex_roundtrip(b);
}

/// This side is claimed exactly with a key and the secret whose digest the order names, once the order
/// is funded and has a taker.
pub proof fn law_when_this_side_is_claimed(
    running: bool,
    id: Seq<char>,
    secret: Seq<u8>,
    key: Seq<char>,
    order: Option<Order>,
)
    requires
        secret.len() == 32,
    ensures
        vtr_claim_fault(running, id, hex_text(secret), key, order) is None <==> {
            &&& running
            &&& key.len() > 0
            &&& order matches Some(o)
            &&& o.hash_lock == Some(sha256_of(secret))
            &&& o.funding_txid is Some
            &&& o.taker_address is Some
        },
{
    law_hex_roundtrip(secret);
}

/// The other side is funded exactly for an order with a digest, an address and an amount that, with
/// the fee, is a number.
pub proof fn law_when_the_other_side_is_funded(running: bool, id: Seq<char>, order: Option<Order>)
    ensures
        btc_fund_fault(running, id, order) is None <==> {
            &&& running
            &&& order matches Some(o)
            &&& o.hash_lock is Some
            &&& o.maker_btc_address is Some
            &&& 0 < o.target_amount
            &&& o.target_amount + 1_000 <= u64::MAX
        },
{
}

/// The other side is claimed exactly if the secret is known, from the record first, and the funding
/// was recorded.
pub proof fn law_when_the_other_side_is_claimed(
    running: bool,
    id: Seq<char>,
    swap: Option<Swap>,
    in_order: Option<Seq<u8>>,
)
    ensures
        btc_claim_fault(running, id, swap, in_order) is None <==> {
            &&& running
            &&& swap matches Some(s)
            &&& s.preimage is Some || in_order is Some
            &&& s.btc_funding_txid is Some
            &&& s.maker_btc_address is Some
            &&& s.taker_btc_refund_address is Some
        },
        swap matches Some(s) ==> (s.preimage is Some ==> known_preimage(s, in_order) == s.preimage) && (
        s.preimage is None ==> known_preimage(s, in_order) == in_order),
{
}

/// A swap is refunded exactly when its order has ended, and where its other side was funded only with
/// an address to refund.
pub proof fn law_when_a_swap_is_refunded(
    running: bool,
    id: Seq<char>,
    order: Option<Order>,
    swap: Option<Swap>,
    now: u32,
)
    ensures
        refund_fault(running, id, order, swap, now) is None <==> {
            &&& running
            &&& order matches Some(o)
            &&& now >= o.expiry
            &&& other_side_funded(swap) ==> (swap matches Some(s) && s.taker_btc_refund_address is Some)
        },
        other_side_funded(swap) <==> (swap matches Some(s) && s.btc_funding_txid is Some && s.btc_expiry
            != 0),
        running ==> (order matches Some(o) ==> now < o.expiry ==> refund_fault(
            running,
            id,
            order,
            swap,
            now,
        ) == Some(TauriFault::InvalidInput("Swap has not expired yet"@))),
{
}

} // verus!
