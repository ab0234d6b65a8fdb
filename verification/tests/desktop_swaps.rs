//! Swaps with another chain, and claims of old balances.

use secp256k1::ecdsa::{RecoverableSignature, RecoveryId};
use secp256k1::{Message, PublicKey, Secp256k1, SecretKey};
use sha2::{Digest, Sha256};
use vtorrent::crypto::hash160;
use vtorrent::desktop::claim::{
    check_claim_request, check_legacy_claim, claim_fee, claim_public_key, claim_result, claim_transaction,
    signature_bytes, submit_legacy_claim, ClaimFacts,
};
use vtorrent::desktop::error::TauriError;
use vtorrent::desktop::swap::{
    check_cancel, check_match, check_order, funding_step, is_blank, match_response, order_is_listed,
    order_result, select_funding, FundingStage, FundingStep, MatchRequest, OrderRequest, OrderStatus,
    SwapOrder,
};
use vtorrent::desktop::swap_steps::{
    check_btc_claim, check_btc_fund, check_refund, check_vtr_claim, claim_script_sig, parse_preimage,
    refund_action, swap_action, SwapState, SwapStatus,
};
use vtorrent::script::engine::{Engine, ScriptEnv};
use vtorrent::script::program::Script;
use vtorrent::script::standard::build_htlc;
use vtorrent::spv::stake::TxType;

const SECRET: [u8; 32] = [9; 32];

fn lock() -> [u8; 32] {
    Sha256::digest(SECRET).into()
}

fn order() -> SwapOrder {
    SwapOrder {
        order_id: [1; 32],
        maker_address: "VMaker".to_string(),
        maker_btc_address: Some("bc1maker".to_string()),
        taker_address: Some("VTaker".to_string()),
        vtr_amount: 500_000,
        target_asset: "BTC".to_string(),
        target_amount: 700,
        expiry: 100_000,
        status: OrderStatus::Open,
        hash_lock: Some(lock()),
        preimage: Some(SECRET),
        funding_txid: Some([4; 32]),
    }
}

fn text<T>(r: Result<T, TauriError>) -> String {
    match r {
        Ok(_) => "ok".to_string(),
        Err(e) => e.message(),
    }
}

#[test]
fn blank_texts_hold_white_space_only() {
    for s in ["", " ", "\t\r\n", "\u{a0}\u{2003}", "a", " a ", "\u{200b}"] {
        assert_eq!(is_blank(s), s.trim().is_empty(), "{s:?}");
    }
}

fn request() -> OrderRequest {
    OrderRequest {
        wallet_unlocked: true,
        maker_address: "VMaker".to_string(),
        maker_address_valid: true,
        maker_btc_address: Some("bc1maker".to_string()),
        maker_btc_address_valid: true,
        vtr_amount: 5,
        target_asset: "BTC".to_string(),
        target_amount: 6,
        min_locktime: 3_600,
        max_locktime: 604_800,
    }
}

#[test]
fn orders_are_checked() {
    assert!(check_order(&request()).is_ok());
    let with = |change: fn(&mut OrderRequest)| {
        let mut q = request();
        change(&mut q);
        text(check_order(&q))
    };
    assert_eq!(with(|q| q.wallet_unlocked = false), "Wallet is locked");
    assert_eq!(
        with(|q| q.vtr_amount = 0),
        "Invalid input: DEX order amounts must be greater than zero (offer: 0 sats, request: 6 sats)"
    );
    assert_eq!(
        with(|q| q.target_amount = 0),
        "Invalid input: DEX order amounts must be greater than zero (offer: 5 sats, request: 0 sats)"
    );
    assert!(with(|q| q.target_asset = " ".to_string()).starts_with("Invalid input: Requested asset"));
    assert_eq!(
        with(|q| q.maker_address_valid = false),
        "Invalid input: Invalid maker address: VMaker"
    );
    assert_eq!(
        with(|q| q.maker_btc_address_valid = false),
        "Invalid input: Invalid maker BTC address: bc1maker"
    );
    assert_eq!(
        with(|q| q.min_locktime = 86_401),
        "Invalid input: DEX order expiry outside valid range"
    );
    assert_eq!(
        with(|q| q.max_locktime = 86_399),
        "Invalid input: DEX order expiry outside valid range"
    );
}

#[test]
fn orders_are_shown_while_open_or_under_way() {
    let mut o = order();
    assert!(order_is_listed(&o, false));
    o.status = OrderStatus::Other("Matched".to_string());
    assert!(!order_is_listed(&o, false));
    assert!(order_is_listed(&o, true));
    let shown = order_result(&o);
    assert_eq!(shown.id, "01".repeat(32));
    assert_eq!(shown.status, "Matched");
    assert_eq!((shown.offer_asset.as_str(), shown.request_asset.as_str()), ("VTR", "BTC"));
    assert_eq!((shown.offer_amount_satoshis, shown.request_amount_satoshis), (500_000, 700));
    assert_eq!(OrderStatus::Cancelled.name(), "Cancelled");
}

#[test]
fn only_the_maker_cancels() {
    let me = Some("VMaker".to_string());
    let o = order();
    assert_eq!(check_cancel(true, &me, Some(&o)).unwrap(), true);
    let mut gone = order();
    gone.status = OrderStatus::Cancelled;
    assert_eq!(check_cancel(true, &me, Some(&gone)).unwrap(), false);
    assert_eq!(text(check_cancel(false, &me, Some(&o))), "Wallet is locked");
    assert_eq!(text(check_cancel(true, &None, Some(&o))), "Internal error: Change address not set");
    let refused = "Unauthorized: Only the maker may cancel this order";
    assert_eq!(text(check_cancel(true, &Some("VOther".to_string()), Some(&o))), refused);
    assert_eq!(text(check_cancel(true, &me, None)), refused);
}

#[test]
fn the_largest_output_funds() {
    assert_eq!(select_funding(&[5, 9, 9, 3], 4), Some(2));
    assert_eq!(select_funding(&[5, 9, 9, 3], 9), Some(2));
    assert_eq!(select_funding(&[5, 9], 10), None);
    assert_eq!(select_funding(&[], 0), None);
}

fn match_request() -> MatchRequest {
    MatchRequest {
        node_running: true,
        wallet_unlocked: true,
        taker_address: "VTaker".to_string(),
        taker_fault: None,
        has_key: true,
        wallet_address: Some("VMaker".to_string()),
        order_id: "o".to_string(),
        order: Some(order()),
        now: 90_000,
        min_locktime: 3_600,
    }
}

#[test]
fn orders_are_matched_on_their_terms() {
    let terms = check_match(&match_request()).unwrap();
    assert_eq!(terms.locktime, 10_000);
    assert_eq!(terms.secret, Some((SECRET, lock())));
    assert_eq!(terms.needed, 510_000);
    let mut q = match_request();
    let mut bare = order();
    bare.preimage = None;
    bare.vtr_amount = u64::MAX;
    q.order = Some(bare);
    let fresh = check_match(&q).unwrap();
    assert_eq!((fresh.secret, fresh.needed), (None, u64::MAX));
}

#[test]
fn matches_are_refused() {
    let with = |change: fn(&mut MatchRequest)| {
        let mut q = match_request();
        change(&mut q);
        text(check_match(&q))
    };
    assert_eq!(with(|q| q.node_running = false), "Node error: Node not running");
    assert_eq!(with(|q| q.wallet_unlocked = false), "Wallet is locked");
    assert_eq!(
        with(|q| q.taker_address = " ".to_string()),
        "Invalid input: Taker address is required"
    );
    assert_eq!(
        with(|q| q.taker_fault = Some("bad".to_string())),
        "Invalid input: Invalid taker address: bad"
    );
    assert_eq!(with(|q| q.has_key = false), "Wallet is locked");
    assert_eq!(with(|q| q.wallet_address = None), "Internal error: Change address not set");
    assert_eq!(with(|q| q.order = None), "Not found: Order o not found or not open");
    assert_eq!(
        with(|q| q.wallet_address = Some("VOther".to_string())),
        "Unauthorized: Only the maker's imported wallet may fund this order"
    );
    assert_eq!(
        with(|q| q.now = 96_401),
        "Invalid input: DEX order is too close to expiry to fund safely"
    );
    assert_eq!(
        with(|q| q.now = 200_000),
        "Invalid input: DEX order is too close to expiry to fund safely"
    );
}

#[test]
fn funding_goes_step_by_step() {
    let go = |s| match funding_step(s, None, "o") {
        FundingStep::Go(next) => next,
        other => panic!("unexpected {:?}", other),
    };
    assert_eq!(go(FundingStage::Reserve), FundingStage::Admit);
    assert_eq!(go(FundingStage::Admit), FundingStage::Mark);
    assert_eq!(go(FundingStage::Mark), FundingStage::Funded);
    assert_eq!(go(FundingStage::Funded), FundingStage::Funded);
    match funding_step(FundingStage::Reserve, Some("x"), "o") {
        FundingStep::Fail(e) => assert_eq!(e.message(), "Not found: Order o is no longer open"),
        other => panic!("unexpected {:?}", other),
    }
    match funding_step(FundingStage::Admit, Some("low fee"), "o") {
        FundingStep::ReleaseAndFail(e) => assert_eq!(
            e.message(),
            "Invalid input: Mempool rejected HTLC funding transaction: low fee"
        ),
        other => panic!("unexpected {:?}", other),
    }
    match funding_step(FundingStage::Mark, Some("x"), "o") {
        FundingStep::Fail(e) => {
            assert_eq!(e.message(), "Internal error: Funding reservation disappeared")
        }
        other => panic!("unexpected {:?}", other),
    }
    let answer = match_response(&order(), &lock(), &[6; 32]);
    assert_eq!(answer.hash_lock, hex::encode(lock()));
    assert_eq!(answer.funding_txid, "06".repeat(32));
}

#[test]
fn the_other_side_is_funded() {
    let o = order();
    let terms = check_btc_fund(true, "o", Some(&o)).unwrap();
    assert_eq!((terms.hash_lock, terms.amount, terms.needed), (lock(), 700, 1_700));
    assert_eq!(terms.maker_btc_address, "bc1maker");
    assert_eq!(text(check_btc_fund(false, "o", Some(&o))), "Node error: Node not running");
    assert_eq!(text(check_btc_fund(true, "o", None)), "Not found: Order o not found");
    let with = |change: fn(&mut SwapOrder)| {
        let mut o = order();
        change(&mut o);
        text(check_btc_fund(true, "o", Some(&o)))
    };
    assert_eq!(with(|o| o.target_amount = u64::MAX), "Invalid input: Insufficient BTC funds");
    assert_eq!(with(|o| o.hash_lock = None), "Invalid input: Order has no hash lock");
    assert_eq!(with(|o| o.maker_btc_address = None), "Invalid input: Order has no maker BTC address");
    assert_eq!(with(|o| o.target_amount = 0), "Invalid input: Order target amount is zero");
}

#[test]
fn secrets_are_read() {
    assert_eq!(parse_preimage(&hex::encode(SECRET)).unwrap(), SECRET);
    assert_eq!(parse_preimage(&"AB".repeat(32)).unwrap(), [0xab; 32]);
    assert_eq!(text(parse_preimage("zz")), "Invalid input: Invalid preimage hex");
    assert_eq!(text(parse_preimage("abc")), "Invalid input: Invalid preimage hex");
    assert_eq!(text(parse_preimage("abcd")), "Invalid input: Preimage must be 32 bytes");
}

#[test]
fn this_side_is_claimed_with_the_secret() {
    let o = order();
    let secret = hex::encode(SECRET);
    let terms = check_vtr_claim(true, "o", &secret, "wif", Some(&o)).unwrap();
    assert_eq!((terms.preimage, terms.hash_lock, terms.funding_txid), (SECRET, lock(), [4; 32]));
    assert_eq!(terms.taker_address, "VTaker");
    assert_eq!(
        text(check_vtr_claim(false, "o", &secret, "wif", Some(&o))),
        "Node error: Node not running"
    );
    assert_eq!(
        text(check_vtr_claim(true, "o", "zz", "wif", Some(&o))),
        "Invalid input: Invalid preimage hex"
    );
    assert_eq!(
        text(check_vtr_claim(true, "o", &secret, "", Some(&o))),
        "Invalid input: Taker WIF is required"
    );
    assert_eq!(
        text(check_vtr_claim(true, "o", &secret, "wif", None)),
        "Not found: Order o not found"
    );
    assert_eq!(
        text(check_vtr_claim(true, "o", &"00".repeat(32), "wif", Some(&o))),
        "Invalid input: Preimage does not match hash lock"
    );
    let with = |change: fn(&mut SwapOrder)| {
        let mut o = order();
        change(&mut o);
        text(check_vtr_claim(true, "o", &hex::encode(SECRET), "wif", Some(&o)))
    };
    assert_eq!(with(|o| o.hash_lock = None), "Invalid input: Order has no hash lock");
    assert_eq!(with(|o| o.funding_txid = None), "Invalid input: Order has no VTR funding txid");
    assert_eq!(with(|o| o.taker_address = None), "Invalid input: Order has no taker address");
}

#[test]
fn the_claim_script_takes_the_contract() {
    let secp = Secp256k1::new();
    let key = SecretKey::from_slice(&[0x21; 32]).unwrap();
    let public = PublicKey::from_secret_key(&secp, &key).serialize();
    let digest = [0x42u8; 32];
    let mut sig = secp.sign_ecdsa(&Message::from_digest(digest), &key).serialize_der().to_vec();
    sig.push(0x01);
    let contract = build_htlc(&lock(), &hash160(&public), &[0x33; 20], 1_000);
    let env = ScriptEnv { tx_hash: digest, ..ScriptEnv::default() };

    let script = Script::from_bytes(claim_script_sig(&sig, &public, &SECRET)).unwrap();
    assert!(Engine::new(env).execute(&script, &contract).is_ok());
    let wrong = Script::from_bytes(claim_script_sig(&sig, &public, &[8; 32])).unwrap();
    assert!(Engine::new(env).execute(&wrong, &contract).is_err());
    let other = ScriptEnv { tx_hash: [0; 32], ..ScriptEnv::default() };
    assert!(Engine::new(other).execute(&script, &contract).is_err());
}

#[test]
fn a_funded_swap_is_claimed_or_refunded() {
    let o = order();
    let terms = check_btc_fund(true, "o", Some(&o)).unwrap();
    let mut swap = SwapState::new([1; 32], lock());
    assert_eq!(swap.status, SwapStatus::Pending);
    assert_eq!(
        text(check_btc_claim(true, "o", Some(&swap), None)),
        "Invalid input: Preimage not available"
    );
    assert_eq!(
        text(check_btc_claim(true, "o", Some(&swap), Some(SECRET))),
        "Invalid input: BTC funding txid not recorded"
    );
    assert!(check_refund(true, "o", Some(&o), Some(&swap), 100_000).unwrap().is_none());

    swap.record_btc_funding([6; 32], &terms, "bc1refund", 50_000);
    assert_eq!(swap.status, SwapStatus::BtcFunded);
    let claim = check_btc_claim(true, "o", Some(&swap), Some(SECRET)).unwrap();
    assert_eq!((claim.preimage, claim.hash_lock, claim.funding_txid), (SECRET, lock(), [6; 32]));
    assert_eq!((claim.amount, claim.expiry), (700, 50_000));
    assert_eq!(text(check_btc_claim(false, "o", Some(&swap), None)), "Node error: Node not running");
    assert_eq!(text(check_btc_claim(true, "o", None, None)), "Not found: Swap o not found");

    let refund = check_refund(true, "o", Some(&o), Some(&swap), 100_000).unwrap().unwrap();
    assert_eq!((refund.recipient.as_str(), refund.refund_address.as_str()), ("bc1maker", "bc1refund"));
    assert_eq!(
        text(check_refund(true, "o", Some(&o), Some(&swap), 99_999)),
        "Invalid input: Swap has not expired yet"
    );
    assert_eq!(text(check_refund(true, "o", None, Some(&swap), 0)), "Not found: Order o not found");
    assert_eq!(
        text(check_refund(false, "o", Some(&o), Some(&swap), 0)),
        "Node error: Node not running"
    );
    let mut unnamed = swap.clone();
    unnamed.taker_btc_refund_address = None;
    assert_eq!(
        text(check_refund(true, "o", Some(&o), Some(&unnamed), 100_000)),
        "Invalid input: Taker BTC refund address not recorded"
    );
    assert_eq!(
        text(check_btc_claim(true, "o", Some(&unnamed), Some(SECRET))),
        "Invalid input: Taker BTC refund address not recorded"
    );
    let mut unpaid = swap.clone();
    unpaid.maker_btc_address = None;
    assert_eq!(
        text(check_btc_claim(true, "o", Some(&unpaid), Some(SECRET))),
        "Invalid input: Maker BTC address not recorded"
    );

    let mut claimed = swap.clone();
    claimed.record_claim(Some(SECRET));
    assert_eq!((claimed.status, claimed.preimage), (SwapStatus::Claimed, Some(SECRET)));
    claimed.record_claim(None);
    assert_eq!(claimed.preimage, Some(SECRET));
    swap.record_refund();
    assert_eq!(swap.status, SwapStatus::Refunded);
    assert_eq!(refund_action("o", &o, None).txid, "01".repeat(32));
    assert_eq!(refund_action("o", &o, Some([7; 32])).txid, "07".repeat(32));
    assert_eq!(swap_action("o", &[7; 32], SwapStatus::BtcFunded).status, "BtcFunded");
}

fn claim_facts() -> ClaimFacts {
    ClaimFacts {
        secret: vec![0x21; 32],
        compressed: true,
        address: "VOld".to_string(),
        claimable: 77,
        node_running: true,
        already_claimed: false,
        script_pubkey: Ok(vec![0x76, 0xa9]),
        message_hash: [0x42; 32],
    }
}

#[test]
fn claims_pay_the_balance_and_carry_a_signature() {
    let tx = submit_legacy_claim(&claim_facts()).unwrap();
    assert_eq!(tx.tx_type, TxType::LegacyClaim);
    assert!(tx.inputs.is_empty());
    assert_eq!((tx.outputs.len(), tx.outputs[0].value), (1, 77));
    assert_eq!(tx.outputs[0].script_pubkey, vec![0x76, 0xa9]);
    assert_eq!(tx.claim_address.as_deref(), Some("VOld"));

    let sig = tx.claim_signature.clone().unwrap();
    assert_eq!(sig.len(), 65);
    let id = RecoveryId::from_i32((sig[0] - 31) as i32).unwrap();
    let found = Secp256k1::new()
        .recover_ecdsa(
            &Message::from_digest([0x42; 32]),
            &RecoverableSignature::from_compact(&sig[1..], id).unwrap(),
        )
        .unwrap();
    assert_eq!(found.serialize().to_vec(), claim_public_key(&[0x21; 32], true).unwrap());
    assert_eq!(
        found.serialize_uncompressed().to_vec(),
        claim_public_key(&[0x21; 32], false).unwrap()
    );
    let answer = claim_result(&tx, 77, "VNew");
    assert_eq!(answer.txid, hex::encode(tx.txid()));
    assert_eq!(answer.recipient_address, "VNew");
}

#[test]
fn claims_are_refused() {
    let with = |change: fn(&mut ClaimFacts)| {
        let mut f = claim_facts();
        change(&mut f);
        text(submit_legacy_claim(&f))
    };
    let bad_key = "Invalid input: Invalid key bytes: malformed or out-of-range secret key";
    assert_eq!(with(|f| f.secret = vec![0; 32]), bad_key);
    assert_eq!(with(|f| f.secret = vec![1; 31]), bad_key);
    assert_eq!(text(claim_public_key(&[0; 32], true)), bad_key);
    assert_eq!(
        with(|f| f.claimable = 0),
        "Invalid input: No claimable balance for address VOld"
    );
    assert_eq!(with(|f| f.node_running = false), "Node error: Node not running");
    assert_eq!(
        with(|f| f.already_claimed = true),
        "Invalid input: Address VOld has already been claimed"
    );
    assert_eq!(
        with(|f| f.script_pubkey = Err("checksum".to_string())),
        "Invalid input: Invalid recipient address: checksum"
    );
    assert_eq!(
        text(check_claim_request("", "VNew")),
        "Invalid input: WIF private key is required"
    );
    assert_eq!(
        text(check_claim_request("wif", "")),
        "Invalid input: Recipient address is required"
    );
    assert!(check_claim_request("wif", "VNew").is_ok());
    assert_eq!(claim_fee(Some(4)).unwrap(), 4);
    assert_eq!(text(claim_fee(None)), "Node error: Claim inputs not found in UTXO set");
}

#[test]
fn signatures_say_the_form_of_the_key() {
    assert_eq!(signature_bytes(2, &[5; 64], true)[0], 33);
    assert_eq!(signature_bytes(2, &[5; 64], false)[0], 29);
    let mut f = claim_facts();
    f.compressed = false;
    let tx = claim_transaction(&f, 1, &[5; 64]).unwrap();
    let mut expected = vec![28u8];
    expected.extend_from_slice(&[5; 64]);
    assert_eq!(tx.claim_signature, Some(expected));
}

#[test]
fn old_balances_are_shown() {
    let shown = check_legacy_claim(true, "VOld", 123_456_789, false).unwrap();
    assert_eq!(shown.display, format!("{:.6} VTR", 123_456_789u64 as f64 / 100_000_000.0));
    assert_eq!(shown.claimable_satoshis, 123_456_789);
    assert!(!shown.already_claimed);
    assert_eq!(text(check_legacy_claim(false, "VOld", 1, false)), "Node error: Node not running");
}
