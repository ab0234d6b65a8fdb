//! What the desktop program decides.

use base64::Engine as _;
use sha2::{Digest, Sha512};
use vtorrent::desktop::error::TauriError;
use vtorrent::desktop::node::{
    btc_seed, default_testnet_seeds, node_info, plan_start, probe_candidates, resolve_network,
    scanned_height, tx_result, NodeFacts, StakingCounters, StartAction,
};
use vtorrent::desktop::staking::{check_start_staking, staking_status};
use vtorrent::desktop::torrents::{added_torrent, read_source, session_missing, torrent_result};
use vtorrent::desktop::wallet::{
    address_info, check_disable_2fa, check_passphrase, check_send_btc, enabled_2fa, import_result,
    new_address_info, no_btc_wallet, payment_fee_rate, plan_sync, read_wallet_file, wallet_info,
    SyncAction, WalletFacts,
};
use vtorrent::torrent::session::{SessionState, TorrentSession};

#[test]
fn test_resolve_network() {
    assert_eq!(resolve_network(None), "vtorrent-mainnet");
    assert_eq!(resolve_network(Some("mainnet")), "vtorrent-mainnet");
    assert_eq!(resolve_network(Some("testnet")), "vtorrent-regtest");
    assert_eq!(resolve_network(Some("bogus")), "vtorrent-mainnet");
}

#[test]
fn errors_are_described() {
    let x = "x".to_string();
    assert_eq!(TauriError::Migration(x.clone()).message(), "Wallet migration error: x");
    assert_eq!(TauriError::Wallet(x.clone()).message(), "Wallet error: x");
    assert_eq!(TauriError::InvalidInput(x.clone()).message(), "Invalid input: x");
    assert_eq!(TauriError::WalletLocked.message(), "Wallet is locked");
    assert_eq!(TauriError::WalletNotInitialized.message(), "Wallet not initialized");
    assert_eq!(TauriError::TwoFAFailed.message(), "2FA verification failed");
    assert_eq!(TauriError::Io(x.clone()).message(), "IO error: x");
    assert_eq!(TauriError::NodeError(x.clone()).message(), "Node error: x");
    assert_eq!(TauriError::Torrent(x.clone()).message(), "Torrent error: x");
    assert_eq!(TauriError::NotFound(x.clone()).message(), "Not found: x");
    assert_eq!(TauriError::Unauthorized(x.clone()).message(), "Unauthorized: x");
    assert_eq!(TauriError::Internal(x).message(), "Internal error: x");
}

#[test]
fn starting_on_the_main_network() {
    let seeds = Some(vec!["10.0.0.1:1".to_string()]);
    match plan_start(None, None, &seeds).unwrap() {
        StartAction::Start(p) => {
            assert_eq!(p.network, "vtorrent-mainnet");
            assert!(!p.regtest && !p.regtest_fast_stake && !p.isolated);
            assert_eq!(p.data_subdir, None);
            assert!(p.extra_seeds.is_empty());
        }
        other => panic!("unexpected {:?}", other),
    }
}

#[test]
fn starting_on_the_test_network() {
    let seeds = Some(vec!["10.0.0.1:1".to_string()]);
    match plan_start(None, Some("testnet"), &seeds).unwrap() {
        StartAction::Start(p) => {
            assert_eq!(p.network, "vtorrent-regtest");
            assert!(p.regtest && p.regtest_fast_stake && p.isolated);
            assert_eq!(p.data_subdir.as_deref(), Some("testnet"));
            assert_eq!(p.extra_seeds, vec!["10.0.0.1:1"]);
        }
        other => panic!("unexpected {:?}", other),
    }
    match plan_start(None, Some("testnet"), &None).unwrap() {
        StartAction::Start(p) => assert_eq!(p.extra_seeds, default_testnet_seeds()),
        other => panic!("unexpected {:?}", other),
    }
}

#[test]
fn a_running_node_is_not_started_again() {
    assert!(matches!(
        plan_start(Some("vtorrent-regtest"), Some("testnet"), &None),
        Ok(StartAction::Report)
    ));
    assert_eq!(
        plan_start(Some("vtorrent-mainnet"), Some("testnet"), &None).unwrap_err().message(),
        "Node error: node running on vtorrent-mainnet; restart the app to switch networks"
    );
}

#[test]
fn the_seed_comes_from_the_words_or_the_key() {
    assert_eq!(btc_seed(Some([7; 64]), Some("key")), Some([7; 64]));
    let digest: [u8; 64] = Sha512::digest(b"vtorrent-ng-btc-seed-v1key").into();
    assert_eq!(btc_seed(None, Some("key")), Some(digest));
    assert_eq!(btc_seed(None, None), None);
}

#[test]
fn heights_and_rewards_are_counted() {
    assert_eq!(scanned_height(5), 6);
    assert_eq!(scanned_height(u32::MAX), u32::MAX);
    let mut c = StakingCounters { blocks_staked: 1, last_stake_time: 0, rewards_earned: u64::MAX - 1 };
    c.reward(5, 0x1_0000_0009);
    assert_eq!(
        c,
        StakingCounters { blocks_staked: 2, last_stake_time: 9, rewards_earned: u64::MAX }
    );
}

#[test]
fn the_node_is_described() {
    let facts = NodeFacts {
        network: "vtorrent-regtest".to_string(),
        height: 12,
        best_hash: Some([0xab; 32]),
        peer_count: 3,
        syncing: true,
        mempool_size: 4,
        uptime_secs: 99,
    };
    let info = node_info("1.0", Some(&facts));
    assert!(info.running && info.syncing);
    assert_eq!(info.network, "vtorrent-regtest");
    assert_eq!(info.best_hash, "ab".repeat(32));
    assert_eq!((info.block_height, info.connections, info.mempool_size, info.uptime_secs), (12, 3, 4, 99));
    let idle = node_info("1.0", None);
    assert!(!idle.running);
    assert_eq!(idle.version, "1.0");
    assert_eq!(idle.network, "vtorrent-mainnet");
}

#[test]
fn transactions_are_described() {
    let tx = tx_result("ab", 10, 5, "receive", 7, 1, 12);
    assert_eq!((tx.confirmations, tx.verb.as_str()), (3, "Received"));
    assert_eq!(tx_result("ab", 10, 5, "stake", 7, 1, 9).confirmations, 1);
    assert_eq!(tx_result("ab", 10, 5, "stake", 7, 1, 9).verb, "Staked");
    assert_eq!(tx_result("ab", 0, 5, "send", 7, 1, u32::MAX).confirmations, u32::MAX);
    assert_eq!(tx_result("ab", 0, 5, "send", 7, 1, 0).verb, "Sent");
}

#[test]
fn few_seeds_are_probed() {
    let many: Vec<String> = (0..12).map(|i| format!("10.0.0.{i}:1")).collect();
    assert_eq!(probe_candidates(&many), many[..10].to_vec());
    assert_eq!(probe_candidates(&many[..3].to_vec()), many[..3].to_vec());
}

#[test]
fn passphrases_have_eight_bytes() {
    assert!(check_passphrase("12345678").is_ok());
    assert_eq!(
        check_passphrase("1234567").unwrap_err().message(),
        "Invalid input: Passphrase must be at least 8 characters"
    );
    assert!(check_passphrase("äöüß").is_ok());
}

#[test]
fn the_wallet_is_described() {
    let facts = WalletFacts {
        has_2fa: true,
        address_count: 2,
        default_address: Some("V1".to_string()),
    };
    let info = wallet_info(Some(&facts));
    assert!(info.is_unlocked && info.has_2fa);
    assert_eq!((info.address_count, info.wallet_version), (2, 2));
    assert_eq!(info.default_address.as_deref(), Some("V1"));
    let locked = wallet_info(None);
    assert!(!locked.is_unlocked);
    assert_eq!(locked.wallet_version, 0);
    assert!(!no_btc_wallet().initialized);
}

#[test]
fn old_wallets_are_read() {
    assert_eq!(read_wallet_file("aGVsbG8=", "secret").unwrap(), b"hello");
    assert_eq!(
        read_wallet_file("aGVsbG8=", "").unwrap_err().message(),
        "Invalid input: A new wallet passphrase is required"
    );
    assert!(read_wallet_file("aGVsbG8", "secret")
        .unwrap_err()
        .message()
        .starts_with("Invalid input: Invalid base64: "));
    assert!(read_wallet_file("!", "").unwrap_err().message().contains("Invalid base64"));
    assert_eq!(
        import_result(0, vec![], false, false, 0).unwrap_err().message(),
        "Wallet migration error: No keys found in wallet.dat"
    );
    let r = import_result(1, vec!["V1".to_string()], true, false, 5).unwrap();
    assert_eq!((r.keys_found, r.had_encryption, r.had_2fa, r.claimable_balance), (1, true, false, 5));
}

#[test]
fn addresses_are_described() {
    let fresh = new_address_info("V1", None);
    assert_eq!((fresh.label.as_str(), fresh.balance), ("New Address", 0));
    assert_eq!(new_address_info("V1", Some("mine")).label, "mine");
    assert_eq!(address_info("V1", "mine", 9, true, None).balance, 9);
    assert_eq!(address_info("V1", "mine", 9, true, Some(&vec![1, 2, 3])).balance, 6);
}

#[test]
fn payments_are_checked() {
    assert_eq!(payment_fee_rate(0), 1);
    assert_eq!(payment_fee_rate(7), 7);
    assert!(check_send_btc("bc1", 5).is_ok());
    assert_eq!(
        check_send_btc(" \t\u{3000}", 5).unwrap_err().message(),
        "Invalid input: Recipient address is required"
    );
    assert_eq!(
        check_send_btc("bc1", 0).unwrap_err().message(),
        "Invalid input: Amount must be non-zero"
    );
    assert_eq!(enabled_2fa("otp:x", "s").qr_data, "otp:x");
    assert!(check_disable_2fa(true).is_ok());
    assert!(matches!(check_disable_2fa(false), Err(TauriError::TwoFAFailed)));
}

#[test]
fn swap_keys_follow_the_wallet() {
    assert!(matches!(plan_sync(None, Some("V1"), None), Err(TauriError::WalletLocked)));
    assert!(matches!(plan_sync(Some("k"), None, None), Err(TauriError::WalletLocked)));
    assert_eq!(plan_sync(Some("k"), Some("V1"), Some("k")).unwrap(), SyncAction::Refresh);
    assert_eq!(plan_sync(Some("k"), Some("V1"), Some("j")).unwrap(), SyncAction::Restore);
    assert_eq!(plan_sync(Some("k"), Some("V1"), None).unwrap(), SyncAction::Restore);
}

#[test]
fn staking_is_checked_and_described() {
    assert_eq!(
        check_start_staking("", true, true).unwrap_err().message(),
        "Node error: Staking address is required"
    );
    assert_eq!(
        check_start_staking("V1", false, true).unwrap_err().message(),
        "Node error: Node not running"
    );
    assert!(matches!(check_start_staking("V1", true, false), Err(TauriError::WalletLocked)));
    assert!(check_start_staking("V1", true, true).is_ok());
    let on = staking_status(true, Some("V1"), &vec![5, 6], 2, 3);
    assert_eq!((on.eligible_utxos, on.total_staking_satoshis), (2, 11));
    assert_eq!((on.expected_reward_per_day, on.blocks_staked), (2, 3));
    assert_eq!(staking_status(true, Some("V1"), &vec![0], 2, 3).expected_reward_per_day, 0);
    assert_eq!(staking_status(false, Some("V1"), &vec![5, 6], 2, 3).eligible_utxos, 0);
}

const TORRENT: &[u8] =
    b"d4:infod6:lengthi8e4:name4:test12:piece lengthi4e6:pieces40:aaaaaaaaaaaaaaaaaaaaaaaaaaaaaaaaaaaaaaaaee";

#[test]
fn torrents_are_read_from_files_and_links() {
    let text = base64::engine::general_purpose::STANDARD.encode(TORRENT);
    let meta = read_source(&text, "file").unwrap();
    assert_eq!((meta.name.as_str(), meta.total_size, meta.piece_count), ("test", 8, 2));
    let link = "magnet:?xt=urn:btih:aabbccddaabbccddaabbccddaabbccddaabbccdd&dn=x";
    let from_link = read_source(link, "magnet").unwrap();
    assert_eq!(from_link.info_hash[..4], [0xaa, 0xbb, 0xcc, 0xdd]);
    assert_eq!(from_link.piece_count, 0);
    assert!(read_source(link, "file").is_err());
    assert!(read_source(&text, "magnet").is_err());
    assert!(read_source("", "file").is_err());
}

#[test]
fn sessions_are_described() {
    let text = base64::engine::general_purpose::STANDARD.encode(TORRENT);
    let meta = read_source(&text, "file").unwrap();
    let mut session = TorrentSession::with_id("id".to_string(), meta, "V1".to_string(), 5);
    session.state = SessionState::Downloading;
    session.bytes_downloaded = 3;
    let shown = torrent_result(&session);
    assert_eq!((shown.id.as_str(), shown.name.as_str()), ("id", "test"));
    assert_eq!((shown.size_bytes, shown.downloaded_bytes, shown.vtr_paid_satoshis), (8, 3, 0));
    assert_eq!(shown.state, SessionState::Downloading.as_str());
    assert_eq!(shown.info_hash, hex::encode(session.metainfo.info_hash));
    assert_eq!(added_torrent(&session).session_id, "id");
    assert_eq!(session_missing("id").message(), "Torrent error: Session id not found");
}
