//! Bandwidth accounts, sessions and how amounts are shown.

use vtorrent::torrent::double::{format_bytes, format_coins, nearest_int, push_padded, round_double};
use vtorrent::torrent::incentive::{aggregate_summary, PeerBandwidthAccount, COIN};
use vtorrent::torrent::metainfo::Metainfo;
use vtorrent::torrent::payment::PaymentDue;
use vtorrent::torrent::session::{
    SessionManager, SessionState, TorrentSession, KEPT_INCENTIVE_ACCOUNTS, MAX_INCENTIVE_ACCOUNTS,
};

/// What bytes are worth at a rate per gigabyte, computed with floating-point numbers.
fn worth(bytes: u64, rate: f64) -> u64 {
    let gb = bytes as f64 / (1024.0 * 1024.0 * 1024.0);
    (gb * rate * COIN as f64) as u64
}

fn shown_bytes(bytes: u64) -> String {
    let b = bytes as f64;
    if b >= 1_073_741_824.0 {
        format!("{:.2} GB", b / 1_073_741_824.0)
    } else if b >= 1_048_576.0 {
        format!("{:.2} MB", b / 1_048_576.0)
    } else if b >= 1_024.0 {
        format!("{:.2} KB", b / 1_024.0)
    } else {
        format!("{bytes} B")
    }
}

const SAMPLES: [u64; 20] = [
    0,
    1,
    999,
    1_023,
    1_024,
    1_025,
    1_029,
    10_240,
    1_048_575,
    1_048_576,
    5_242_880,
    123_456_789,
    1_073_741_823,
    1_073_741_824,
    1_610_612_736,
    99_999_999_999,
    9_007_199_254_740_993,
    1_152_921_504_606_846_977,
    u64::MAX - 1,
    u64::MAX,
];

#[test]
fn sizes_are_shown_like_floating_point_numbers() {
    for n in SAMPLES {
        assert_eq!(format_bytes(n), shown_bytes(n), "{n}");
    }
}

#[test]
fn coins_are_shown_like_floating_point_numbers() {
    for n in SAMPLES {
        assert_eq!(format_coins(n, 1_000_000), format!("{:.6} VTR", n as f64 / 1_000_000.0), "{n}");
        assert_eq!(
            format_coins(n, 100_000_000),
            format!("{:.6} VTR", n as f64 / 100_000_000.0),
            "{n}"
        );
    }
}

#[test]
fn doubles_are_rounded_like_the_machine_rounds_them() {
    for n in SAMPLES {
        assert_eq!(round_double(n as u128), (n as f64) as u128, "{n}");
    }
    assert_eq!(nearest_int(5, 2), 2);
    assert_eq!(nearest_int(7, 2), 4);
    assert_eq!(nearest_int(8, 3), 3);
    let mut s = "x".to_string();
    push_padded(&mut s, 42, 4);
    assert_eq!(s, "x0042");
}

#[test]
fn earnings_follow_the_rate() {
    for n in SAMPLES {
        let mut a = PeerBandwidthAccount::new("V1".to_string());
        a.record_upload(n);
        assert_eq!(a.calculate_earned(), worth(n, 1.0), "{n}");
        let mut b = PeerBandwidthAccount::new("V1".to_string());
        b.incentive_enabled = true;
        b.record_download(n);
        assert_eq!(b.calculate_owed(), worth(n, 0.5), "{n}");
        b.incentive_enabled = false;
        assert_eq!(b.calculate_owed(), 0);
    }
}

#[test]
fn settling_twice_pays_once() {
    let mut a = PeerBandwidthAccount::new("V1".to_string());
    a.record_upload(1_073_741_824);
    a.incentive_enabled = true;
    a.record_download(2_147_483_648);
    assert!(a.needs_settlement(1_000));
    let first = a.settle(1_000);
    assert_eq!(first, (1_000_000, 1_000_000));
    assert_eq!(a.settle(2_000), (0, 0));
    assert_eq!((a.total_earned_satoshis, a.total_paid_satoshis), (1_000_000, 1_000_000));
    a.touch(7);
    assert_eq!(a.last_active, 7);
}

#[test]
fn summaries_add_up() {
    let mut a = PeerBandwidthAccount::new("V1".to_string());
    a.record_upload(1_073_741_824);
    let mut b = PeerBandwidthAccount::new("V2".to_string());
    b.record_download(1_073_741_824);
    let s = aggregate_summary(&[a, b]);
    assert_eq!((s.total_bytes_uploaded, s.total_bytes_downloaded), (1_073_741_824, 1_073_741_824));
    assert_eq!(s.uploaded_display(), "1.00 GB");
    assert_eq!(s.downloaded_display(), "1.00 GB");
    assert_eq!(s.earned_vtr_display(), format!("{:.6} VTR", s.total_earned_satoshis as f64 / 1e6));
    assert_eq!(s.paid_vtr_display(), format!("{:.6} VTR", s.total_paid_satoshis as f64 / 1e6));
}

fn metainfo() -> Metainfo {
    Metainfo {
        info_hash: [0xAA; 20],
        name: "x".into(),
        total_size: 2_048,
        piece_length: 1_024,
        piece_count: 2,
        pieces: Vec::new(),
        announce: None,
        announce_list: vec![],
        files: vec![],
        created_at: None,
        comment: None,
        is_private: false,
    }
}

#[test]
fn recorded_bytes_are_counted() {
    let mut s = TorrentSession::with_id("id".into(), metainfo(), "V1".into(), 5);
    s.record_download_at("VPeer", 1_000, 10);
    s.record_upload_at("VPeer", 500, 20);
    s.record_download_at("VOther", 24, 30);
    assert_eq!((s.bytes_downloaded, s.bytes_uploaded), (1_024, 500));
    assert_eq!(s.incentive_accounts.len(), 2);
    let peer = s.incentive_accounts.get("VPeer").unwrap();
    assert_eq!((peer.bytes_downloaded, peer.bytes_uploaded, peer.last_active), (1_000, 500, 20));
    assert!(s.incentive_accounts.get("VNobody").is_none());
    assert_eq!(s.incentive_summary().total_bytes_downloaded, 1_024);
    assert_eq!(s.incentive_accounts.summary().total_bytes_uploaded, 500);
    assert_eq!(s.size_display(), "2.00 KB");
    assert_eq!(s.downloaded_display(), "1.00 KB");
    s.download_speed = 2_048;
    s.upload_speed = 10;
    assert_eq!(s.download_speed_display(), "2.00 KB/s");
    assert_eq!(s.upload_speed_display(), "10 B/s");
}

#[test]
fn idle_accounts_are_dropped_when_there_are_too_many() {
    let mut s = TorrentSession::with_id("id".into(), metainfo(), "V1".into(), 5);
    let many = MAX_INCENTIVE_ACCOUNTS as u64 + 1;
    for i in 0..many {
        s.record_download_at(&format!("V{i}"), 1, i);
    }
    assert_eq!(s.incentive_accounts.len(), MAX_INCENTIVE_ACCOUNTS + 1);
    s.record_download_at("VNew", 1, 1_000_000);
    assert_eq!(s.incentive_accounts.len(), KEPT_INCENTIVE_ACCOUNTS + 1);
    assert!(s.incentive_accounts.contains_key("VNew"));
    assert!(!s.incentive_accounts.contains_key("V0"));
    assert!(s.incentive_accounts.contains_key("V10000"));
    assert_eq!(s.bytes_downloaded, many + 1);
}

#[test]
fn sessions_are_found_until_they_are_removed() {
    let mut m = SessionManager::new();
    let first = m.add_session(TorrentSession::new(metainfo(), "V1".into()));
    let second = m.add_session(TorrentSession::new(metainfo(), "V1".into()));
    assert_ne!(first, second);
    assert_eq!(first.len(), 36);
    assert_eq!(m.list_sessions().len(), 2);
    assert_eq!(m.get_session(&first).unwrap().id, first);
    m.get_session_mut(&second).unwrap().state = SessionState::Paused;
    assert_eq!(m.count_by_state(SessionState::Paused), 1);
    assert_eq!(m.remove_session(&first).unwrap().id, first);
    assert!(m.remove_session(&first).is_none());
    assert_eq!(
        m.get_session(&first).unwrap_err().message(),
        format!("Session not found: {first}")
    );
    assert!(m.get_session_mut(&first).is_err());
    assert_eq!(m.total_earned_satoshis(), 0);
    assert_eq!(SessionState::Seeding.as_str(), "Seeding");
}

#[test]
fn payments_name_payee_and_amount() {
    let p = PaymentDue { peer_address: "V1".to_string(), amount_satoshis: 5 };
    assert_eq!((p.peer_address.as_str(), p.amount_satoshis), ("V1", 5));
}

#[test]
fn the_order_of_accounts_is_free() {
    let account = |name: &str, up: u64, on: bool| {
        let mut a = PeerBandwidthAccount::new(name.to_string());
        a.record_upload(up);
        a.incentive_enabled = on;
        a
    };
    let sum = |v: Vec<PeerBandwidthAccount>| {
        let s = aggregate_summary(&v);
        (s.total_earned_satoshis, s.total_paid_satoshis, s.total_bytes_uploaded, s.incentive_peer_count)
    };
    let all = |order: [usize; 3]| {
        let make = [account("V1", 5, true), account("V2", u64::MAX, false), account("V3", 9, true)];
        order.iter().map(|i| make[*i].clone()).collect::<Vec<_>>()
    };
    assert_eq!(sum(all([0, 1, 2])), sum(all([2, 1, 0])));
    assert_eq!(sum(all([0, 1, 2])), sum(all([1, 0, 2])));
    assert_eq!((sum(all([0, 1, 2])).2, sum(all([0, 1, 2])).3), (u64::MAX, 2));
}
