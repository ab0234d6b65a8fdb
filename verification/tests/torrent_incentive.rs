//! Bandwidth accounting.

use vtorrent::torrent::incentive::{
    IncentiveSummary, PeerBandwidthAccount, COIN, MIN_PAYMENT_BYTES, PAYMENT_INTERVAL_SECS,
};

#[test]
fn test_earn_calculation() {
    let mut account = PeerBandwidthAccount::new("VPskT3V4CSyoRAYTCgyxZQ2FByJmCCLUUT".into());
    // Simulate uploading 1 GB
    account.record_upload(1024 * 1024 * 1024);
    let earned = account.calculate_earned();
    // Should earn 1 VTR = 1,000,000 satoshis
    assert_eq!(earned, COIN);
}

#[test]
fn test_owed_calculation() {
    let mut account = PeerBandwidthAccount::new("VPskT3V4CSyoRAYTCgyxZQ2FByJmCCLUUT".into());
    // Simulate downloading 2 GB
    account.record_download(2 * 1024 * 1024 * 1024);
    let owed = account.calculate_owed();
    // Should owe 1 VTR (2 GB × 0.5 VTR/GB)
    assert_eq!(owed, COIN);
}

#[test]
fn test_settlement_resets_counters() {
    let mut account = PeerBandwidthAccount::new("VPskT3V4CSyoRAYTCgyxZQ2FByJmCCLUUT".into());
    account.record_upload(1024 * 1024 * 1024);
    account.record_download(1024 * 1024 * 1024);
    let (earned, owed) = account.settle(1_700_000_000);
    assert!(earned > 0);
    assert!(owed > 0);
    assert_eq!(account.bytes_uploaded, 0);
    assert_eq!(account.bytes_downloaded, 0);
    assert_eq!(account.total_earned_satoshis, earned);
    assert_eq!(account.total_paid_satoshis, owed);
}

#[test]
fn test_needs_settlement_by_time() {
    let account = PeerBandwidthAccount::new("VPskT3V4CSyoRAYTCgyxZQ2FByJmCCLUUT".into());
    // last_settlement = 0, current = PAYMENT_INTERVAL_SECS
    assert!(account.needs_settlement(PAYMENT_INTERVAL_SECS));
}

#[test]
fn test_needs_settlement_by_bytes() {
    let mut account = PeerBandwidthAccount::new("VPskT3V4CSyoRAYTCgyxZQ2FByJmCCLUUT".into());
    account.record_upload(MIN_PAYMENT_BYTES);
    // Even with timestamp = 1 (no time elapsed), should settle due to bytes
    assert!(account.needs_settlement(1));
}

#[test]
fn test_incentive_disabled_owes_nothing() {
    let mut account = PeerBandwidthAccount::new("VPskT3V4CSyoRAYTCgyxZQ2FByJmCCLUUT".into());
    account.incentive_enabled = false;
    account.record_download(10 * 1024 * 1024 * 1024); // 10 GB
    assert_eq!(account.calculate_owed(), 0);
}

#[test]
fn test_summary_display() {
    let summary = IncentiveSummary {
        total_earned_satoshis: 1_500_000,
        total_paid_satoshis: 500_000,
        total_bytes_uploaded: 2 * 1024 * 1024 * 1024,
        total_bytes_downloaded: 512 * 1024 * 1024,
        incentive_peer_count: 5,
    };
    assert_eq!(summary.earned_vtr_display(), "1.500000 VTR");
    assert_eq!(summary.paid_vtr_display(), "0.500000 VTR");
    assert_eq!(summary.uploaded_display(), "2.00 GB");
    assert_eq!(summary.downloaded_display(), "512.00 MB");
}
