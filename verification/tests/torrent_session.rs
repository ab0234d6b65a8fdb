//! Torrent sessions.

use vtorrent::torrent::metainfo::{Metainfo, TorrentFile};
use vtorrent::torrent::session::{SessionManager, SessionState, TorrentSession};

fn make_metainfo() -> Metainfo {
    Metainfo {
        info_hash: [0xAA; 20],
        name: "test.iso".into(),
        total_size: 1024 * 1024 * 1024, // 1 GB
        piece_length: 262144,
        piece_count: 4096,
        pieces: Vec::new(),
        announce: Some("http://tracker.example.com/announce".into()),
        announce_list: vec![],
        files: vec![TorrentFile {
            path: vec!["test.iso".into()],
            length: 1024 * 1024 * 1024,
            md5sum: None,
        }],
        created_at: None,
        comment: None,
        is_private: false,
    }
}

/// How much of the torrent is there, in percent.
fn progress(session: &TorrentSession) -> f64 {
    if session.metainfo.total_size == 0 {
        return 100.0;
    }
    (session.bytes_downloaded as f64 / session.metainfo.total_size as f64) * 100.0
}

#[test]
fn test_session_progress() {
    let mut session =
        TorrentSession::new(make_metainfo(), "VPskT3V4CSyoRAYTCgyxZQ2FByJmCCLUUT".into());
    assert_eq!(progress(&session), 0.0);
    session.bytes_downloaded = 512 * 1024 * 1024; // 512 MB
    assert!((progress(&session) - 50.0).abs() < 0.001);
    session.bytes_downloaded = 1024 * 1024 * 1024; // 1 GB
    assert!(session.is_complete());
}

#[test]
fn test_session_manager_add_get() {
    let mut manager = SessionManager::new();
    let session =
        TorrentSession::new(make_metainfo(), "VPskT3V4CSyoRAYTCgyxZQ2FByJmCCLUUT".into());
    let id = manager.add_session(session);
    assert!(manager.get_session(&id).is_ok());
    assert!(manager.get_session("nonexistent").is_err());
}

#[test]
fn test_session_manager_count_by_state() {
    let mut manager = SessionManager::new();
    let mut s1 = TorrentSession::new(make_metainfo(), "addr1".into());
    let mut s2 = TorrentSession::new(make_metainfo(), "addr2".into());
    s1.state = SessionState::Downloading;
    s2.state = SessionState::Seeding;
    manager.add_session(s1);
    manager.add_session(s2);
    assert_eq!(manager.count_by_state(SessionState::Downloading), 1);
    assert_eq!(manager.count_by_state(SessionState::Seeding), 1);
    assert_eq!(manager.count_by_state(SessionState::Paused), 0);
}

#[test]
fn test_record_upload_download() {
    let mut session =
        TorrentSession::new(make_metainfo(), "VPskT3V4CSyoRAYTCgyxZQ2FByJmCCLUUT".into());
    session.record_download("VH6w62jDRYpYHjR2eJjFzXRC4MQvvs93a6", 100 * 1024 * 1024);
    session.record_upload("VH6w62jDRYpYHjR2eJjFzXRC4MQvvs93a6", 50 * 1024 * 1024);
    assert_eq!(session.bytes_downloaded, 100 * 1024 * 1024);
    assert_eq!(session.bytes_uploaded, 50 * 1024 * 1024);
    assert!(session
        .incentive_accounts
        .contains_key("VH6w62jDRYpYHjR2eJjFzXRC4MQvvs93a6"));
}

#[test]
fn sessions_are_changed_by_index() {
    let mut manager = SessionManager::new();
    let a = manager.add_session(TorrentSession::new(make_metainfo(), "a".into()));
    let b = manager.add_session(TorrentSession::new(make_metainfo(), "b".into()));
    let mut i = 0;
    while let Some(s) = manager.sessions_mut(i) {
        s.bytes_downloaded = 10 + i as u64;
        i += 1;
    }
    assert_eq!(i, 2);
    let done = |id: &str| manager.get_session(id).unwrap().bytes_downloaded;
    assert_eq!(done(&a) + done(&b), 21);
}
