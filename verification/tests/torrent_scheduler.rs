//! Choosing pieces.

use vtorrent::torrent::scheduler::PieceTracker;

#[test]
fn test_bitfield_merge() {
    let mut tracker = PieceTracker::new(16);
    // Peer A has pieces 0 and 1 (bits 0x80, 0x40 in first byte).
    tracker.set_peer_bitfield([1u8; 20], &[0xC0, 0x00]);
    assert_eq!(tracker.peer_count_for(0), 1);
    assert_eq!(tracker.peer_count_for(1), 1);
    assert_eq!(tracker.peer_count_for(2), 0);
}

#[test]
fn test_rarest_first() {
    let mut tracker = PieceTracker::new(4);
    // Peer A has pieces 0,1,2,3 (all).
    tracker.set_peer_bitfield([1u8; 20], &[0xF0]);
    // Peer B has pieces 0,1,2 but not 3.
    tracker.set_peer_bitfield([2u8; 20], &[0xE0]);
    // Piece 3 is rarest (1 peer) vs pieces 0,1,2 (2 peers).
    assert_eq!(tracker.next_piece(), Some(3));
}

#[test]
fn test_skips_have_and_requested() {
    let mut tracker = PieceTracker::new(4);
    tracker.set_peer_bitfield([1u8; 20], &[0xF0]);
    tracker.mark_have(0);
    tracker.mark_requested(1);
    // Pieces 0 (have) and 1 (requested) are skipped; 2 and 3 are tied.
    let next = tracker.next_piece().unwrap();
    assert!(next == 2 || next == 3);
}

#[test]
fn test_complete() {
    let mut tracker = PieceTracker::new(2);
    assert!(!tracker.is_complete());
    tracker.mark_have(0);
    tracker.mark_have(1);
    assert!(tracker.is_complete());
    assert_eq!(tracker.remaining(), 0);
}

#[test]
fn test_resume_bitfield_roundtrip() {
    let mut tracker = PieceTracker::new(16);
    tracker.mark_have(0);
    tracker.mark_have(5);
    tracker.mark_have(15);

    let bytes = tracker.serialize_have_bitfield();
    let mut restored = PieceTracker::new(16);
    restored.load_have_bitfield(&bytes);

    assert!(restored.has(0));
    assert!(restored.has(5));
    assert!(restored.has(15));
    assert!(!restored.has(1));
    assert_eq!(restored.remaining(), 13);
}
