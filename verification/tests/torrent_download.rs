//! Downloading: trackers in turn, descriptions, pieces and files.

use sha1::{Digest, Sha1};
use vtorrent::torrent::disk::{
    piece_length, piece_matches, read_plan, resume_file_name, sanitize_path, write_plan,
};
use vtorrent::torrent::engine::{
    client_id, finish_session, peer_address_text, tracker_request, Engine, EngineAction, TrackerRequest,
};
use vtorrent::torrent::metadata_fetch::{FetchAction, FetchStage, MetadataFetch};
use vtorrent::torrent::metainfo::{Metainfo, TorrentFile};
use vtorrent::torrent::peer_task::{opening_messages, piece_stored, PeerStep, PeerTask};
use vtorrent::torrent::peer_wire::PeerMessage;
use vtorrent::torrent::pieces::{FileLayout, PieceAssembler};
use vtorrent::torrent::scheduler::{PieceTracker, SchedulerState, BLOCK_SIZE};
use vtorrent::torrent::session::{SessionState, TorrentSession};
use vtorrent::torrent::tracker::TrackerPeer;

fn digest(data: &[u8]) -> [u8; 20] {
    Sha1::digest(data).into()
}

fn file(name: &str, length: u64) -> TorrentFile {
    TorrentFile { path: vec![name.to_string()], length, md5sum: None }
}

/// Two files of 30 and 70 bytes in pieces of 40 bytes.
fn torrent() -> (Metainfo, Vec<u8>) {
    let data: Vec<u8> = (0..100u8).collect();
    let meta = Metainfo {
        info_hash: [0xAA; 20],
        name: "two".into(),
        total_size: 100,
        piece_length: 40,
        piece_count: 3,
        pieces: data.chunks(40).map(digest).collect(),
        announce: Some("http://a.example/announce".into()),
        announce_list: vec![vec!["udp://b.example:6969".into()]],
        files: vec![file("a.bin", 30), file("b.bin", 70)],
        created_at: None,
        comment: None,
        is_private: false,
    };
    (meta, data)
}

fn peer(last: u8) -> TrackerPeer {
    TrackerPeer { ip: format!("10.0.0.{last}"), port: 6881, peer_id: None }
}

#[test]
fn trackers_are_asked_in_turn() {
    let (meta, _) = torrent();
    let mut engine = Engine::new(meta);
    match engine.action() {
        EngineAction::Announce(TrackerRequest::Http(q)) => {
            assert_eq!(q.tracker_url, "http://a.example/announce");
            assert_eq!((q.left, q.port, q.num_want), (100, 6881, 50));
            assert_eq!(q.peer_id, client_id());
        }
        other => panic!("unexpected {:?}", other),
    }
    engine.announced(None);
    match engine.action() {
        EngineAction::Announce(TrackerRequest::Udp { address, left, .. }) => {
            assert_eq!((address.as_str(), left), ("b.example:6969", 100));
        }
        other => panic!("unexpected {:?}", other),
    }
    engine.announced(Some(vec![peer(1), peer(2)]));
    match engine.action() {
        EngineAction::Download { peers, resume_file } => {
            assert_eq!(peers, vec!["10.0.0.1:6881", "10.0.0.2:6881"]);
            assert_eq!(resume_file, "two.vtorrent");
        }
        other => panic!("unexpected {:?}", other),
    }
    // The description is known, so nothing is fetched.
    engine.fetched(None);
    assert!(matches!(engine.action(), EngineAction::Download { .. }));
    assert_eq!(engine.peers().len(), 2);
}

#[test]
fn without_answers_there_are_no_peers() {
    let (meta, _) = torrent();
    let mut engine = Engine::new(meta);
    engine.announced(None);
    engine.announced(None);
    match engine.action() {
        EngineAction::Download { peers, .. } => assert!(peers.is_empty()),
        other => panic!("unexpected {:?}", other),
    }
}

#[test]
fn unknown_torrents_are_fetched_from_peers() {
    let (full, _) = torrent();
    let mut bare = full.clone();
    bare.pieces = Vec::new();
    bare.announce_list = Vec::new();
    let mut engine = Engine::new(bare);
    engine.announced(Some(vec![peer(1), peer(2)]));
    match engine.action() {
        EngineAction::FetchMetadata(a) => assert_eq!(a, "10.0.0.1:6881"),
        other => panic!("unexpected {:?}", other),
    }
    engine.fetched(None);
    match engine.action() {
        EngineAction::FetchMetadata(a) => assert_eq!(a, peer_address_text(&peer(2))),
        other => panic!("unexpected {:?}", other),
    }
    engine.fetched(Some(full));
    assert!(matches!(engine.action(), EngineAction::Download { .. }));
    assert_eq!(engine.metainfo().pieces.len(), 3);
}

#[test]
fn a_udp_prefix_may_repeat() {
    let (meta, _) = torrent();
    match tracker_request("udp://udp://c:1", &meta) {
        TrackerRequest::Udp { address, .. } => assert_eq!(address, "c:1"),
        other => panic!("unexpected {:?}", other),
    }
}

#[test]
fn finished_sessions_seed_or_stop() {
    let (meta, _) = torrent();
    let mut session = TorrentSession::with_id("id".into(), meta.clone(), "V1".into(), 1);
    finish_session(&mut session, 3, &meta, 9);
    assert_eq!(session.state, SessionState::Seeding);
    assert_eq!(session.last_active, 9);
    let mut partial = TorrentSession::with_id("id".into(), meta.clone(), "V1".into(), 1);
    finish_session(&mut partial, 1, &meta, 9);
    assert_ne!(partial.state, SessionState::Seeding);
}

fn greeting(id: u8, size: usize) -> PeerMessage {
    let payload = format!("d1:md11:ut_metadatai{id}ee13:metadata_sizei{size}ee").into_bytes();
    PeerMessage::Extended { id: 0, payload }
}

fn part(id: u8, number: u32, total: usize, data: &[u8]) -> PeerMessage {
    let mut payload = vec![id];
    payload.extend_from_slice(
        format!("d8:msg_typei1e5:piecei{number}e10:total_sizei{total}ee").as_bytes(),
    );
    payload.extend_from_slice(data);
    PeerMessage::Extended { id, payload }
}

#[test]
fn descriptions_are_fetched_in_parts() {
    // A description of more than one part, with its hashes in the middle.
    let hashes = 1000 * 20;
    let mut d = b"d4:infod6:lengthi4000e4:name4:test12:piece lengthi4e6:pieces20000:".to_vec();
    d.extend_from_slice(&vec![b'h'; hashes]);
    d.extend_from_slice(b"ee");
    let (mut fetch, first) = MetadataFetch::begin();
    assert!(matches!(first, PeerMessage::Extended { id: 0, .. }));
    assert!(matches!(fetch.received(PeerMessage::Choke), FetchAction::Receive));
    match fetch.received(greeting(3, d.len())) {
        FetchAction::Send(PeerMessage::Extended { id, payload }) => {
            assert_eq!((id, payload[0]), (3, 3));
        }
        other => panic!("unexpected {:?}", other),
    }
    assert!(matches!(fetch.received(PeerMessage::KeepAlive), FetchAction::Receive));
    assert!(matches!(
        fetch.received(part(3, 0, d.len(), &d[..16_384])),
        FetchAction::Send(PeerMessage::Extended { id: 3, .. })
    ));
    match fetch.received(part(3, 1, d.len(), &d[16_384..])) {
        FetchAction::Finish(m) => {
            assert_eq!((m.name.as_str(), m.total_size, m.pieces.len()), ("test", 4000, 1000));
        }
        other => panic!("unexpected {:?}", other),
    }
    assert_eq!(fetch.stage(), FetchStage::Over);
    assert!(matches!(fetch.received(PeerMessage::Choke), FetchAction::Fail));
}

#[test]
fn descriptions_are_given_up() {
    let (mut silent, _) = MetadataFetch::begin();
    for _ in 0..9 {
        assert!(matches!(silent.received(PeerMessage::Choke), FetchAction::Receive));
    }
    assert!(matches!(silent.received(PeerMessage::Choke), FetchAction::Fail));

    let (mut unable, _) = MetadataFetch::begin();
    assert!(matches!(
        unable.received(PeerMessage::Extended { id: 0, payload: b"de".to_vec() }),
        FetchAction::Fail
    ));

    let (mut empty, _) = MetadataFetch::begin();
    assert!(matches!(empty.received(greeting(3, 0)), FetchAction::Fail));

    let (mut late, _) = MetadataFetch::begin();
    assert!(matches!(late.received(greeting(3, 10)), FetchAction::Send(_)));
    for _ in 0..19 {
        assert!(matches!(late.received(PeerMessage::Choke), FetchAction::Receive));
    }
    assert!(matches!(late.received(PeerMessage::Choke), FetchAction::Fail));
}

#[test]
fn blocks_are_asked_for_and_pieces_stored() {
    let (meta, data) = torrent();
    let mut scheduler = SchedulerState::new(3);
    let mut task = PeerTask::new([7; 20]);
    assert_eq!(opening_messages().len(), 2);
    assert!(matches!(
        task.handle_message(&mut scheduler.tracker, &meta, PeerMessage::Unchoke),
        PeerStep::Skip
    ));
    assert!(matches!(
        task.handle_message(
            &mut scheduler.tracker,
            &meta,
            PeerMessage::Bitfield { bits: vec![0b1110_0000] }
        ),
        PeerStep::Check
    ));
    let mut done = 0u64;
    for _ in 0..3 {
        let (index, begin, length) = match task.next_request(&mut scheduler, &meta) {
            Some(PeerMessage::Request { index, begin, length }) => (index, begin, length),
            other => panic!("unexpected {:?}", other),
        };
        assert_eq!(begin, 0);
        let at = index as usize * 40;
        let block = data[at..at + length as usize].to_vec();
        let step = task.handle_message(
            &mut scheduler.tracker,
            &meta,
            PeerMessage::Piece { index, begin, data: block.clone() },
        );
        match step {
            PeerStep::Store { index: i, data: d } => {
                assert_eq!((i, &d), (index, &block));
                done = piece_stored(&mut scheduler.tracker, done, i, d.len() as u64, true);
            }
            other => panic!("unexpected {:?}", other),
        }
    }
    assert_eq!(done, 100);
    assert!(scheduler.tracker.is_complete());
    assert!(task.next_request(&mut scheduler, &meta).is_none());
}

#[test]
fn wrong_pieces_are_not_stored() {
    let (meta, _) = torrent();
    let mut tracker = PieceTracker::new(3);
    let mut task = PeerTask::new([7; 20]);
    let step = task.handle_message(
        &mut tracker,
        &meta,
        PeerMessage::Piece { index: 0, begin: 0, data: vec![0xff; 40] },
    );
    assert!(matches!(step, PeerStep::Check));
}

#[test]
fn pieces_that_could_not_be_stored_are_asked_for_again() {
    let mut tracker = PieceTracker::new(1);
    tracker.set_peer_have([7; 20], 0);
    tracker.mark_requested(0);
    assert_eq!(tracker.next_piece(), None);
    assert_eq!(piece_stored(&mut tracker, 5, 0, 40, false), 5);
    assert!(!tracker.has(0));
    assert_eq!(tracker.next_piece(), Some(0));
}

#[test]
fn large_pieces_are_fetched_in_blocks() {
    let (mut meta, _) = torrent();
    meta.piece_length = 40_000;
    meta.total_size = 100_000;
    let mut scheduler = SchedulerState::new(3);
    scheduler.tracker.set_peer_have([7; 20], 2);
    assert_eq!(scheduler.next_block(&meta), Some((2, 0, BLOCK_SIZE)));
    assert_eq!(scheduler.next_block(&meta), Some((2, BLOCK_SIZE, 20_000 - BLOCK_SIZE)));
    assert_eq!(scheduler.next_block(&meta), None);
}

#[test]
fn the_rarest_piece_comes_first() {
    let mut tracker = PieceTracker::new(4);
    tracker.set_peer_bitfield([1; 20], &[0b1110_0000]);
    tracker.set_peer_bitfield([2; 20], &[0b1010_0000]);
    assert_eq!(tracker.next_piece(), Some(1));
    assert_eq!(tracker.peer_count_for(0), 2);
    tracker.mark_have(1);
    assert_ne!(tracker.next_piece(), Some(1));
    assert_eq!((tracker.have_count(), tracker.remaining()), (1, 3));
}

#[test]
fn blocks_in_any_order_make_the_piece() {
    let data: Vec<u8> = (0..50u8).collect();
    let mut a = PieceAssembler::new(0, 50);
    a.add_block(0, data[..20].to_vec());
    a.add_block(20, data[20..].to_vec());
    let mut b = PieceAssembler::new(0, 50);
    b.add_block(20, data[20..].to_vec());
    b.add_block(0, data[..20].to_vec());
    assert_eq!(a.assemble(), Some(data.clone()));
    assert_eq!(b.assemble(), Some(data.clone()));
    assert!(a.verify(&digest(&data)) && b.verify(&digest(&data)));
}

#[test]
fn pieces_are_cut_at_the_ends_of_files() {
    let (meta, data) = torrent();
    let layout = FileLayout::new(&meta.files, 40);
    let cut = layout.piece_segments(0, &data[..40]);
    assert_eq!(cut, vec![(0, 0, data[..30].to_vec()), (1, 0, data[30..40].to_vec())]);
    assert_eq!(layout.piece_segment_ranges(0, 40), vec![(0, 0, 30), (1, 0, 10)]);
    assert_eq!(layout.piece_segment_ranges(2, 20), vec![(1, 50, 20)]);
    let joined: Vec<u8> = cut.into_iter().flat_map(|(_, _, d)| d).collect();
    assert_eq!(joined, data[..40]);
}

#[test]
fn written_pieces_read_back() {
    let (meta, data) = torrent();
    let (writes, complete) = write_plan(&meta, 0, &data[..40]).unwrap();
    assert!(complete);
    let mut disk: Vec<(Vec<String>, Vec<u8>)> = Vec::new();
    for w in &writes {
        let mut bytes = vec![0u8; w.offset as usize];
        bytes.extend_from_slice(&w.data);
        disk.push((w.path.clone(), bytes));
    }
    let mut back = Vec::new();
    for r in read_plan(&meta, 0).unwrap() {
        let (_, bytes) = disk.iter().find(|(p, _)| *p == r.path).unwrap();
        back.extend_from_slice(&bytes[r.offset as usize..(r.offset + r.count) as usize]);
    }
    assert_eq!(back, data[..40]);
    assert!(piece_matches(&meta, 0, &back));
    assert!(!piece_matches(&meta, 1, &back));
    assert!(!piece_matches(&meta, 3, &back));
}

#[test]
fn the_last_piece_is_shorter() {
    let (meta, _) = torrent();
    assert_eq!(piece_length(&meta, 0), 40);
    assert_eq!(piece_length(&meta, 2), 20);
    assert_eq!(resume_file_name(&[0xab; 20]), format!("{}.vtorrent", "ab".repeat(20)));
}

#[test]
fn paths_stay_below_their_base() {
    let base = vec!["downloads".to_string()];
    let parts = |v: &[&str]| v.iter().map(|s| s.to_string()).collect::<Vec<String>>();
    assert_eq!(
        sanitize_path(&base, &parts(&["dir", "file.txt"])),
        Some(parts(&["downloads", "dir", "file.txt"]))
    );
    for bad in ["", ".", "..", "/etc", "a/b", "a\\b", "C:x"] {
        assert_eq!(sanitize_path(&base, &parts(&["dir", bad])), None, "{bad}");
    }
    assert_eq!(sanitize_path(&base, &[]), Some(base.clone()));
}

#[test]
fn blocks_come_in_any_order_and_again() {
    let data: Vec<u8> = (0..50u8).collect();
    let cuts = [(0usize, 7usize), (7, 20), (20, 21), (21, 50)];
    for order in [[3, 1, 3, 0, 1, 2], [2, 2, 1, 0, 0, 3], [0, 1, 2, 3, 0, 1]] {
        let mut a = PieceAssembler::new(0, 50);
        let mut seen: Vec<usize> = Vec::new();
        for i in order {
            let (from, to) = cuts[i];
            a.add_block(from as u32, data[from..to].to_vec());
            if !seen.contains(&i) {
                seen.push(i);
            }
            let want = if seen.len() == 4 { Some(data.clone()) } else { None };
            assert_eq!(a.assemble(), want);
        }
    }
}

#[test]
fn what_runs_past_the_files_is_left_out() {
    let (meta, data) = torrent();
    let layout = FileLayout::new(&meta.files, 40);
    let total: usize = meta.files.iter().map(|f| f.length as usize).sum();
    let mut long = data[80..].to_vec();
    let inside = total - 80;
    long.truncate(inside);
    long.extend_from_slice(&[0xee; 15]);
    let joined: Vec<u8> = layout.piece_segments(2, &long).into_iter().flat_map(|(_, _, d)| d).collect();
    assert_eq!(joined, long[..inside]);
    assert!(layout.piece_segments(9, &long).is_empty());
}
