//! Torrent files and magnet links.

use vtorrent::torrent::magnet::MagnetLink;
use vtorrent::torrent::metainfo::Metainfo;

#[test]
fn test_magnet_parse_hex() {
    let uri = "magnet:?xt=urn:btih:aabbccddaabbccddaabbccddaabbccddaabbccdd&dn=Test+Torrent&tr=udp%3A%2F%2Ftracker.example.com%3A6969";
    let m = MagnetLink::parse(uri).unwrap();
    assert_eq!(
        m.info_hash_hex(),
        "aabbccddaabbccddaabbccddaabbccddaabbccdd"
    );
    assert_eq!(m.display_name.as_deref(), Some("Test+Torrent"));
    assert_eq!(m.trackers.len(), 1);
}

#[test]
fn test_magnet_missing_xt_fails() {
    let uri = "magnet:?dn=Test";
    assert!(MagnetLink::parse(uri).is_err());
}

#[test]
fn test_magnet_not_magnet_uri_fails() {
    assert!(MagnetLink::parse("https://example.com").is_err());
}

#[test]
fn test_info_hash_urlencoded() {
    let mut m = MagnetLink {
        info_hash: [0xAA; 20],
        display_name: None,
        trackers: vec![],
        size_hint: None,
    };
    // Manually set a known hash for testing
    m.info_hash[0] = 0x00;
    m.info_hash[1] = 0xFF;
    // The Metainfo urlencoded method
    let meta = Metainfo {
        info_hash: m.info_hash,
        name: "test".into(),
        total_size: 0,
        piece_length: 262144,
        piece_count: 0,
        pieces: Vec::new(),
        announce: None,
        announce_list: vec![],
        files: vec![],
        created_at: None,
        comment: None,
        is_private: false,
    };
    let encoded = meta.info_hash_urlencoded();
    assert!(encoded.starts_with("%00%FF"));
}

#[test]
fn test_info_hash_hashes_raw_bytes() {
    // The info dict uses a non-canonical integer ("i01e"). BEP-3 requires
    // hashing the exact bytes as they appear in the file; re-encoding the
    // parsed value would normalize it to "i1e" and produce a wrong hash.
    let torrent: &[u8] =
        b"d4:infod6:lengthi01e4:name8:test.iso12:piece lengthi32768e6:pieces20:aaaaaaaaaaaaaaaaaaaaee";
    let meta = Metainfo::from_bytes(torrent).unwrap();
    assert_eq!(
        meta.info_hash_hex(),
        "8da789bdef65cc39dd28008f1e2017e5124ee9db"
    );
}

#[test]
fn test_info_hash_multi_file() {
    let torrent: &[u8] = b"d8:announce26:http://tracker.example.com4:infod5:filesld6:lengthi40000e4:pathl3:dir9:file1.txteed6:lengthi60000e4:pathl3:dir9:file2.txteee6:lengthi100000e4:name8:test.dir12:piece lengthi32768e6:pieces80:aaaaaaaaaaaaaaaaaaaaaaaaaaaaaaaaaaaaaaaaaaaaaaaaaaaaaaaaaaaaaaaaaaaaaaaaaaaaaaaaee";
    let meta = Metainfo::from_bytes(torrent).unwrap();
    assert_eq!(meta.name, "test.dir");
    assert_eq!(meta.total_size, 100_000);
    assert_eq!(meta.files.len(), 2);
    assert_eq!(meta.files[0].path, vec!["dir", "file1.txt"]);
    assert_eq!(meta.files[1].path, vec!["dir", "file2.txt"]);
    assert_eq!(
        meta.info_hash_hex(),
        "0a1b23ec28ec4a24f8025733a17a31d2632887a1"
    );
}

#[test]
fn test_info_hash_single_file() {
    let torrent: &[u8] =
        b"d8:announce26:http://tracker.example.com4:infod6:lengthi100000e4:name8:test.iso12:piece lengthi32768e6:pieces80:aaaaaaaaaaaaaaaaaaaaaaaaaaaaaaaaaaaaaaaaaaaaaaaaaaaaaaaaaaaaaaaaaaaaaaaaaaaaaaaaee";
    let meta = Metainfo::from_bytes(torrent).unwrap();
    assert_eq!(meta.name, "test.iso");
    assert_eq!(meta.total_size, 100_000);
    assert_eq!(meta.piece_length, 32_768);
    assert_eq!(meta.piece_count, 4);
    assert_eq!(
        meta.info_hash_hex(),
        "df08b2cf9cc869445ff01af89b070cbba66fecaf"
    );
}

#[test]
fn test_piece_hashes_parsed() {
    // Build a minimal single-file torrent with 2 pieces of 4 bytes each.
    // pieces string = 2 * 20 bytes of SHA1 hashes.
    let mut pieces = Vec::new();
    pieces.extend_from_slice(&[0x11u8; 20]);
    pieces.extend_from_slice(&[0x22u8; 20]);

    // Construct the bencode bytes directly (the pieces value is raw bytes).
    let mut bencode = Vec::new();
    bencode.extend_from_slice(b"d4:infod6:lengthi8e4:name4:test12:piece lengthi4e6:pieces");
    bencode.extend_from_slice(format!("{}:", pieces.len()).as_bytes());
    bencode.extend_from_slice(&pieces);
    bencode.extend_from_slice(b"e8:announce15:http://tracker/e");

    let meta = Metainfo::from_bytes(&bencode).unwrap();
    assert_eq!(meta.piece_count, 2);
    assert_eq!(meta.pieces.len(), 2);
    assert_eq!(meta.pieces[0], [0x11u8; 20]);
    assert_eq!(meta.pieces[1], [0x22u8; 20]);
}

#[test]
fn test_zero_piece_length_rejected() {
    // A malicious torrent with "piece length" = 0 must be rejected instead
    // of dividing by zero when computing the piece count.
    let mut pieces = Vec::new();
    pieces.extend_from_slice(&[0x11u8; 20]);

    let mut bencode = Vec::new();
    bencode.extend_from_slice(b"d4:infod6:lengthi8e4:name4:test12:piece lengthi0e6:pieces");
    bencode.extend_from_slice(format!("{}:", pieces.len()).as_bytes());
    bencode.extend_from_slice(&pieces);
    bencode.extend_from_slice(b"e8:announce15:http://tracker/e");

    let result = Metainfo::from_bytes(&bencode);
    assert!(result.is_err(), "zero piece length must be rejected");
}

#[test]
fn test_negative_length_rejected() {
    // A malicious torrent with a negative "length" must be rejected instead
    // of wrapping to a huge u64 and driving an unbounded allocation.
    let mut pieces = Vec::new();
    pieces.extend_from_slice(&[0x11u8; 20]);

    let mut bencode = Vec::new();
    bencode.extend_from_slice(b"d4:infod6:lengthi-1e4:name4:test12:piece lengthi1e6:pieces");
    bencode.extend_from_slice(format!("{}:", pieces.len()).as_bytes());
    bencode.extend_from_slice(&pieces);
    bencode.extend_from_slice(b"e8:announce15:http://tracker/e");

    let result = Metainfo::from_bytes(&bencode);
    assert!(result.is_err(), "negative length must be rejected");
}
