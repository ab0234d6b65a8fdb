//! Pieces and their files.

use sha1::{Digest, Sha1};
use vtorrent::torrent::metainfo::TorrentFile;
use vtorrent::torrent::pieces::{FileLayout, PieceAssembler};

fn sha1_of(data: &[u8]) -> [u8; 20] {
    let mut hasher = Sha1::new();
    hasher.update(data);
    let digest = hasher.finalize();
    let mut out = [0u8; 20];
    out.copy_from_slice(&digest);
    out
}

#[test]
fn test_piece_assembler_complete_and_verify() {
    let data = b"hello world, this is a test piece";
    let hash = sha1_of(data);
    let mut assembler = PieceAssembler::new(0, data.len() as u64);
    assembler.add_block(0, data[..10].to_vec());
    assembler.add_block(10, data[10..].to_vec());
    assert!(assembler.is_complete());
    assert_eq!(assembler.assemble().unwrap(), data);
    assert!(assembler.verify(&hash));
}

#[test]
fn test_piece_assembler_incomplete() {
    let mut assembler = PieceAssembler::new(0, 100);
    assembler.add_block(0, vec![0u8; 50]);
    assert!(!assembler.is_complete());
    assert!(assembler.assemble().is_none());
}

#[test]
fn test_piece_assembler_wrong_hash() {
    let mut assembler = PieceAssembler::new(0, 4);
    assembler.add_block(0, b"test".to_vec());
    assert!(!assembler.verify(&[0u8; 20]));
}

#[test]
fn test_file_layout_single_file() {
    let files = vec![TorrentFile {
        path: vec!["a.bin".to_string()],
        length: 100,
        md5sum: None,
    }];
    let layout = FileLayout::new(&files, 50);
    let segs = layout.piece_segments(0, &[0u8; 50]);
    assert_eq!(segs.len(), 1);
    assert_eq!(segs[0].0, 0);
    assert_eq!(segs[0].1, 0);
    assert_eq!(segs[0].2.len(), 50);
}

#[test]
fn test_file_layout_multi_file_boundary() {
    let files = vec![
        TorrentFile {
            path: vec!["a.bin".to_string()],
            length: 30,
            md5sum: None,
        },
        TorrentFile {
            path: vec!["b.bin".to_string()],
            length: 70,
            md5sum: None,
        },
    ];
    let layout = FileLayout::new(&files, 50);
    let segs = layout.piece_segments(0, &[0u8; 50]);
    assert_eq!(segs.len(), 2);
    assert_eq!(segs[0].0, 0);
    assert_eq!(segs[0].1, 0);
    assert_eq!(segs[0].2.len(), 30);
    assert_eq!(segs[1].0, 1);
    assert_eq!(segs[1].1, 0);
    assert_eq!(segs[1].2.len(), 20);
}
