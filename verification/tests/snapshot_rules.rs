//! Balances of the former chain.

use vtorrent::snapshot::chainstate::{
    amount_fits, collect_utxos, decode_varint, decode_varint_base128, decompress_amount, parse_record,
    RawUtxo,
};
use vtorrent::snapshot::embedded::{lookup_snapshot_balances, ADDR_LEN};
use vtorrent::snapshot::error::SnapshotError;
use vtorrent::snapshot::file::{encode_binary, parse_binary, verify_integrity};
use vtorrent::snapshot::ranking::top_entries;
use vtorrent::snapshot::utxo_set::{
    build_snapshot, build_snapshot_at, compute_entries_hash, lookup_balance, try_build_snapshot,
    try_build_snapshot_at, SnapshotEntry,
};
use vtorrent::snapshot::utxo_value::{decode_script, parse_utxo_value, script_to_address, LegacyAddress};

#[test]
fn errors_of_snapshots_are_described() {
    let x = || "x".to_string();
    assert_eq!(SnapshotError::LevelDb(x()).message(), "LevelDB error: x");
    assert_eq!(SnapshotError::BlockParse(x()).message(), "Block parse error: x");
    assert_eq!(SnapshotError::Io(x()).message(), "IO error: x");
    assert_eq!(SnapshotError::Serialization(x()).message(), "Serialization error: x");
    assert_eq!(SnapshotError::InvalidUtxo(x()).message(), "Invalid UTXO data: x");
    assert!(SnapshotError::IntegrityFailed { expected: x(), actual: "y".to_string() }
        .message()
        .contains("expected x"));
    assert_eq!(
        SnapshotError::DataDirNotFound(x()).message(),
        "Blockchain data directory not found: x"
    );
    assert!(SnapshotError::NoUtxosFound.message().starts_with("No UTXOs found"));
}

#[test]
fn lengths_are_read() {
    assert_eq!(decode_varint(&[]), None);
    assert_eq!(decode_varint(&[0xfd, 1]), None);
    assert_eq!(decode_varint(&[0xfe, 1, 0, 0, 0]), Some((1, 5)));
    assert_eq!(decode_varint(&[0xff, 1, 0, 0, 0, 0, 0, 0, 1]), Some(((1 << 56) + 1, 9)));
    assert_eq!(decode_varint_base128(&[0x00]), Some((0, 1)));
    assert_eq!(decode_varint_base128(&[0x80, 0x00]), Some((128, 2)));
    assert_eq!(decode_varint_base128(&[0x80]), None);
}

#[test]
fn amounts_are_decompressed() {
    assert_eq!(decompress_amount(9), 100_000_000);
    assert_eq!(decompress_amount(50), 5_000_000_000);
    assert!(amount_fits(50));
    assert!(!amount_fits(u64::MAX));
}

fn p2pkh(hash: u8) -> Vec<u8> {
    let mut s = vec![0x76, 0xa9, 0x14];
    s.extend_from_slice(&[hash; 20]);
    s.extend_from_slice(&[0x88, 0xac]);
    s
}

#[test]
fn compressed_scripts_are_unfolded() {
    assert_eq!(decode_script(0, &[7; 20]).unwrap(), p2pkh(7));
    let mut p2sh = vec![0xa9, 0x14];
    p2sh.extend_from_slice(&[7; 20]);
    p2sh.push(0x87);
    assert_eq!(decode_script(1, &[7; 20]).unwrap(), p2sh);
    assert!(decode_script(0, &[7; 19]).is_err());
    assert!(matches!(script_to_address(&p2sh), Some(LegacyAddress::ScriptHash(h)) if h == [7; 20]));
    assert!(script_to_address(&[0x6a]).is_none());
    assert!(script_to_address(&[]).is_none());
}

/// An output of the tenth block, worth one coin, that pays to a key.
fn value_of(hash: u8) -> Vec<u8> {
    let mut v = vec![20, 9, 0];
    v.extend_from_slice(&[hash; 20]);
    v
}

fn raw(txid: u8, hash: u8) -> RawUtxo {
    RawUtxo { txid: [txid; 32], vout: 0, value_bytes: value_of(hash) }
}

#[test]
fn outputs_are_read() {
    let u = parse_utxo_value(&raw(1, 7)).unwrap();
    assert_eq!((u.height, u.is_coinbase, u.amount), (10, false, 100_000_000));
    assert_eq!(u.script, p2pkh(7));
    assert!(matches!(u.address, Some(LegacyAddress::PubkeyHash(h)) if h == [7; 20]));
    let empty = RawUtxo { txid: [1; 32], vout: 0, value_bytes: vec![] };
    assert!(parse_utxo_value(&empty).is_err());
}

#[test]
fn short_keys_are_skipped() {
    assert!(parse_record(b"x", vec![1]).is_none());
    let mut key = vec![b'c'];
    key.extend_from_slice(&[5; 32]);
    key.push(3);
    let u = parse_record(&key, vec![1, 2]).unwrap();
    assert_eq!((u.txid, u.vout, u.value_bytes), ([5; 32], 3, vec![1, 2]));
    let records = vec![(b"B".to_vec(), vec![1]), (key, vec![1, 2])];
    assert_eq!(collect_utxos(&records).unwrap().len(), 1);
    assert!(matches!(collect_utxos(&vec![]), Err(SnapshotError::NoUtxosFound)));
}

#[test]
fn snapshots_are_sound() {
    let raws = vec![raw(1, 7), raw(2, 8), raw(3, 7)];
    let texts = vec![Some("VB".to_string()), Some("VA".to_string()), Some("VB".to_string())];
    assert!(try_build_snapshot_at(&raws, &texts, 10, "best", 99).is_some());
    let s = build_snapshot_at(&raws, &texts, 10, "best", 99);
    assert_eq!(s.entries.len(), 2);
    assert_eq!((s.entries[0].address.as_str(), s.entries[0].balance), ("VA", 100_000_000));
    assert_eq!((s.entries[1].balance, s.entries[1].utxo_count), (200_000_000, 2));
    assert_eq!((s.metadata.total_supply, s.metadata.total_utxos), (300_000_000, 3));
    assert_eq!((s.metadata.snapshot_height, s.metadata.created_at), (10, 99));
    assert_eq!(s.metadata.entries_hash, compute_entries_hash(&s.entries));
    assert!(verify_integrity(&s).is_ok());
    assert_eq!(lookup_balance(&s, "VB"), 200_000_000);
    assert_eq!(lookup_balance(&s, "VC"), 0);
    let back = parse_binary(&encode_binary(&s).unwrap()).unwrap();
    assert_eq!(back.entries.len(), 2);
    assert_eq!(back.entries[1].address, "VB");
    let timed = build_snapshot(&raws, &texts, 10, "best");
    assert!(timed.metadata.created_at > 1_600_000_000);
}

#[test]
fn changed_snapshots_are_noticed() {
    let mut s = build_snapshot_at(&vec![raw(1, 7)], &vec![Some("VA".to_string())], 10, "best", 99);
    s.entries[0].balance += 1;
    assert!(matches!(verify_integrity(&s), Err(SnapshotError::IntegrityFailed { .. })));
    let bytes = encode_binary(&s).unwrap();
    assert!(parse_binary(&bytes[..10]).is_err());
    assert!(parse_binary(&bytes[..bytes.len() - 1]).is_err());
    s.entries[0].address = "V".repeat(256);
    assert!(encode_binary(&s).is_err());
    let digest = compute_entries_hash(&vec![SnapshotEntry {
        address: "VA".to_string(),
        balance: 1,
        utxo_count: 1,
    }]);
    assert_eq!(digest.len(), 64);
}

#[test]
fn the_embedded_table_is_searched() {
    let a = "V".to_string() + &"a".repeat(ADDR_LEN - 1);
    let b = "V".to_string() + &"b".repeat(ADDR_LEN - 1);
    let mut table = b"VTRS".to_vec();
    table.extend_from_slice(&1u32.to_le_bytes());
    table.extend_from_slice(&2u32.to_le_bytes());
    for (address, balance) in [(&a, 5u64), (&b, 7u64)] {
        table.extend_from_slice(address.as_bytes());
        table.extend_from_slice(&balance.to_le_bytes());
    }
    let all = lookup_snapshot_balances(&table, &vec![a.clone(), b.clone()]);
    assert_eq!(all, 12);
    assert_eq!(lookup_snapshot_balances(&table, &vec![b]), 7);
    assert_eq!(lookup_snapshot_balances(&table, &vec!["Vx".to_string()]), 0);
    assert_eq!(lookup_snapshot_balances(&table[..20], &vec![a]), 0);
}

/// An output of the tenth block worth ten billion billions, more than half of what a sum can hold.
fn large(txid: u8) -> RawUtxo {
    let mut n: u64 = 100_000_000_000;
    let mut packed = vec![(n & 0x7f) as u8];
    while n > 0x7f {
        n = (n >> 7) - 1;
        packed.push((n & 0x7f) as u8 | 0x80);
    }
    packed.reverse();
    let mut value_bytes = vec![20];
    value_bytes.extend_from_slice(&packed);
    value_bytes.push(0);
    value_bytes.extend_from_slice(&[7; 20]);
    RawUtxo { txid: [txid; 32], vout: 0, value_bytes }
}

#[test]
fn sums_with_and_without_address_are_kept_apart() {
    let amount = 10_000_000_000_000_000_000;
    assert_eq!(parse_utxo_value(&large(1)).unwrap().amount, amount);
    let raws = vec![large(1), large(2)];
    let texts = |a: Option<&str>, b: Option<&str>| vec![a.map(String::from), b.map(String::from)];
    let built = |t: &Vec<Option<String>>| try_build_snapshot_at(&raws, t, 10, "best", 99);
    let s = built(&texts(Some("VA"), None)).unwrap();
    assert_eq!((s.metadata.total_supply, s.metadata.total_utxos), (amount, 2));
    assert_eq!((s.entries.len(), s.entries[0].balance, s.entries[0].utxo_count), (1, amount, 1));
    assert!(built(&texts(Some("VA"), Some("VB"))).is_none());
    assert!(built(&texts(None, None)).is_none());
    assert!(built(&vec![None]).is_none());
    let timed = try_build_snapshot(&raws, &texts(None, Some("VB")), 10, "best").unwrap();
    assert_eq!(timed.metadata.total_supply, amount);
}

#[test]
fn the_richest_entries_come_first() {
    let entry = |address: &str, balance: u64| SnapshotEntry {
        address: address.to_string(),
        balance,
        utxo_count: 1,
    };
    let entries =
        vec![entry("VA", 5), entry("VB", 9), entry("VC", 5), entry("VD", 7), entry("VE", 9)];
    let names = |n: usize| -> Vec<String> {
        top_entries(&entries, n).into_iter().map(|e| e.address).collect()
    };
    assert_eq!(names(0), Vec::<String>::new());
    assert_eq!(names(1), ["VB"]);
    assert_eq!(names(4), ["VB", "VE", "VD", "VA"]);
    assert_eq!(names(10), ["VB", "VE", "VD", "VA", "VC"]);
    let top = top_entries(&entries, 3);
    assert_eq!((top[2].balance, top[2].utxo_count), (7, 1));
    assert!(top_entries(&[], 10).is_empty());
}

#[test]
fn a_digest_that_is_not_hexadecimal_is_described() {
    let mut s = build_snapshot_at(&vec![raw(1, 7)], &vec![Some("VA".to_string())], 10, "best", 99);
    let mut refusal = |digest: &str| {
        s.metadata.entries_hash = digest.to_string();
        encode_binary(&s).unwrap_err().message()
    };
    assert_eq!(refusal("abc"), "Serialization error: Invalid hash: Odd number of digits");
    assert_eq!(
        refusal("0fzy"),
        "Serialization error: Invalid hash: Invalid character 'z' at position 2"
    );
    assert_eq!(
        refusal("0\n"),
        "Serialization error: Invalid hash: Invalid character '\\n' at position 1"
    );
    assert_eq!(refusal("00"), "Serialization error: Hash must be 32 bytes");
}
