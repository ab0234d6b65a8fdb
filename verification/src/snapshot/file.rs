//! The binary snapshot file.
//!
//! A header with magic bytes, height, total supply, number of addresses, the entries' digest, the
//! time of creation and the number of entries, then for each entry the length of its address, the
//! address and the balance. Integers are little-endian.
use crate::bytes::append_slice;
use crate::bytes::le_digits;
use crate::bytes::le_value;
use crate::bytes::lemma_le_roundtrip;
use crate::bytes::lemma_pow256_values;
use crate::bytes::push_u32_le;
use crate::bytes::push_u64_le;
use crate::bytes::read_u32_le;
use crate::bytes::read_u64_le;
use crate::snapshot::chainstate::RawUtxo;
use crate::snapshot::error::SnapshotError;
use crate::snapshot::error::SnapshotFault;
use crate::snapshot::utxo_set::address_key;
use crate::snapshot::utxo_set::balance_of;
use crate::snapshot::utxo_set::compute_entries_hash;
use crate::snapshot::utxo_set::credits;
use crate::snapshot::utxo_set::entries_digest;
use crate::snapshot::utxo_set::entry_views;
use crate::snapshot::utxo_set::in_order;
use crate::snapshot::utxo_set::is_snapshot_of;
use crate::snapshot::utxo_set::lemma_strict_is_order;
use crate::snapshot::utxo_set::total_of;
use crate::snapshot::utxo_set::Entry;
use crate::snapshot::utxo_set::Metadata;
use crate::snapshot::utxo_set::SnapshotEntry;
use crate::snapshot::utxo_set::SnapshotMetadata;
use crate::snapshot::utxo_set::UtxoSnapshot;
use crate::text::decode_text;
use crate::text::hex_bytes;
use crate::text::hex_decode;
use crate::text::hex_encode;
use crate::text::hex_error_text;
use crate::text::hex_text;
use crate::text::join;
use crate::text::utf8_error_text;
use vstd::prelude::*;
use vstd::utf8::decode_utf8;
use vstd::utf8::encode_utf8;
use vstd::utf8::valid_utf8;

verus! {

/// The number of bytes before the entries.
pub const HEADER_SIZE: usize = 72;

/// The longest address that an entry holds, in bytes.
pub const MAX_ADDRESS_SIZE: usize = 255;

/// The bytes that a snapshot file starts with.
pub open spec fn magic() -> Seq<u8> {
    seq![0x56u8, 0x54u8, 0x52u8, 0x01u8]
}

/// The bytes of one entry.
pub open spec fn entry_bytes(e: Entry) -> Seq<u8> {
    seq![encode_utf8(e.address).len() as u8] + encode_utf8(e.address) + le_digits(
        e.balance as nat,
        8,
    )
}

/// The bytes of the entries.
pub open spec fn body_bytes(s: Seq<Entry>) -> Seq<u8>
    decreases s.len(),
{
    if s.len() == 0 {
        Seq::empty()
    } else {
        body_bytes(s.drop_last()) + entry_bytes(s.last())
    }
}

/// The bytes before the entries.
pub open spec fn header_bytes(m: Metadata, hash: Seq<u8>, count: nat) -> Seq<u8> {
    magic() + le_digits(m.snapshot_height as nat, 4) + le_digits(m.total_supply as nat, 8)
        + le_digits(m.total_addresses as nat, 8) + hash + le_digits(m.created_at as nat, 8)
        + le_digits(count, 8)
}

/// Whether every address fits an entry.
pub open spec fn addresses_fit(s: Seq<Entry>) -> bool {
    forall|i: int| 0 <= i < s.len() ==> (#[trigger] address_key(s[i])).len() <= MAX_ADDRESS_SIZE
}

/// The file for a snapshot, or why there is none.
pub open spec fn file_of(m: Metadata, s: Seq<Entry>) -> Result<Seq<u8>, SnapshotFault> {
    match hex_bytes(encode_utf8(m.entries_hash)) {
        None => Err(
            SnapshotFault::Serialization(
                "Invalid hash: "@ + hex_error_text(encode_utf8(m.entries_hash)),
            ),
        ),
        Some(hash) => if hash.len() != 32 {
            Err(SnapshotFault::Serialization("Hash must be 32 bytes"@))
        } else if !addresses_fit(s) {
            Err(SnapshotFault::Serialization("Address too long"@))
        } else {
            Ok(header_bytes(m, hash, s.len()) + body_bytes(s))
        },
    }
}

fn refusal(text: &str) -> (e: SnapshotError)
    ensures
        e@ == SnapshotFault::Serialization(text@),
{
    SnapshotError::Serialization(text.to_owned())
}

/// Writes a snapshot in the binary format.
pub fn encode_binary(snapshot: &UtxoSnapshot) -> (r: Result<Vec<u8>, SnapshotError>)
    ensures
        match file_of(snapshot.metadata@, entry_views(snapshot.entries@)) {
            Ok(b) => r matches Ok(v) && v@ == b,
            Err(f) => r matches Err(e) && e@ == f,
        },
{
    let ghost s = entry_views(snapshot.entries@);
    let hash: Vec<u8> = match hex_decode(snapshot.metadata.entries_hash.as_str().as_bytes()) {
        Ok(h) => h,
        Err(t) => {
            return Err(SnapshotError::Serialization(join("Invalid hash: ", t.as_str())));
        },
    };
    if hash.len() != 32 {
        return Err(refusal("Hash must be 32 bytes"));
    }
    let mut buf: Vec<u8> = Vec::new();
    buf.push(0x56);
    buf.push(0x54);
    buf.push(0x52);
    buf.push(0x01);
    assert(buf@ =~= magic());
    push_u32_le(&mut buf, snapshot.metadata.snapshot_height);
    push_u64_le(&mut buf, snapshot.metadata.total_supply);
    push_u64_le(&mut buf, snapshot.metadata.total_addresses);
    append_slice(&mut buf, hash.as_slice());
    push_u64_le(&mut buf, snapshot.metadata.created_at);
    push_u64_le(&mut buf, snapshot.entries.len() as u64);
    let ghost head = buf@;
    assert(head == header_bytes(snapshot.metadata@, hash@, s.len()));
    let mut i: usize = 0;
    assert(s.take(0) =~= Seq::<Entry>::empty());
    assert(head + body_bytes(s.take(0)) =~= head);
    while i < snapshot.entries.len()
        invariant
            i <= snapshot.entries@.len(),
            s == entry_views(snapshot.entries@),
            buf@ == head + body_bytes(s.take(i as int)),
            hex_bytes(encode_utf8(snapshot.metadata@.entries_hash)) == Some(hash@),
            hash@.len() == 32,
            forall|k: int| 0 <= k < i ==> (#[trigger] address_key(s[k])).len() <= MAX_ADDRESS_SIZE,
        decreases snapshot.entries@.len() - i,
    {
        let text: &[u8] = snapshot.entries[i].address.as_str().as_bytes();
        assert(text@ == address_key(s[i as int]));
        if text.len() > MAX_ADDRESS_SIZE {
            return Err(refusal("Address too long"));
        }
        buf.push(text.len() as u8);
        append_slice(&mut buf, text);
        push_u64_le(&mut buf, snapshot.entries[i].balance);
        i = i + 1;
        proof {
            assert(s.take(i as int).drop_last() =~= s.take(i - 1));
            assert(s.take(i as int).last() == s[i - 1]);
            assert(buf@ =~= head + body_bytes(s.take(i as int)));
        }
    }
    assert(s.take(i as int) =~= s);
    Ok(buf)
}

/// The `n` entries at `pos`, or why they cannot be read.
pub open spec fn entries_at(data: Seq<u8>, pos: int, n: nat) -> Result<Seq<Entry>, SnapshotFault>
    decreases n,
{
    if n == 0 {
        Ok(Seq::empty())
    } else if pos >= data.len() {
        Err(SnapshotFault::Serialization("Unexpected end of entries"@))
    } else {
        let end = pos + 1 + data[pos];
        if end > data.len() {
            Err(SnapshotFault::Serialization("Address truncated"@))
        } else {
            let text = data.subrange(pos + 1, end);
            if !valid_utf8(text) {
                Err(
                    SnapshotFault::Serialization(
                        "Invalid address UTF-8: "@ + utf8_error_text(text),
                    ),
                )
            } else if end + 8 > data.len() {
                Err(SnapshotFault::Serialization("Unexpected end of snapshot"@))
            } else {
                let e = Entry {
                    address: decode_utf8(text),
                    balance: le_value(data.subrange(end, end + 8)) as u64,
                    utxo_count: 0,
                };
                match entries_at(data, end + 8, (n - 1) as nat) {
                    Ok(rest) => Ok(seq![e] + rest),
                    Err(f) => Err(f),
                }
            }
        }
    }
}

/// The snapshot that a file holds, or why it cannot be read.
pub open spec fn snapshot_in(data: Seq<u8>) -> Result<(Metadata, Seq<Entry>), SnapshotFault> {
    if data.len() < 4 || data.take(4) != magic() {
        Err(SnapshotFault::Serialization("Invalid snapshot magic bytes"@))
    } else if data.len() < 24 {
        Err(SnapshotFault::Serialization("Unexpected end of snapshot"@))
    } else if data.len() < 56 {
        Err(SnapshotFault::Serialization("Unexpected end of snapshot (hash)"@))
    } else if data.len() < HEADER_SIZE {
        Err(SnapshotFault::Serialization("Unexpected end of snapshot"@))
    } else {
        let count = le_value(data.subrange(64, 72));
        match entries_at(data, HEADER_SIZE as int, count) {
            Err(f) => Err(f),
            Ok(entries) => Ok(
                (
                    Metadata {
                        snapshot_height: le_value(data.subrange(4, 8)) as u32,
                        total_supply: le_value(data.subrange(8, 16)) as u64,
                        total_addresses: le_value(data.subrange(16, 24)) as u64,
                        total_utxos: count as u64,
                        entries_hash: hex_text(data.subrange(24, 56)),
                        created_at: le_value(data.subrange(56, 64)) as u64,
                        best_block_hash: Seq::empty(),
                    },
                    entries,
                ),
            ),
        }
    }
}

/// The entries read so far, followed by what reading the others gives.
spec fn prepend(done: Seq<Entry>, r: Result<Seq<Entry>, SnapshotFault>) -> Result<
    Seq<Entry>,
    SnapshotFault,
> {
    match r {
        Ok(rest) => Ok(done + rest),
        Err(f) => Err(f),
    }
}

fn parse_entries(data: &[u8], count: u64) -> (r: Result<Vec<SnapshotEntry>, SnapshotError>)
    requires
        HEADER_SIZE <= data@.len(),
    ensures
        match entries_at(data@, HEADER_SIZE as int, count as nat) {
            Ok(s) => r matches Ok(v) && entry_views(v@) == s,
            Err(f) => r matches Err(e) && e@ == f,
        },
{
    let ghost target = entries_at(data@, HEADER_SIZE as int, count as nat);
    let mut entries: Vec<SnapshotEntry> = Vec::new();
    let mut pos: usize = HEADER_SIZE;
    let mut left: u64 = count;
    assert(prepend(entry_views(entries@), target) == target) by {
        if target is Ok {
            assert(entry_views(entries@) + target->Ok_0 =~= target->Ok_0);
        }
    }
    while left > 0
        invariant
            pos <= data@.len(),
            target == prepend(
                entry_views(entries@),
                entries_at(data@, pos as int, left as nat),
            ),
            target == entries_at(data@, HEADER_SIZE as int, count as nat),
        decreases left,
    {
        if pos >= data.len() {
            return Err(refusal("Unexpected end of entries"));
        }
        let len: usize = data[pos] as usize;
        let room: usize = data.len() - pos - 1;
        if len > room {
            return Err(refusal("Address truncated"));
        }
        let end: usize = pos + 1 + len;
        let text: &[u8] = vstd::slice::slice_subrange(data, pos + 1, end);
        let address: String = match decode_text(text) {
            Ok(a) => a,
            Err(t) => {
                return Err(
                    SnapshotError::Serialization(join("Invalid address UTF-8: ", t.as_str())),
                );
            },
        };
        if data.len() - end < 8 {
            return Err(refusal("Unexpected end of snapshot"));
        }
        let balance: u64 = read_u64_le(data, end);
        let ghost before = entry_views(entries@);
        let ghost rest = entries_at(data@, end + 8, (left - 1) as nat);
        entries.push(SnapshotEntry { address, balance, utxo_count: 0 });
        proof {
            vstd::utf8::encode_utf8_decode_utf8(address@);
            let e = entries@.last()@;
            assert(entry_views(entries@) =~= before.push(e));
            if rest is Ok {
                assert(before + (seq![e] + rest->Ok_0) =~= before.push(e) + rest->Ok_0);
            }
        }
        pos = end + 8;
        left = left - 1;
    }
    assert(entry_views(entries@) + Seq::<Entry>::empty() =~= entry_views(entries@));
    Ok(entries)
}

/// Reads a snapshot in the binary format.
pub fn parse_binary(data: &[u8]) -> (r: Result<UtxoSnapshot, SnapshotError>)
    ensures
        match snapshot_in(data@) {
            Ok((m, s)) => r matches Ok(v) && v.metadata@ == m && entry_views(v.entries@) == s,
            Err(f) => r matches Err(e) && e@ == f,
        },
{
    let len: usize = data.len();
    let started: bool = len >= 4 && data[0] == 0x56 && data[1] == 0x54 && data[2] == 0x52
        && data[3] == 0x01;
    proof {
        if data@.len() >= 4 {
            let t = data@.take(4);
            assert(t[0] == data@[0] && t[1] == data@[1] && t[2] == data@[2] && t[3] == data@[3]);
            assert(started ==> t =~= magic());
            assert(!started ==> t != magic()) by {
                if t == magic() {
                    assert(magic()[0] == 0x56 && magic()[1] == 0x54 && magic()[2] == 0x52
                        && magic()[3] == 0x01);
                }
            }
        }
    }
    if !started {
        return Err(refusal("Invalid snapshot magic bytes"));
    }
    if len < 24 {
        return Err(refusal("Unexpected end of snapshot"));
    }
    if len < 56 {
        return Err(refusal("Unexpected end of snapshot (hash)"));
    }
    if len < HEADER_SIZE {
        return Err(refusal("Unexpected end of snapshot"));
    }
    let snapshot_height: u32 = read_u32_le(data, 4);
    let total_supply: u64 = read_u64_le(data, 8);
    let total_addresses: u64 = read_u64_le(data, 16);
    let entries_hash: String = hex_encode(vstd::slice::slice_subrange(data, 24, 56));
    let created_at: u64 = read_u64_le(data, 56);
    let count: u64 = read_u64_le(data, 64);
    let entries: Vec<SnapshotEntry> = parse_entries(data, count)?;
    Ok(
        UtxoSnapshot {
            metadata: SnapshotMetadata {
                snapshot_height,
                total_addresses,
                total_supply,
                total_utxos: count,
                entries_hash,
                created_at,
                best_block_hash: String::new(),
            },
            entries,
        },
    )
}

/// Accepts a snapshot exactly when its recorded digest is that of its entries.
pub fn verify_integrity(snapshot: &UtxoSnapshot) -> (r: Result<(), SnapshotError>)
    ensures
        snapshot.metadata.entries_hash@ == entries_digest(entry_views(snapshot.entries@))
            ==> r is Ok,
        snapshot.metadata.entries_hash@ != entries_digest(entry_views(snapshot.entries@)) ==> (
        r matches Err(e) && e@ == (SnapshotFault::IntegrityFailed {
            expected: snapshot.metadata.entries_hash@,
            actual: entries_digest(entry_views(snapshot.entries@)),
        })),
{
    let computed: String = compute_entries_hash(&snapshot.entries);
    if computed != snapshot.metadata.entries_hash {
        return Err(
            SnapshotError::IntegrityFailed {
                expected: snapshot.metadata.entries_hash.clone(),
                actual: computed,
            },
        );
    }
    Ok(())
}

/// An entry as the file keeps it: the number of outputs is not written.
pub open spec fn without_counts(s: Seq<Entry>) -> Seq<Entry> {
    Seq::new(s.len(), |i: int| Entry { utxo_count: 0, ..s[i] })
}

proof fn lemma_body_cons(s: Seq<Entry>)
    requires
        s.len() > 0,
    ensures
        body_bytes(s) == entry_bytes(s[0]) + body_bytes(s.skip(1)),
    decreases s.len(),
{
    if s.len() == 1 {
        assert(s.drop_last() =~= Seq::<Entry>::empty());
        assert(s.skip(1) =~= Seq::<Entry>::empty());
        assert(body_bytes(s) =~= entry_bytes(s[0]) + body_bytes(s.skip(1)));
    } else {
        lemma_body_cons(s.drop_last());
        assert(s.drop_last().skip(1) =~= s.skip(1).drop_last());
        assert(body_bytes(s) =~= entry_bytes(s[0]) + body_bytes(s.skip(1)));
    }
}

proof fn lemma_entries_read_back(before: Seq<u8>, s: Seq<Entry>)
    requires
        addresses_fit(s),
    ensures
        entries_at(before + body_bytes(s), before.len() as int, s.len()) == Ok::<
            Seq<Entry>,
            SnapshotFault,
        >(without_counts(s)),
    decreases s.len(),
{
    let data = before + body_bytes(s);
    let pos = before.len() as int;
    if s.len() == 0 {
        assert(without_counts(s) =~= Seq::<Entry>::empty());
    } else {
        lemma_body_cons(s);
        let e = s[0];
        let key = encode_utf8(e.address);
        assert(key == address_key(s[0]));
        lemma_pow256_values();
        lemma_le_roundtrip(e.balance as nat, 8);
        vstd::utf8::encode_utf8_valid_utf8(e.address);
        vstd::utf8::encode_utf8_decode_utf8(e.address);
        let rest = s.skip(1);
        assert forall|i: int| 0 <= i < rest.len() implies (#[trigger] address_key(rest[i])).len()
            <= MAX_ADDRESS_SIZE by {
            assert(rest[i] == s[i + 1]);
            assert(address_key(s[i + 1]).len() <= MAX_ADDRESS_SIZE);
        }
        let next = before + entry_bytes(e);
        lemma_entries_read_back(next, rest);
        assert(data =~= next + body_bytes(rest));
        let end = pos + 1 + key.len();
        assert(data[pos] == key.len() as u8);
        assert(data.subrange(pos + 1, end) =~= key);
        assert(data.subrange(end, end + 8) =~= le_digits(e.balance as nat, 8));
        assert(next.len() == end + 8);
        assert(without_counts(s) =~= seq![Entry { utxo_count: 0, ..e }] + without_counts(rest));
    }
}

/// Reading a written snapshot gives it back, but for what the file does not keep: the numbers of
/// outputs and the best block's hash. The digest comes back in lower case.
pub proof fn law_file_roundtrip(m: Metadata, s: Seq<Entry>)
    requires
        file_of(m, s) is Ok,
        s.len() <= u64::MAX,
    ensures
        snapshot_in(file_of(m, s)->Ok_0) == Ok::<(Metadata, Seq<Entry>), SnapshotFault>(
            (
                Metadata {
                    total_utxos: s.len() as u64,
                    entries_hash: hex_text(hex_bytes(encode_utf8(m.entries_hash))->0),
                    best_block_hash: Seq::empty(),
                    ..m
                },
                without_counts(s),
            ),
        ),
{
    let hash = hex_bytes(encode_utf8(m.entries_hash))->0;
    let head = header_bytes(m, hash, s.len());
    let data = head + body_bytes(s);
    lemma_pow256_values();
    lemma_le_roundtrip(m.snapshot_height as nat, 4);
    lemma_le_roundtrip(m.total_supply as nat, 8);
    lemma_le_roundtrip(m.total_addresses as nat, 8);
    lemma_le_roundtrip(m.created_at as nat, 8);
    lemma_le_roundtrip(s.len(), 8);
    assert(head.len() == HEADER_SIZE);
    assert(data.take(4) =~= magic());
    assert(data.subrange(4, 8) =~= le_digits(m.snapshot_height as nat, 4));
    assert(data.subrange(8, 16) =~= le_digits(m.total_supply as nat, 8));
    assert(data.subrange(16, 24) =~= le_digits(m.total_addresses as nat, 8));
    assert(data.subrange(24, 56) =~= hash);
    assert(data.subrange(56, 64) =~= le_digits(m.created_at as nat, 8));
    assert(data.subrange(64, 72) =~= le_digits(s.len(), 8));
    lemma_entries_read_back(head, s);
}

/// A snapshot as it was built passes the integrity check, is in order, records for every address
/// the sum of its outputs, and in all the sum of the outputs that pay to an address.
pub proof fn law_built_snapshot_is_sound(
    snapshot: UtxoSnapshot,
    raws: Seq<RawUtxo>,
    texts: Seq<Option<String>>,
    height: u32,
    best: Seq<char>,
    now: u64,
    address: Seq<char>,
)
    requires
        is_snapshot_of(snapshot, raws, texts, height, best, now),
    ensures
        snapshot.metadata.entries_hash@ == entries_digest(entry_views(snapshot.entries@)),
        in_order(entry_views(snapshot.entries@)),
        snapshot.metadata.total_supply == total_of(credits(raws, texts), true),
        forall|i: int|
            0 <= i < snapshot.entries@.len() && (#[trigger] entry_views(
                snapshot.entries@,
            )[i]).address == address ==> entry_views(snapshot.entries@)[i].balance == balance_of(
                credits(raws, texts),
                address,
            ),
        (forall|i: int|
            0 <= i < snapshot.entries@.len() ==> (#[trigger] entry_views(
                snapshot.entries@,
            )[i]).address != address) ==> balance_of(credits(raws, texts), address) == 0,
{
    lemma_strict_is_order(entry_views(snapshot.entries@));
    assert(snapshot.metadata@.total_supply == snapshot.metadata.total_supply);
}

} // verus!
