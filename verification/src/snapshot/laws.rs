//! What holds of reading the former chain's records and of the tables made from them.
use crate::bytes::Order;
use crate::bytes::bytes_before;
use crate::bytes::bytes_order;
use crate::bytes::le_digits;
use crate::bytes::le_value;
use crate::bytes::lemma_le_roundtrip;
use crate::bytes::lemma_pow256_values;
use crate::crypto::sha256_of;
use crate::snapshot::chainstate::base128;
use crate::snapshot::chainstate::compact_size;
use crate::snapshot::chainstate::compressed;
use crate::snapshot::chainstate::law_amounts_are_compressed_without_loss;
use crate::snapshot::chainstate::record_utxo;
use crate::snapshot::chainstate::records_utxos;
use crate::snapshot::chainstate::RawUtxo;
use crate::snapshot::embedded::recorded;
use crate::snapshot::embedded::recorded_total;
use crate::snapshot::embedded::table_address;
use crate::snapshot::embedded::table_balance;
use crate::snapshot::embedded::table_complete;
use crate::snapshot::embedded::table_count;
use crate::snapshot::file::body_bytes;
use crate::snapshot::file::entry_bytes;
use crate::snapshot::file::file_of;
use crate::snapshot::ranking::at_most;
use crate::snapshot::ranking::is_ranking;
use crate::snapshot::ranking::law_top_entries_are_the_greatest;
use crate::snapshot::ranking::ranks_above;
use crate::snapshot::utxo_set::UtxoSnapshot;
use crate::snapshot::utxo_set::balance_of;
use crate::snapshot::utxo_set::count_of;
use crate::snapshot::utxo_set::credits;
use crate::snapshot::utxo_set::digest_input;
use crate::snapshot::utxo_set::entries_digest;
use crate::snapshot::utxo_set::entry_views;
use crate::snapshot::utxo_set::is_snapshot_of;
use crate::snapshot::utxo_set::supply;
use crate::snapshot::utxo_set::total_of;
use crate::snapshot::utxo_set::Credit;
use crate::snapshot::utxo_set::Entry;
use crate::snapshot::utxo_set::Metadata;
use crate::snapshot::utxo_value::expanded_script;
use crate::snapshot::utxo_value::payee_of;
use crate::snapshot::utxo_value::unpacked;
use crate::snapshot::utxo_value::Payee;
use crate::snapshot::utxo_value::Unspent;
use crate::text::hex_bytes;
use crate::text::hex_text;
use vstd::prelude::*;
use vstd::utf8::encode_utf8;

verus! {

// ---- numbers in records ----

/// The base-128 digits before the last of a number, each with the top bit set. One is taken off
/// for each digit that another follows, so that every number has one form.
pub open spec fn leading_digits(n: nat) -> Seq<u8>
    decreases n,
{
    if n < 128 {
        Seq::empty()
    } else {
        let m = (n / 128 - 1) as nat;
        leading_digits(m).push((128 + m % 128) as u8)
    }
}

/// A number in base 128.
pub open spec fn base128_code(n: nat) -> Seq<u8> {
    leading_digits(n).push((n % 128) as u8)
}

proof fn lemma_leading(n: nat, tail: Seq<u8>)
    requires
        n <= u64::MAX,
    ensures
        base128(leading_digits(n) + tail, 0, 0) == base128(
            leading_digits(n) + tail,
            leading_digits(n).len() as int,
            n / 128,
        ),
    decreases n,
{
    if n >= 128 {
        let m = (n / 128 - 1) as nat;
        let d = (128 + m % 128) as u8;
        let all = leading_digits(n) + tail;
        let k = leading_digits(m).len() as int;
        assert(all =~= leading_digits(m) + (seq![d] + tail));
        lemma_leading(m, seq![d] + tail);
        assert(all[k] == d);
        assert(d % 128 == m % 128);
        assert(128 * (m / 128) + m % 128 == m);
        assert(m / 128 <= u64::MAX / 128);
        assert(base128(all, k, m / 128) == base128(all, k + 1, m + 1));
    }
}

/// A number that was written in base 128 reads back as itself, whatever follows it.
pub proof fn law_base128_roundtrip(n: nat, rest: Seq<u8>)
    requires
        n <= u64::MAX,
    ensures
        base128(base128_code(n) + rest, 0, 0) == Some((n, base128_code(n).len())),
{
    let last = (n % 128) as u8;
    let tail = seq![last] + rest;
    lemma_leading(n, tail);
    let all = base128_code(n) + rest;
    assert(all =~= leading_digits(n) + tail);
    let k = leading_digits(n).len() as int;
    assert(all[k] == last);
    assert(128 * (n / 128) + n % 128 == n);
}

/// A length that was written in one, three, five or nine bytes reads back as itself, whatever
/// follows it.
pub proof fn law_compact_size_roundtrip(n: nat, rest: Seq<u8>)
    requires
        n <= u64::MAX,
    ensures
        compact_size(crate::spv::stake::compact_size(n) + rest) == Some(
            (n, crate::spv::stake::compact_size(n).len()),
        ),
        n < 253 ==> crate::spv::stake::compact_size(n) == seq![n as u8],
        n >= 253 ==> crate::spv::stake::compact_size(n)[0] == if n < 0x1_0000 {
            0xfdu8
        } else if n < 0x1_0000_0000 {
            0xfeu8
        } else {
            0xffu8
        },
{
    let c = crate::spv::stake::compact_size(n);
    let all = c + rest;
    lemma_pow256_values();
    if n >= 253 {
        let w: nat = if n < 0x1_0000 {
            2
        } else if n < 0x1_0000_0000 {
            4
        } else {
            8
        };
        lemma_le_roundtrip(n, w);
        assert(all.subrange(1, 1 + w as int) =~= le_digits(n, w));
    }
}

// ---- records ----

/// A record's key is the transaction's id, after the letter `c` or not, and then the output's
/// index; a key of fewer than 33 bytes is no output's.
pub proof fn law_record_keys(txid: Seq<u8>, vout: u32, value: Seq<u8>, key: Seq<u8>)
    requires
        txid.len() == 32,
    ensures
        record_utxo(
            seq![0x63u8] + txid + crate::spv::stake::compact_size(vout as nat),
            value,
        ) == Some((txid, vout, value)),
        txid[0] != 0x63 ==> record_utxo(
            txid + crate::spv::stake::compact_size(vout as nat),
            value,
        ) == Some((txid, vout, value)),
        key.len() < 33 ==> record_utxo(key, value) is None,
        key.len() >= 33 ==> record_utxo(key, value) is Some,
{
    let c = crate::spv::stake::compact_size(vout as nat);
    law_compact_size_roundtrip(vout as nat, Seq::empty());
    assert(c + Seq::<u8>::empty() =~= c);
    let k1 = seq![0x63u8] + txid + c;
    assert(k1.skip(33) =~= c);
    assert(k1.subrange(1, 33) =~= txid);
    let k2 = txid + c;
    assert(k2.skip(32) =~= c);
    assert(k2.subrange(0, 32) =~= txid);
    assert(c.len() > 0);
}

/// Reading records one after the other gives all their outputs, in the order of the records.
pub proof fn law_every_record_is_read(
    a: Seq<(Vec<u8>, Vec<u8>)>,
    b: Seq<(Vec<u8>, Vec<u8>)>,
    r: (Vec<u8>, Vec<u8>),
)
    ensures
        records_utxos(a + b) == records_utxos(a) + records_utxos(b),
        records_utxos(seq![r]) == match record_utxo(r.0@, r.1@) {
            Some(f) => seq![f],
            None => Seq::empty(),
        },
    decreases b.len(),
{
    assert(seq![r].drop_last() =~= Seq::<(Vec<u8>, Vec<u8>)>::empty());
    reveal_with_fuel(records_utxos, 2);
    assert(records_utxos(seq![r]) =~= match record_utxo(r.0@, r.1@) {
        Some(f) => seq![f],
        None => Seq::empty(),
    });
    if b.len() == 0 {
        assert(a + b =~= a);
        assert(records_utxos(a) + records_utxos(b) =~= records_utxos(a));
    } else {
        law_every_record_is_read(a, b.drop_last(), r);
        assert((a + b).drop_last() =~= a + b.drop_last());
        assert(records_utxos(a + b) =~= records_utxos(a) + records_utxos(b));
    }
}

/// A record's value is the height with a bit for a reward, the compressed amount and the kind of
/// the script in base 128, and then the script; each of them is read.
pub proof fn law_record_values(
    raw: RawUtxo,
    height: u32,
    reward: bool,
    amount: nat,
    kind: nat,
    data: Seq<u8>,
)
    requires
        compressed(amount) <= u64::MAX,
        kind <= u64::MAX,
        expanded_script(kind, data) is Ok,
        raw.value_bytes@ == base128_code(
            2 * height as nat + if reward {
                1nat
            } else {
                0
            },
        ) + base128_code(compressed(amount)) + base128_code(kind) + data,
    ensures
        unpacked(raw) == Ok::<Unspent, crate::snapshot::error::SnapshotFault>(
            Unspent {
                txid: raw.txid@,
                vout: raw.vout,
                height,
                is_coinbase: reward,
                amount,
                script: expanded_script(kind, data)->Ok_0,
                address: payee_of(expanded_script(kind, data)->Ok_0),
            },
        ),
{
    let first = 2 * height as nat + if reward {
        1nat
    } else {
        0
    };
    let a = base128_code(first);
    let b = base128_code(compressed(amount));
    let c = base128_code(kind);
    let v = raw.value_bytes@;
    assert(base128(v, 0, 0) == Some((first, a.len()))) by {
        assert(v =~= a + (b + c + data));
        law_base128_roundtrip(first, b + c + data);
    }
    assert(base128(v.skip(a.len() as int), 0, 0) == Some((compressed(amount), b.len()))) by {
        assert(v.skip(a.len() as int) =~= b + (c + data));
        law_base128_roundtrip(compressed(amount), c + data);
    }
    assert(base128(v.skip((a.len() + b.len()) as int), 0, 0) == Some((kind, c.len()))) by {
        assert(v.skip((a.len() + b.len()) as int) =~= c + data);
        law_base128_roundtrip(kind, data);
    }
    assert(v.skip((a.len() + b.len() + c.len()) as int) =~= data);
    law_amounts_are_compressed_without_loss(amount);
    lemma_height_and_reward(height, reward);
    lemma_unpacked(raw, first, a.len(), compressed(amount), b.len(), kind, c.len());
}

proof fn lemma_height_and_reward(height: u32, reward: bool)
    ensures
        ({
            let first = 2 * height as nat + if reward {
                1nat
            } else {
                0
            };
            (first / 2 % 0x1_0000_0000) as u32 == height && (first % 2 == 1) == reward
        }),
{
}

proof fn lemma_unpacked(raw: RawUtxo, x: nat, a: nat, y: nat, b: nat, kind: nat, c: nat)
    requires
        base128(raw.value_bytes@, 0, 0) == Some((x, a)),
        base128(raw.value_bytes@.skip(a as int), 0, 0) == Some((y, b)),
        base128(raw.value_bytes@.skip((a + b) as int), 0, 0) == Some((kind, c)),
        expanded_script(kind, raw.value_bytes@.skip((a + b + c) as int)) is Ok,
    ensures
        unpacked(raw) == Ok::<Unspent, crate::snapshot::error::SnapshotFault>(
            Unspent {
                txid: raw.txid@,
                vout: raw.vout,
                height: (x / 2 % 0x1_0000_0000) as u32,
                is_coinbase: x % 2 == 1,
                amount: crate::snapshot::chainstate::decompressed(y),
                script: expanded_script(kind, raw.value_bytes@.skip((a + b + c) as int))->Ok_0,
                address: payee_of(
                    expanded_script(kind, raw.value_bytes@.skip((a + b + c) as int))->Ok_0,
                ),
            },
        ),
{
}

/// The scripts that compressed ones stand for: a key's hash and a script's hash pay to the address
/// with that hash, a key stands between its length and the check of a signature, and any other
/// script is as long as its kind is above six.
pub proof fn law_compressed_scripts(h: Seq<u8>, x: Seq<u8>, y: Seq<u8>, raw: Seq<u8>, rest: Seq<u8>)
    requires
        h.len() == 20,
        x.len() == 32,
        y.len() == 64,
    ensures
        expanded_script(0, h + rest) is Ok,
        payee_of(expanded_script(0, h + rest)->Ok_0) == Some(Payee::PubkeyHash(h)),
        expanded_script(1, h + rest) is Ok,
        payee_of(expanded_script(1, h + rest)->Ok_0) == Some(Payee::ScriptHash(h)),
        expanded_script(2, x + rest)->Ok_0 == seq![33u8, 2u8] + x + seq![0xacu8],
        expanded_script(3, x + rest)->Ok_0 == seq![33u8, 3u8] + x + seq![0xacu8],
        expanded_script(4, y + rest)->Ok_0 == seq![65u8, 4u8] + y + seq![0xacu8],
        expanded_script(5, y + rest)->Ok_0 == seq![65u8, 6u8] + y + seq![0xacu8],
        expanded_script(raw.len() + 6, raw + rest)->Ok_0 == raw,
        raw.len() < 20 ==> expanded_script(0, raw) is Err && expanded_script(1, raw) is Err,
        raw.len() < 32 ==> expanded_script(2, raw) is Err && expanded_script(3, raw) is Err,
        raw.len() < 64 ==> expanded_script(4, raw) is Err && expanded_script(5, raw) is Err,
{
    assert((h + rest).take(20) =~= h);
    assert((x + rest).take(32) =~= x);
    assert((y + rest).take(64) =~= y);
    assert((raw + rest).take(raw.len() as int) =~= raw);
    assert(expanded_script(0, h + rest)->Ok_0.subrange(3, 23) =~= h);
    assert(expanded_script(1, h + rest)->Ok_0.subrange(2, 22) =~= h);
}

/// A script pays to an address exactly where it has one of the two forms.
pub proof fn law_payees(script: Seq<u8>, h: Seq<u8>)
    requires
        h.len() == 20,
    ensures
        payee_of(script) == Some(Payee::PubkeyHash(h)) <==> script == seq![0x76u8, 0xa9u8, 20u8]
            + h + seq![0x88u8, 0xacu8],
        payee_of(script) == Some(Payee::ScriptHash(h)) <==> script == seq![0xa9u8, 20u8] + h
            + seq![0x87u8],
{
    let a = seq![0x76u8, 0xa9u8, 20u8] + h + seq![0x88u8, 0xacu8];
    let b = seq![0xa9u8, 20u8] + h + seq![0x87u8];
    assert(a.subrange(3, 23) =~= h);
    assert(b.subrange(2, 22) =~= h);
    if payee_of(script) == Some(Payee::PubkeyHash(h)) {
        assert(script =~= seq![0x76u8, 0xa9u8, 20u8] + script.subrange(3, 23) + seq![
            0x88u8,
            0xacu8,
        ]);
    }
    if payee_of(script) == Some(Payee::ScriptHash(h)) {
        assert(script =~= seq![0xa9u8, 20u8] + script.subrange(2, 22) + seq![0x87u8]);
    }
}

// ---- balances ----

/// One more output adds its amount and one to what its address has, and to nothing else; an output
/// without an address adds to none.
pub proof fn law_outputs_add_up(c: Seq<Credit>, who: Option<Seq<char>>, amount: nat, a: Seq<char>)
    ensures
        ({
            let d = c.push((who, amount));
            &&& who == Some(a) ==> balance_of(d, a) == balance_of(c, a) + amount && count_of(d, a)
                == count_of(c, a) + 1
            &&& who != Some(a) ==> balance_of(d, a) == balance_of(c, a) && count_of(d, a)
                == count_of(c, a)
            &&& who is Some ==> total_of(d, true) == total_of(c, true) + amount && total_of(
                d,
                false,
            ) == total_of(c, false)
            &&& who is None ==> total_of(d, false) == total_of(c, false) + amount && total_of(
                d,
                true,
            ) == total_of(c, true)
        }),
        balance_of(Seq::empty(), a) == 0,
        count_of(Seq::empty(), a) == 0,
        total_of(Seq::empty(), true) == 0,
        total_of(Seq::empty(), false) == 0,
{
    assert(c.push((who, amount)).drop_last() =~= c);
}

/// Every readable output counts once, for the address whose text goes with it where its script
/// pays to one.
pub proof fn law_readable_outputs_count(
    raws: Seq<RawUtxo>,
    texts: Seq<Option<String>>,
    raw: RawUtxo,
    text: Option<String>,
)
    requires
        raws.len() == texts.len(),
    ensures
        unpacked(raw) is Err ==> credits(raws.push(raw), texts.push(text)) == credits(raws, texts),
        unpacked(raw) is Ok ==> {
            let u = unpacked(raw)->Ok_0;
            &&& u.address is Some && text is Some ==> credits(raws.push(raw), texts.push(text))
                == credits(raws, texts).push((Some(text->0@), u.amount))
            &&& u.address is None || text is None ==> credits(raws.push(raw), texts.push(text))
                == credits(raws, texts).push((None, u.amount))
        },
{
    assert(raws.push(raw).drop_last() =~= raws);
    assert(texts.push(text).drop_last() =~= texts);
}

/// The digest of entries is over each address and the eight bytes of its balance, and shown in
/// hexadecimal; the supply is the sum of the balances.
pub proof fn law_entries_digest(s: Seq<Entry>, e: Entry)
    ensures
        digest_input(s.push(e)).take(digest_input(s).len() as int) == digest_input(s),
        digest_input(s.push(e)).skip(digest_input(s).len() as int).len() == encode_utf8(
            e.address,
        ).len() + 8,
        digest_input(s.push(e)).skip(digest_input(s).len() as int).take(
            encode_utf8(e.address).len() as int,
        ) == encode_utf8(e.address),
        le_value(
            digest_input(s.push(e)).skip((digest_input(s).len() + encode_utf8(e.address).len()) as int),
        ) == e.balance,
        digest_input(Seq::empty()).len() == 0,
        entries_digest(s) == hex_text(sha256_of(digest_input(s))),
        supply(s.push(e)) == supply(s) + e.balance,
        supply(Seq::empty()) == 0,
{
    assert(s.push(e).drop_last() =~= s);
    lemma_pow256_values();
    lemma_le_roundtrip(e.balance as nat, 8);
    let a = digest_input(s);
    let k = encode_utf8(e.address);
    let d = le_digits(e.balance as nat, 8);
    let all = digest_input(s.push(e));
    assert(all == a + k + d);
    assert(all.take(a.len() as int) =~= a);
    assert(all.skip(a.len() as int) =~= k + d);
    assert((k + d).take(k.len() as int) =~= k);
    assert(all.skip((a.len() + k.len()) as int) =~= d);
}

// ---- files ----

/// The bytes of a snapshot file hold each field at its place, before the entries.
pub proof fn law_file_layout(m: Metadata, s: Seq<Entry>)
    requires
        file_of(m, s) is Ok,
        s.len() <= u64::MAX,
    ensures
        ({
            let b = file_of(m, s)->Ok_0;
            &&& b.take(4) == seq![0x56u8, 0x54u8, 0x52u8, 1u8]
            &&& le_value(b.subrange(4, 8)) == m.snapshot_height
            &&& le_value(b.subrange(8, 16)) == m.total_supply
            &&& le_value(b.subrange(16, 24)) == m.total_addresses
            &&& Some(b.subrange(24, 56)) == hex_bytes(encode_utf8(m.entries_hash))
            &&& le_value(b.subrange(56, 64)) == m.created_at
            &&& le_value(b.subrange(64, 72)) == s.len()
            &&& b.skip(72) == body_bytes(s)
        }),
{
    let b = file_of(m, s)->Ok_0;
    let hash = hex_bytes(encode_utf8(m.entries_hash))->0;
    lemma_pow256_values();
    lemma_le_roundtrip(m.snapshot_height as nat, 4);
    lemma_le_roundtrip(m.total_supply as nat, 8);
    lemma_le_roundtrip(m.total_addresses as nat, 8);
    lemma_le_roundtrip(m.created_at as nat, 8);
    lemma_le_roundtrip(s.len(), 8);
    assert(b.take(4) =~= seq![0x56u8, 0x54u8, 0x52u8, 1u8]);
    assert(b.subrange(4, 8) =~= le_digits(m.snapshot_height as nat, 4));
    assert(b.subrange(8, 16) =~= le_digits(m.total_supply as nat, 8));
    assert(b.subrange(16, 24) =~= le_digits(m.total_addresses as nat, 8));
    assert(b.subrange(24, 56) =~= hash);
    assert(b.subrange(56, 64) =~= le_digits(m.created_at as nat, 8));
    assert(b.subrange(64, 72) =~= le_digits(s.len(), 8));
    assert(b.skip(72) =~= body_bytes(s));
}

/// The bytes of one more entry come after those before it: the length of its address, the address
/// and its balance.
pub proof fn law_entries_in_files(s: Seq<Entry>, e: Entry)
    requires
        encode_utf8(e.address).len() <= 255,
    ensures
        body_bytes(s.push(e)) == body_bytes(s) + entry_bytes(e),
        ({
            let b = entry_bytes(e);
            let n = encode_utf8(e.address).len() as int;
            &&& b.len() == n + 9
            &&& b[0] == n
            &&& b.subrange(1, 1 + n) == encode_utf8(e.address)
            &&& le_value(b.skip(1 + n)) == e.balance
        }),
{
    assert(s.push(e).drop_last() =~= s);
    let b = entry_bytes(e);
    let n = encode_utf8(e.address).len() as int;
    lemma_pow256_values();
    lemma_le_roundtrip(e.balance as nat, 8);
    assert(b.subrange(1, 1 + n) =~= encode_utf8(e.address));
    assert(b.skip(1 + n) =~= le_digits(e.balance as nat, 8));
}

// ---- the table that wallets carry ----

/// A table is a header of twelve bytes, which begins with four letters and ends with the number of
/// entries, and entries of forty-two bytes: an address, filled up with zeros to thirty-four, and a
/// balance.
pub proof fn law_table_layout(t: Seq<u8>, i: int, address: Seq<u8>)
    requires
        table_complete(t),
        0 <= i < table_count(t),
        address.len() <= 34,
        forall|k: int| 0 <= k < address.len() ==> #[trigger] address[k] != 0,
        t.subrange(12 + 42 * i, 12 + 42 * i + address.len()) == address,
        address.len() < 34 ==> t[12 + 42 * i + address.len()] == 0,
    ensures
        t.len() >= 12 + 42 * table_count(t),
        t.take(4) == seq![0x56u8, 0x54u8, 0x52u8, 0x53u8],
        table_count(t) == le_value(t.subrange(8, 12)),
        table_address(t, i) == address,
        table_balance(t, i) == le_value(t.subrange(46 + 42 * i, 54 + 42 * i)),
{
    let start = 12 + i * 42;
    let n = address.len() as int;
    let field = t.subrange(start, start + 34);
    assert(t.len() >= 12 + 42 * (i + 1));
    assert(t.subrange(start, start + n) =~= field.take(n));
    assert forall|k: int| 0 <= k < n implies #[trigger] field[k] != 0 by {
        assert(field.take(n)[k] == address[k]);
    }
    crate::bytes::lemma_find_from(field, 0, 0);
    if n < 34 {
        assert(field[n] == 0);
        assert(crate::bytes::find_from(field, 0, 0) == Some(n));
    } else {
        assert(field.take(34) =~= field);
        assert(crate::bytes::find_from(field, 0, 0) is None);
    }
}

/// What a table records for addresses is the sum of what it records for each, as far as 64 bits
/// hold it; and nothing for an address of more than thirty-four bytes.
pub proof fn law_table_sums(t: Seq<u8>, addresses: Seq<String>, one: String)
    ensures
        ({
            let all = recorded_total(t, addresses) + recorded(t, encode_utf8(one@));
            &&& all <= u64::MAX ==> recorded_total(t, addresses.push(one)) == all
            &&& all > u64::MAX ==> recorded_total(t, addresses.push(one)) == u64::MAX
        }),
        recorded_total(t, Seq::empty()) == 0,
        encode_utf8(one@).len() > 34 ==> recorded(t, encode_utf8(one@)) == 0,
{
    assert(addresses.push(one).drop_last() =~= addresses);
}

/// The entries of a ranking come from the greatest balance to the least, equal ones in the order in
/// which they stood, and those that are left out have no more than those that are taken.
pub proof fn law_ranking_by_balance(order: Seq<int>, s: Seq<Entry>, k: nat, a: int, b: int, i: int)
    requires
        is_ranking(order, s, s.len()),
        0 <= a < b < k <= s.len(),
        0 <= i < s.len(),
    ensures
        s[order[a]].balance >= s[order[b]].balance,
        s[order[a]].balance == s[order[b]].balance ==> order[a] < order[b],
        !order.take(k as int).contains(i) ==> s[i].balance <= s[order[a]].balance,
{
    assert(ranks_above(s, order[a], order[b]));
    if !order.take(k as int).contains(i) {
        law_top_entries_are_the_greatest(order, s, k, a, i);
    }
}

/// A snapshot lists each address with outputs once, in the order of its bytes, with the sum and the
/// number of its outputs. It tells the height, the block and the time that it is of, and counts its
/// addresses and all outputs.
pub proof fn law_what_a_snapshot_lists(
    snapshot: UtxoSnapshot,
    raws: Seq<RawUtxo>,
    texts: Seq<Option<String>>,
    height: u32,
    best: Seq<char>,
    now: u64,
    i: int,
    j: int,
    address: Seq<char>,
)
    requires
        is_snapshot_of(snapshot, raws, texts, height, best, now),
        0 <= i < j < snapshot.entries@.len(),
    ensures
        ({
            let e = entry_views(snapshot.entries@);
            let c = credits(raws, texts);
            &&& e[i].address != e[j].address
            &&& bytes_order(encode_utf8(e[i].address), encode_utf8(e[j].address)) == Order::Less
            &&& e[i].balance > 0
            &&& e[i].balance == balance_of(c, e[i].address)
            &&& e[i].utxo_count == count_of(c, e[i].address)
            &&& balance_of(c, address) > 0 ==> exists|k: int|
                0 <= k < e.len() && (#[trigger] e[k]).address == address
            &&& snapshot.metadata.snapshot_height == height
            &&& snapshot.metadata.best_block_hash@ == best
            &&& snapshot.metadata.created_at == now
            &&& e.len() <= u64::MAX ==> snapshot.metadata.total_addresses == e.len()
            &&& c.len() <= u64::MAX ==> snapshot.metadata.total_utxos == c.len()
        }),
{
    let e = entry_views(snapshot.entries@);
    assert(e.len() == snapshot.entries@.len());
    let x = encode_utf8(e[i].address);
    let y = encode_utf8(e[j].address);
    assert(bytes_before(crate::snapshot::utxo_set::address_key(e[i]), crate::snapshot::utxo_set::address_key(e[j])));
    assert(bytes_before(x, y));
    crate::bytes::lemma_before_irreflexive(x);
    assert(x != y);
    assert(e[i].balance > 0);
    assert(snapshot.metadata@.snapshot_height == height);
    assert(snapshot.metadata@.best_block_hash == best);
    assert(snapshot.metadata@.created_at == now);
    assert(snapshot.metadata@.total_addresses == e.len() as u64);
    assert(snapshot.metadata@.total_utxos == credits(raws, texts).len() as u64);
}

/// A ranking takes as many entries as are asked for, or all where there are fewer.
pub proof fn law_ranking_takes_what_is_there(n: nat, all: nat)
    ensures
        at_most(n, all) <= n,
        at_most(n, all) <= all,
        at_most(n, all) < n ==> at_most(n, all) == all,
{
}

} // verus!
