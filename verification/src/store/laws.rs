//! What holds of the stored chain as a whole.
use crate::store::error::StoreFault;
use crate::store::heal::Healing;
use crate::store::heal::cut_below;
use crate::store::heal::heal_action;
use crate::store::heal::HealAction;
use crate::store::heal::Replay;
use crate::store::heal::healing_after;
use crate::store::plan::appended;
use crate::store::plan::open_fault;
use crate::store::plan::opened;
use crate::store::plan::rollback_fault;
use crate::store::plan::rolled_back;
use crate::store::plan::stored_height;
use crate::store::plan::truncated;
use crate::store::plan::with_records;
use crate::store::plan::without_keys;
use crate::store::plan::without_rows;
use crate::store::plan::Found;
use crate::store::query::chain_hashes;
use crate::store::query::hash_at;
use crate::store::query::hash_stored;
use crate::store::query::hashes_upto;
use crate::store::query::height_stored;
use crate::store::query::with_script;
use crate::store::query::worth;
use crate::store::query::Utxo;
use crate::store::tables::Op;
use crate::store::tables::after_op;
use crate::store::tables::after_ops;
use crate::store::tables::best_hash_key;
use crate::store::tables::best_height_key;
use crate::store::tables::protocol_key;
use crate::store::tables::utxo_key_text;
use crate::store::tables::Tables;
use crate::text::decimal;
use crate::text::hex_bytes;
use crate::text::hex_text;
use crate::text::law_decimal_roundtrip;
use crate::text::law_hex_roundtrip;
use vstd::prelude::*;
use vstd::string::*;
use vstd::utf8::encode_utf8;

verus! {

/// The key of an output is the hexadecimal text of its transaction, a colon and its position.
pub proof fn law_output_key_text(txid: Seq<u8>, vout: u32)
    requires
        txid.len() == 32,
    ensures
        utxo_key_text(txid, vout).take(64) == hex_text(txid),
        utxo_key_text(txid, vout)[64] == ':',
        utxo_key_text(txid, vout).skip(65) == decimal(vout as nat),
{
    reveal_strlit(":");
    assert(hex_text(txid).len() == 64);
    assert(utxo_key_text(txid, vout).take(64) =~= hex_text(txid));
    assert(utxo_key_text(txid, vout).skip(65) =~= decimal(vout as nat));
}

/// A record that is stored is the last one under its key.
pub proof fn law_last_record_stands(
    m: Map<Seq<char>, Seq<u8>>,
    s: Seq<(Seq<char>, Seq<u8>)>,
    i: int,
)
    requires
        0 <= i < s.len(),
        forall|j: int| i < j < s.len() ==> (#[trigger] s[j]).0 != s[i].0,
    ensures
        with_records(m, s).get(s[i].0) == Some(s[i].1),
    decreases s.len(),
{
    if i < s.len() - 1 {
        assert(s[s.len() - 1].0 != s[i].0);
        law_last_record_stands(m, s.drop_last(), i);
    }
}

/// Records change nothing under keys that none of them has, and removing changes nothing under keys
/// that are not removed; what is removed is gone.
pub proof fn law_other_records_stay(
    m: Map<Seq<char>, Seq<u8>>,
    s: Seq<(Seq<char>, Seq<u8>)>,
    gone: Seq<Seq<char>>,
    key: Seq<char>,
)
    ensures
        (forall|j: int| 0 <= j < s.len() ==> (#[trigger] s[j]).0 != key) ==> with_records(m, s).get(
            key,
        ) == m.get(key),
        !gone.contains(key) ==> without_keys(m, gone).get(key) == m.get(key),
        gone.contains(key) ==> without_keys(m, gone).get(key) is None,
    decreases s.len() + gone.len(),
{
    if s.len() > 0 {
        law_other_records_stay(m, s.drop_last(), Seq::empty(), key);
        if forall|j: int| 0 <= j < s.len() ==> (#[trigger] s[j]).0 != key {
            assert(s[s.len() - 1].0 != key);
            assert forall|j: int| 0 <= j < s.drop_last().len() implies (#[trigger] s.drop_last()[j]).0
                != key by {
                assert(s[j].0 != key);
            }
        }
    }
    if gone.len() > 0 {
        let t = gone.drop_last();
        law_other_records_stay(m, Seq::empty(), t, key);
        if gone.contains(key) {
            let i = choose|i: int| 0 <= i < gone.len() && gone[i] == key;
            if i < t.len() {
                assert(t[i] == key);
            }
        } else {
            assert(gone[gone.len() - 1] != key);
            if t.contains(key) {
                let i = choose|i: int| 0 <= i < t.len() && t[i] == key;
                assert(gone[i] == key);
            }
        }
    }
}

/// A block that is added is the best one, and all that is stored besides it stays: other blocks,
/// other heights, outputs that it neither creates nor spends, claims, and the version.
pub proof fn law_append_touches_its_block_only(
    t: Tables,
    hash: Seq<u8>,
    bytes: Seq<u8>,
    height: u32,
    added: Seq<(Seq<char>, Seq<u8>)>,
    removed: Seq<Seq<char>>,
    claimed: Seq<Seq<char>>,
    h: u32,
    k: Seq<char>,
)
    requires
        hash.len() == 32,
    ensures
        ({
            let a = appended(t, hash, bytes, height, added, removed, claimed);
            &&& a.meta.get("best_height"@) == Some(decimal(height as nat))
            &&& a.meta.get("best_hash"@) == Some(hex_text(hash))
            &&& a.meta.get("protocol_version"@) == t.meta.get("protocol_version"@)
            &&& a.heights.get(h) == (if h == height {
                Some(hex_text(hash))
            } else {
                t.heights.get(h)
            })
            &&& a.blocks.get(k) == (if k == hex_text(hash) {
                Some(bytes)
            } else {
                t.blocks.get(k)
            })
            &&& removed.contains(k) ==> a.utxos.get(k) is None
            &&& !removed.contains(k) && (forall|j: int|
                0 <= j < added.len() ==> (#[trigger] added[j]).0 != k) ==> a.utxos.get(k)
                == t.utxos.get(k)
            &&& a.claimed.contains(k) <==> t.claimed.contains(k) || claimed.contains(k)
        }),
{
    reveal_strlit("best_height");
    reveal_strlit("best_hash");
    reveal_strlit("protocol_version");
    assert("best_height"@.len() == 11 && "best_hash"@.len() == 9 && "protocol_version"@.len() == 16);
    law_other_records_stay(t.utxos, added, removed, k);
    law_other_records_stay(with_records(t.utxos, added), Seq::empty(), removed, k);
}

/// A block that is taken off leaves the one below it as the best, gives its claims free, and leaves
/// all blocks and the other heights as they are.
pub proof fn law_rollback_names_the_block_below(
    t: Tables,
    height: u32,
    below: Seq<char>,
    restored: Seq<(Seq<char>, Seq<u8>)>,
    removed: Seq<Seq<char>>,
    unclaimed: Seq<Seq<char>>,
    h: u32,
    k: Seq<char>,
)
    requires
        height > 0,
    ensures
        ({
            let b = rolled_back(t, height, below, restored, removed, unclaimed);
            &&& b.meta.get("best_height"@) == Some(decimal((height - 1) as nat))
            &&& b.meta.get("best_hash"@) == Some(below)
            &&& b.meta.get("protocol_version"@) == t.meta.get("protocol_version"@)
            &&& b.heights.get(h) == (if h == height {
                None
            } else {
                t.heights.get(h)
            })
            &&& b.blocks == t.blocks
            &&& removed.contains(k) ==> b.utxos.get(k) is None
            &&& !removed.contains(k) && (forall|j: int|
                0 <= j < restored.len() ==> (#[trigger] restored[j]).0 != k) ==> b.utxos.get(k)
                == t.utxos.get(k)
            &&& b.claimed.contains(k) <==> t.claimed.contains(k) && !unclaimed.contains(k)
        }),
{
    reveal_strlit("best_height");
    reveal_strlit("best_hash");
    reveal_strlit("protocol_version");
    assert("best_height"@.len() == 11 && "best_hash"@.len() == 9 && "protocol_version"@.len() == 16);
    law_other_records_stay(t.utxos, restored, removed, k);
    law_other_records_stay(with_records(t.utxos, restored), Seq::empty(), removed, k);
}

/// A store of another version is not opened, nor is one that holds blocks and names no version. Any
/// other store is, and then names version 3.
pub proof fn law_only_this_version_is_opened(
    t: Tables,
    f: Found,
    genesis: Seq<u8>,
    bytes: Seq<u8>,
)
    requires
        f.protocol is Some ==> t.meta.get("protocol_version"@) == f.protocol,
    ensures
        open_fault(f) is None <==> f.protocol == Some("3"@) || (f.protocol is None && f.highest is None),
        open_fault(f) is None ==> opened(t, f, genesis, bytes).meta.get("protocol_version"@) == Some(
            "3"@,
        ),
{
    reveal_strlit("best_height");
    reveal_strlit("best_hash");
    reveal_strlit("protocol_version");
    assert("best_height"@.len() == 11 && "best_hash"@.len() == 9 && "protocol_version"@.len() == 16);
}

/// A store that lacks its first block has it once it is opened; one that has it keeps its blocks and
/// heights as they are. Outputs and claims stay in either case.
pub proof fn law_opening_stores_the_first_block(
    t: Tables,
    f: Found,
    genesis: Seq<u8>,
    bytes: Seq<u8>,
)
    ensures
        ({
            let o = opened(t, f, genesis, bytes);
            &&& f.has_genesis ==> o.blocks == t.blocks && o.heights == t.heights
            &&& !f.has_genesis ==> o.blocks.get(hex_text(genesis)) == Some(bytes) && o.heights.get(0)
                == Some(hex_text(genesis))
            &&& !f.has_genesis && f.highest is None ==> o.meta.get("best_height"@) == Some(
                decimal(0),
            ) && o.meta.get("best_hash"@) == Some(hex_text(genesis))
            &&& o.utxos == t.utxos
            &&& o.claimed == t.claimed
        }),
{
    reveal_strlit("best_height");
    reveal_strlit("best_hash");
    assert("best_height"@.len() == 11 && "best_hash"@.len() == 9);
}

/// The best block is moved up to the greatest height that is stored where it is named lower, and is
/// left alone where it is not.
pub proof fn law_opening_catches_up(
    t: Tables,
    f: Found,
    genesis: Seq<u8>,
    bytes: Seq<u8>,
    best: u32,
    top: u32,
    hash: Seq<char>,
)
    requires
        f.has_genesis,
        f.protocol is Some,
        f.best_height == Some(decimal(best as nat)),
        f.highest == Some((top, hash)),
    ensures
        best < top ==> opened(t, f, genesis, bytes).meta.get("best_height"@) == Some(
            decimal(top as nat),
        ) && opened(t, f, genesis, bytes).meta.get("best_hash"@) == Some(hash),
        best >= top ==> opened(t, f, genesis, bytes) == t,
{
    law_decimal_roundtrip(best as nat);
    reveal_strlit("best_height");
    reveal_strlit("best_hash");
    assert("best_height"@.len() == 11 && "best_hash"@.len() == 9);
    assert(stored_height(f.best_height) == best);
}

proof fn lemma_rows_gone(t: Tables, rows: Seq<(u32, Seq<char>)>, hash: Seq<char>)
    ensures
        without_rows(t, rows).blocks.get(hash) == (if exists|i: int|
            0 <= i < rows.len() && (#[trigger] rows[i]).1 == hash {
            None
        } else {
            t.blocks.get(hash)
        }),
        without_rows(t, rows).utxos == t.utxos,
        without_rows(t, rows).claimed == t.claimed,
        without_rows(t, rows).meta == t.meta,
    decreases rows.len(),
{
    if rows.len() > 0 {
        let s = rows.drop_last();
        lemma_rows_gone(t, s, hash);
        if rows.last().1 == hash {
            assert(rows[rows.len() - 1].1 == hash);
        } else {
            if exists|i: int| 0 <= i < rows.len() && (#[trigger] rows[i]).1 == hash {
                let i = choose|i: int| 0 <= i < rows.len() && (#[trigger] rows[i]).1 == hash;
                assert(s[i].1 == hash);
            }
            if exists|i: int| 0 <= i < s.len() && (#[trigger] s[i]).1 == hash {
                let i = choose|i: int| 0 <= i < s.len() && (#[trigger] s[i]).1 == hash;
                assert(rows[i].1 == hash);
            }
        }
    }
}

/// A chain that is cut loses exactly the blocks of the rows above the cut, and what is named the
/// best block is the one at the cut, where that one is known.
pub proof fn law_truncation_removes_blocks_above(
    t: Tables,
    rows: Seq<(u32, Seq<char>)>,
    keep: u32,
    keep_hash: Option<Seq<char>>,
    hash: Seq<char>,
)
    ensures
        ({
            let c = truncated(t, rows, keep, keep_hash);
            &&& (exists|i: int| 0 <= i < rows.len() && (#[trigger] rows[i]).0 > keep && rows[i].1
                == hash) ==> c.blocks.get(hash) is None
            &&& !(exists|i: int| 0 <= i < rows.len() && (#[trigger] rows[i]).0 > keep && rows[i].1
                == hash) ==> c.blocks.get(hash) == t.blocks.get(hash)
            &&& keep_hash is None ==> c.meta == t.meta
            &&& keep_hash matches Some(h) ==> c.meta.get("best_height"@) == Some(
                decimal(keep as nat),
            ) && c.meta.get("best_hash"@) == Some(h)
            &&& c.utxos == t.utxos
            &&& c.claimed == t.claimed
        }),
{
    let above = |r: (u32, Seq<char>)| r.0 > keep;
    let f = rows.filter(above);
    lemma_rows_gone(t, f, hash);
    reveal_strlit("best_height");
    reveal_strlit("best_hash");
    assert("best_height"@.len() == 11 && "best_hash"@.len() == 9);
    if exists|i: int| 0 <= i < f.len() && (#[trigger] f[i]).1 == hash {
        let i = choose|i: int| 0 <= i < f.len() && (#[trigger] f[i]).1 == hash;
        rows.lemma_filter_pred(above, i);
        rows.lemma_filter_contains_rev(above, f[i]);
        let j = choose|j: int| 0 <= j < rows.len() && rows[j] == f[i];
        assert(rows[j].0 > keep && rows[j].1 == hash);
    }
    if exists|i: int| 0 <= i < rows.len() && (#[trigger] rows[i]).0 > keep && rows[i].1 == hash {
        let i = choose|i: int|
            0 <= i < rows.len() && (#[trigger] rows[i]).0 > keep && rows[i].1 == hash;
        rows.lemma_filter_contains(above, i);
        let j = choose|j: int| 0 <= j < f.len() && f[j] == rows[i];
        assert(f[j].1 == hash);
    }
}

/// A height that was written is read back, and where none was written it is zero. What is no number
/// of 32 bits is refused.
pub proof fn law_heights_are_read_back(n: nat)
    ensures
        height_stored(None) == Ok::<u32, StoreFault>(0u32),
        n <= 0xffff_ffff ==> height_stored(Some(decimal(n))) == Ok::<u32, StoreFault>(n as u32),
        n > 0xffff_ffff ==> height_stored(Some(decimal(n))) is Err,
{
    law_decimal_roundtrip(n);
}

/// A hash that was written at a height is read back; one of another length is refused.
pub proof fn law_hashes_are_read_back(h: u32, b: Seq<u8>)
    ensures
        b.len() == 32 ==> hash_at(h, hex_text(b)) == Ok::<Seq<u8>, StoreFault>(b),
        b.len() != 32 ==> hash_at(h, hex_text(b)) is Err,
{
    law_hex_roundtrip(b);
}

/// The hash of the best block is read from 64 hexadecimal digits, and there need not be one. What is
/// not made of such digits, or is of another length, is refused.
pub proof fn law_best_hash_is_read_back(b: Seq<u8>, text: Seq<char>)
    ensures
        hash_stored(None) == Ok::<Option<Seq<u8>>, StoreFault>(None),
        b.len() == 32 ==> hash_stored(Some(hex_text(b))) == Ok::<Option<Seq<u8>>, StoreFault>(Some(b)),
        b.len() != 32 ==> hash_stored(Some(hex_text(b))) is Err,
        hash_stored(Some(text)) is Ok ==> hex_bytes(encode_utf8(text)) == hash_stored(Some(text))->Ok_0,
{
    law_hex_roundtrip(b);
}

proof fn lemma_hash_rows(rows: Seq<(u32, Seq<char>)>, hashes: Seq<Seq<u8>>, n: nat)
    requires
        rows.len() == hashes.len(),
        n <= rows.len(),
        forall|i: int| 0 <= i < rows.len() ==> (#[trigger] hashes[i]).len() == 32 && rows[i].1 == hex_text(
            hashes[i],
        ),
    ensures
        hashes_upto(rows, n) == Ok::<Seq<Seq<u8>>, StoreFault>(hashes.take(n as int)),
    decreases n,
{
    if n > 0 {
        lemma_hash_rows(rows, hashes, (n - 1) as nat);
        assert(hashes[n - 1].len() == 32);
        law_hashes_are_read_back(rows[n - 1].0, hashes[n - 1]);
        assert(hashes.take(n as int) =~= hashes.take(n - 1).push(hashes[n - 1]));
    } else {
        assert(hashes.take(0) =~= Seq::empty());
    }
}

/// The hashes of the main chain are those that were written, all of them and in the order of the
/// rows, up to ten million blocks; a greater height is refused.
pub proof fn law_main_chain_is_read_in_order(
    best: u32,
    rows: Seq<(u32, Seq<char>)>,
    hashes: Seq<Seq<u8>>,
)
    requires
        rows.len() == hashes.len(),
        forall|i: int| 0 <= i < rows.len() ==> (#[trigger] hashes[i]).len() == 32 && rows[i].1 == hex_text(
            hashes[i],
        ),
    ensures
        best <= 10_000_000 ==> chain_hashes(best, rows) == Ok::<Seq<Seq<u8>>, StoreFault>(hashes),
        best > 10_000_000 ==> chain_hashes(best, rows) is Err,
{
    lemma_hash_rows(rows, hashes, rows.len());
    assert(hashes.take(rows.len() as int) =~= hashes);
}

proof fn lemma_one_more_output(all: Seq<Utxo>, output: Utxo, script: Seq<u8>)
    ensures
        with_script(all.push(output), script) == (if output.script_pubkey@ == script {
            with_script(all, script).push(output)
        } else {
            with_script(all, script)
        }),
{
    reveal(Seq::filter);
    assert(all.push(output).drop_last() =~= all);
}

/// The outputs of a script are those with its bytes: none is left out, none of another script is
/// among them.
pub proof fn law_outputs_of_a_script(all: Seq<Utxo>, script: Seq<u8>, output: Utxo)
    ensures
        with_script(all, script).contains(output) <==> all.contains(output)
            && output.script_pubkey@ == script,
    decreases all.len(),
{
    let found = with_script(all, script);
    if all.len() == 0 {
        reveal(Seq::filter);
        assert(found.len() == 0);
    } else {
        let s = all.drop_last();
        let before = with_script(s, script);
        law_outputs_of_a_script(s, script, output);
        lemma_one_more_output(s, all.last(), script);
        assert(s.push(all.last()) =~= all);
        if found.contains(output) && output != all.last() {
            let i = choose|i: int| 0 <= i < found.len() && found[i] == output;
            assert(before[i] == output);
        }
        if s.contains(output) {
            let i = choose|i: int| 0 <= i < s.len() && s[i] == output;
            assert(all[i] == output);
        }
        if all.contains(output) && output != all.last() {
            let i = choose|i: int| 0 <= i < all.len() && all[i] == output;
            assert(s[i] == output);
        }
        if before.contains(output) {
            let i = choose|i: int| 0 <= i < before.len() && before[i] == output;
            assert(found[i] == output);
        }
        if all.last() == output {
            assert(all[all.len() - 1] == output);
            if output.script_pubkey@ == script {
                assert(found[before.len() as int] == output);
            } else if found.contains(output) {
                let i = choose|i: int| 0 <= i < found.len() && found[i] == output;
                assert(before[i] == output);
            }
        }
    }
}

/// One more output adds its value to the balance of its script, and nothing to that of another.
pub proof fn law_balances_add_up(all: Seq<Utxo>, output: Utxo, script: Seq<u8>)
    ensures
        worth(with_script(Seq::empty(), script)) == 0,
        worth(with_script(all.push(output), script)) == worth(with_script(all, script)) + (
        if output.script_pubkey@ == script {
            output.value as nat
        } else {
            0
        }),
{
    lemma_one_more_output(all, output, script);
    let w = with_script(all, script);
    assert(w.push(output).drop_last() =~= w);
    assert(with_script(Seq::empty(), script).len() == 0) by {
        reveal(Seq::filter);
    }
}

/// A chain whose block at a height was not taken is cut directly below it.
pub proof fn law_cut_is_directly_below(bad: u32)
    ensures
        bad > 0 ==> cut_below(bad) + 1 == bad,
        bad == 0 ==> cut_below(bad) == 0,
        heal_action(Replay::FailedAt(bad)) == (HealAction::Truncate { keep: cut_below(bad) }),
        heal_action(Replay::Complete) == HealAction::Loaded,
{
}

/// The entries of the store have different names.
pub proof fn law_entries_have_their_own_names()
    ensures
        best_height_key() == "best_height"@,
        best_hash_key() == "best_hash"@,
        protocol_key() == "protocol_version"@,
        best_height_key() != best_hash_key(),
        best_height_key() != protocol_key(),
        best_hash_key() != protocol_key(),
{
    reveal_strlit("best_height");
    reveal_strlit("best_hash");
    reveal_strlit("protocol_version");
    assert("best_height"@.len() == 11 && "best_hash"@.len() == 9 && "protocol_version"@.len() == 16);
}

/// The first block is never taken off, and no block without one below it.
pub proof fn law_when_a_block_is_taken_off(height: u32, below: Option<Seq<char>>)
    ensures
        rollback_fault(height, below) is None <==> height > 0 && below is Some,
        height == 0 ==> rollback_fault(height, below) == Some(
            StoreFault::Corrupted("Cannot roll back genesis block"@),
        ),
        height > 0 && below is None ==> rollback_fault(height, below) == Some(
            StoreFault::Corrupted("no block at height "@ + decimal((height - 1) as nat)),
        ),
{
}

/// Changes are made one after the other, each to the one table that it names.
pub proof fn law_changes_are_made_in_turn(t: Tables, ops: Seq<Op>, op: Op)
    ensures
        after_ops(t, Seq::empty()) == t,
        after_ops(t, ops.push(op)) == after_op(after_ops(t, ops), op),
        op matches Op::PutBlock { hash, bytes } ==> after_op(t, op).blocks.get(hash) == Some(bytes)
            && after_op(t, op).heights == t.heights && after_op(t, op).utxos == t.utxos,
        op matches Op::RemoveBlock { hash } ==> after_op(t, op).blocks.get(hash) is None && after_op(
            t,
            op,
        ).heights == t.heights,
        op matches Op::PutHeight { height, hash } ==> after_op(t, op).heights.get(height) == Some(hash)
            && after_op(t, op).blocks == t.blocks,
        op matches Op::RemoveHeight { height } ==> after_op(t, op).heights.get(height) is None && after_op(
            t,
            op,
        ).blocks == t.blocks,
        op matches Op::PutUtxo { key, bytes } ==> after_op(t, op).utxos.get(key) == Some(bytes)
            && after_op(t, op).blocks == t.blocks,
        op matches Op::RemoveUtxo { key } ==> after_op(t, op).utxos.get(key) is None && after_op(
            t,
            op,
        ).blocks == t.blocks,
        op matches Op::PutClaimed { address } ==> after_op(t, op).claimed.contains(address),
        op matches Op::RemoveClaimed { address } ==> !after_op(t, op).claimed.contains(address),
        op matches Op::PutMeta { key, value } ==> after_op(t, op).meta.get(key) == Some(value)
            && after_op(t, op).blocks == t.blocks,
{
    assert(ops.push(op).drop_last() =~= ops);
}

/// The blocks are loaded once a replay went through, and not by one that stopped. The height falls
/// to the block below the one where it stopped, and stays where it went through.
pub proof fn law_when_the_store_is_loaded(s: Healing, bad: u32)
    ensures
        healing_after(s, Replay::Complete).loaded,
        healing_after(s, Replay::Complete).height == s.height,
        heal_action(Replay::Complete) == HealAction::Loaded,
        healing_after(s, Replay::FailedAt(bad)).loaded <==> s.loaded,
        bad > 0 ==> healing_after(s, Replay::FailedAt(bad)).height + 1 == bad,
        bad == 0 ==> healing_after(s, Replay::FailedAt(bad)).height == 0,
        heal_action(Replay::FailedAt(bad)) == (HealAction::Truncate {
            keep: healing_after(s, Replay::FailedAt(bad)).height,
        }),
{
}

} // verus!
