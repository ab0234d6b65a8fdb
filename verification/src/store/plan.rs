//! What is written to the tables when the store is opened, when a block is added to the main chain
//! or taken off it, and when a part of the chain is thrown away.
use crate::store::error::StoreError;
use crate::store::error::StoreFault;
use crate::store::query::hash_stored;
use crate::store::query::height_stored;
use crate::store::tables::after_op;
use crate::store::tables::after_ops;
use crate::store::tables::best_hash_key;
use crate::store::tables::best_height_key;
use crate::store::tables::lemma_one_more;
use crate::store::tables::op_views;
use crate::store::tables::protocol_key;
use crate::store::tables::utxo_key;
use crate::store::tables::utxo_key_text;
use crate::store::tables::Op;
use crate::store::tables::TableOp;
use crate::store::tables::Tables;
use crate::text::decimal;
use crate::text::hex_encode;
use crate::text::hex_text;
use crate::text::law_decimal_roundtrip;
use crate::text::law_hex_roundtrip;
use crate::text::parse_unsigned;
use crate::text::push_decimal;
use crate::text::same_text;
use crate::text::unsigned_number;
use crate::torrent::metainfo::texts;
use vstd::prelude::*;
use vstd::string::*;
use vstd::utf8::encode_utf8;

verus! {

/// A record of an output that is stored.
#[derive(Debug, Clone)]
pub struct UtxoRecord {
    /// The transaction of the output.
    pub txid: [u8; 32],
    /// The position of the output.
    pub vout: u32,
    /// The record.
    pub bytes: Vec<u8>,
}

/// Records by their keys.
pub open spec fn record_views(s: Seq<UtxoRecord>) -> Seq<(Seq<char>, Seq<u8>)> {
    s.map_values(|r: UtxoRecord| (utxo_key_text(r.txid@, r.vout), r.bytes@))
}

/// The keys of outputs.
pub open spec fn output_keys(s: Seq<([u8; 32], u32)>) -> Seq<Seq<char>> {
    s.map_values(|o: ([u8; 32], u32)| utxo_key_text(o.0@, o.1))
}

/// A table after records were stored.
pub open spec fn with_records(m: Map<Seq<char>, Seq<u8>>, s: Seq<(Seq<char>, Seq<u8>)>) -> Map<
    Seq<char>,
    Seq<u8>,
>
    decreases s.len(),
{
    if s.len() == 0 {
        m
    } else {
        with_records(m, s.drop_last()).insert(s.last().0, s.last().1)
    }
}

/// A table after records were removed.
pub open spec fn without_keys(m: Map<Seq<char>, Seq<u8>>, s: Seq<Seq<char>>) -> Map<
    Seq<char>,
    Seq<u8>,
>
    decreases s.len(),
{
    if s.len() == 0 {
        m
    } else {
        without_keys(m, s.drop_last()).remove(s.last())
    }
}

/// The tables with `height` and `hash` as those of the best block.
pub open spec fn with_best(t: Tables, height: u32, hash: Seq<char>) -> Tables {
    Tables {
        meta: t.meta.insert(best_height_key(), decimal(height as nat)).insert(
            best_hash_key(),
            hash,
        ),
        ..t
    }
}

/// The tables after a block was added to the main chain.
pub open spec fn appended(
    t: Tables,
    hash: Seq<u8>,
    bytes: Seq<u8>,
    height: u32,
    added: Seq<(Seq<char>, Seq<u8>)>,
    removed: Seq<Seq<char>>,
    claimed: Seq<Seq<char>>,
) -> Tables {
    with_best(
        Tables {
            blocks: t.blocks.insert(hex_text(hash), bytes),
            heights: t.heights.insert(height, hex_text(hash)),
            utxos: without_keys(with_records(t.utxos, added), removed),
            claimed: t.claimed.union(claimed.to_set()),
            ..t
        },
        height,
        hex_text(hash),
    )
}

/// The tables after the block at `height` was taken off the main chain. `below` is the hash of the
/// block under it.
pub open spec fn rolled_back(
    t: Tables,
    height: u32,
    below: Seq<char>,
    restored: Seq<(Seq<char>, Seq<u8>)>,
    removed: Seq<Seq<char>>,
    unclaimed: Seq<Seq<char>>,
) -> Tables {
    with_best(
        Tables {
            heights: t.heights.remove(height),
            utxos: without_keys(with_records(t.utxos, restored), removed),
            claimed: t.claimed.difference(unclaimed.to_set()),
            ..t
        },
        (height - 1) as u32,
        below,
    )
}

fn add_op(ops: &mut Vec<TableOp>, op: TableOp)
    ensures
        final(ops)@ == old(ops)@.push(op),
        forall|t: Tables|
            #[trigger] after_ops(t, op_views(final(ops)@)) == after_op(
                after_ops(t, op_views(old(ops)@)),
                op@,
            ),
{
    let ghost before = ops@;
    ops.push(op);
    proof {
        assert forall|t: Tables|
            #[trigger] after_ops(t, op_views(ops@)) == after_op(
                after_ops(t, op_views(before)),
                op@,
            ) by {
            lemma_one_more(t, before, op);
        }
    }
}

fn add_best(ops: &mut Vec<TableOp>, height: u32, hash: &str)
    ensures
        forall|t: Tables|
            #[trigger] after_ops(t, op_views(final(ops)@)) == with_best(
                after_ops(t, op_views(old(ops)@)),
                height,
                hash@,
            ),
{
    let mut text: String = String::new();
    push_decimal(&mut text, height as u64);
    assert(text@ =~= decimal(height as nat));
    let ghost start = ops@;
    add_op(ops, TableOp::PutMeta { key: "best_height".to_owned(), value: text });
    let ghost middle = ops@;
    add_op(ops, TableOp::PutMeta { key: "best_hash".to_owned(), value: hash.to_owned() });
    proof {
        assert forall|t: Tables|
            #[trigger] after_ops(t, op_views(ops@)) == with_best(
                after_ops(t, op_views(start)),
                height,
                hash@,
            ) by {
            assert(after_ops(t, op_views(middle)) == after_op(
                after_ops(t, op_views(start)),
                Op::PutMeta { key: "best_height"@, value: text@ },
            ));
        }
    }
}

fn add_records(ops: &mut Vec<TableOp>, records: &[UtxoRecord])
    ensures
        forall|t: Tables|
            #[trigger] after_ops(t, op_views(final(ops)@)) == (Tables {
                utxos: with_records(
                    after_ops(t, op_views(old(ops)@)).utxos,
                    record_views(records@),
                ),
                ..after_ops(t, op_views(old(ops)@))
            }),
{
    let ghost start = ops@;
    let ghost all = record_views(records@);
    let mut i: usize = 0;
    assert(all.take(0) =~= Seq::empty());
    while i < records.len()
        invariant
            i <= records.len(),
            all == record_views(records@),
            forall|t: Tables|
                #[trigger] after_ops(t, op_views(ops@)) == (Tables {
                    utxos: with_records(after_ops(t, op_views(start)).utxos, all.take(i as int)),
                    ..after_ops(t, op_views(start))
                }),
        decreases records.len() - i,
    {
        let r = &records[i];
        let ghost before = ops@;
        add_op(
            ops,
            TableOp::PutUtxo { key: utxo_key(&r.txid, r.vout), bytes: r.bytes.clone() },
        );
        proof {
            assert(all.take(i + 1).drop_last() =~= all.take(i as int));
            assert(all.take(i + 1).last() == (utxo_key_text(r.txid@, r.vout), r.bytes@));
            assert forall|t: Tables|
                #[trigger] after_ops(t, op_views(ops@)) == (Tables {
                    utxos: with_records(after_ops(t, op_views(start)).utxos, all.take(i + 1)),
                    ..after_ops(t, op_views(start))
                }) by {
                let was = after_ops(t, op_views(before));
            }
        }
        i = i + 1;
    }
    assert(all.take(all.len() as int) =~= all);
}

fn add_removals(ops: &mut Vec<TableOp>, outputs: &[([u8; 32], u32)])
    ensures
        forall|t: Tables|
            #[trigger] after_ops(t, op_views(final(ops)@)) == (Tables {
                utxos: without_keys(
                    after_ops(t, op_views(old(ops)@)).utxos,
                    output_keys(outputs@),
                ),
                ..after_ops(t, op_views(old(ops)@))
            }),
{
    let ghost start = ops@;
    let ghost all = output_keys(outputs@);
    let mut i: usize = 0;
    assert(all.take(0) =~= Seq::empty());
    while i < outputs.len()
        invariant
            i <= outputs.len(),
            all == output_keys(outputs@),
            forall|t: Tables|
                #[trigger] after_ops(t, op_views(ops@)) == (Tables {
                    utxos: without_keys(after_ops(t, op_views(start)).utxos, all.take(i as int)),
                    ..after_ops(t, op_views(start))
                }),
        decreases outputs.len() - i,
    {
        let o = &outputs[i];
        let ghost before = ops@;
        add_op(ops, TableOp::RemoveUtxo { key: utxo_key(&o.0, o.1) });
        proof {
            assert(all.take(i + 1).drop_last() =~= all.take(i as int));
            assert(all.take(i + 1).last() == utxo_key_text(o.0@, o.1));
            assert forall|t: Tables|
                #[trigger] after_ops(t, op_views(ops@)) == (Tables {
                    utxos: without_keys(after_ops(t, op_views(start)).utxos, all.take(i + 1)),
                    ..after_ops(t, op_views(start))
                }) by {
                let was = after_ops(t, op_views(before));
            }
        }
        i = i + 1;
    }
    assert(all.take(all.len() as int) =~= all);
}

fn add_claims(ops: &mut Vec<TableOp>, addresses: &[String], claim: bool)
    ensures
        forall|t: Tables|
            #[trigger] after_ops(t, op_views(final(ops)@)) == (Tables {
                claimed: if claim {
                    after_ops(t, op_views(old(ops)@)).claimed.union(texts(addresses@).to_set())
                } else {
                    after_ops(t, op_views(old(ops)@)).claimed.difference(
                        texts(addresses@).to_set(),
                    )
                },
                ..after_ops(t, op_views(old(ops)@))
            }),
{
    let ghost start = ops@;
    let ghost all = texts(addresses@);
    let mut i: usize = 0;
    proof {
        assert(all.take(0).to_set() =~= Set::empty());
        assert forall|t: Tables|
            #[trigger] after_ops(t, op_views(ops@)) == claims_after(
                after_ops(t, op_views(start)),
                all.take(0).to_set(),
                claim,
            ) by {
            let was = after_ops(t, op_views(start));
            assert(was.claimed.union(all.take(0).to_set()) =~= was.claimed);
            assert(was.claimed.difference(all.take(0).to_set()) =~= was.claimed);
        }
    }
    while i < addresses.len()
        invariant
            i <= addresses.len(),
            all == texts(addresses@),
            forall|t: Tables|
                #[trigger] after_ops(t, op_views(ops@)) == claims_after(
                    after_ops(t, op_views(start)),
                    all.take(i as int).to_set(),
                    claim,
                ),
        decreases addresses.len() - i,
    {
        let address: String = addresses[i].clone();
        let ghost before = ops@;
        let op: TableOp = if claim {
            TableOp::PutClaimed { address }
        } else {
            TableOp::RemoveClaimed { address }
        };
        add_op(ops, op);
        proof {
            assert(all[i as int] == address@);
            assert(all.take(i + 1) =~= all.take(i as int).push(address@));
            all.take(i as int).lemma_push_to_set_commute(address@);
            assert(all.take(i + 1).to_set() =~= all.take(i as int).to_set().insert(address@));
            assert forall|t: Tables|
                #[trigger] after_ops(t, op_views(ops@)) == claims_after(
                    after_ops(t, op_views(start)),
                    all.take(i + 1).to_set(),
                    claim,
                ) by {
                let was = after_ops(t, op_views(start));
                let mid = after_ops(t, op_views(before));
                let s = all.take(i as int).to_set();
                assert(was.claimed.union(s).insert(address@) =~= was.claimed.union(
                    s.insert(address@),
                ));
                assert(was.claimed.difference(s).remove(address@) =~= was.claimed.difference(
                    s.insert(address@),
                ));
            }
        }
        i = i + 1;
    }
    assert(all.take(all.len() as int) =~= all);
}

spec fn claims_after(t: Tables, s: Set<Seq<char>>, claim: bool) -> Tables {
    Tables {
        claimed: if claim {
            t.claimed.union(s)
        } else {
            t.claimed.difference(s)
        },
        ..t
    }
}

/// The changes that add a block to the main chain at a height: the block, its height, the outputs
/// it creates and spends, the addresses it claims, and the best block.
pub fn append_plan(
    block_hash: &[u8; 32],
    block_bytes: &[u8],
    height: u32,
    utxos_added: &[UtxoRecord],
    utxos_removed: &[([u8; 32], u32)],
    claimed_addresses: &[String],
) -> (ops: Vec<TableOp>)
    ensures
        forall|t: Tables|
            #[trigger] after_ops(t, op_views(ops@)) == appended(
                t,
                block_hash@,
                block_bytes@,
                height,
                record_views(utxos_added@),
                output_keys(utxos_removed@),
                texts(claimed_addresses@),
            ),
{
    let hash: String = hex_encode(block_hash.as_slice());
    let mut ops: Vec<TableOp> = Vec::new();
    proof {
        assert(op_views(ops@) =~= Seq::<Op>::empty());
        assert forall|t: Tables| #[trigger] after_ops(t, op_views(ops@)) == t by {}
    }
    add_op(
        &mut ops,
        TableOp::PutBlock { hash: hash.clone(), bytes: crate::bytes::copy_all(block_bytes) },
    );
    let ghost s1 = ops@;
    add_op(&mut ops, TableOp::PutHeight { height, hash: hash.clone() });
    let ghost s2 = ops@;
    add_records(&mut ops, utxos_added);
    let ghost s3 = ops@;
    add_removals(&mut ops, utxos_removed);
    let ghost s4 = ops@;
    add_claims(&mut ops, claimed_addresses, true);
    let ghost s5 = ops@;
    add_best(&mut ops, height, hash.as_str());
    proof {
        assert forall|t: Tables|
            #[trigger] after_ops(t, op_views(ops@)) == appended(
                t,
                block_hash@,
                block_bytes@,
                height,
                record_views(utxos_added@),
                output_keys(utxos_removed@),
                texts(claimed_addresses@),
            ) by {
            let t1 = after_ops(t, op_views(s1));
            let t2 = after_ops(t, op_views(s2));
            let t3 = after_ops(t, op_views(s3));
            let t4 = after_ops(t, op_views(s4));
            let t5 = after_ops(t, op_views(s5));
        }
    }
    ops
}

/// Why the best block cannot be taken off, where it cannot.
pub open spec fn rollback_fault(height: u32, below: Option<Seq<char>>) -> Option<StoreFault> {
    if height == 0 {
        Some(StoreFault::Corrupted("Cannot roll back genesis block"@))
    } else if below is None {
        Some(StoreFault::Corrupted("no block at height "@ + decimal((height - 1) as nat)))
    } else {
        None
    }
}

/// The changes that take the best block off the main chain. `hash_below` is what is stored as the
/// hash of the block under it.
pub fn rollback_plan(
    current_height: u32,
    hash_below: Option<&str>,
    utxos_to_restore: &[UtxoRecord],
    utxos_to_remove: &[([u8; 32], u32)],
    claimed_addresses_to_remove: &[String],
) -> (r: Result<Vec<TableOp>, StoreError>)
    ensures
        match rollback_fault(
            current_height,
            match hash_below {
                Some(h) => Some(h@),
                None => None,
            },
        ) {
            Some(f) => r matches Err(e) && e@ == f,
            None => r matches Ok(ops) && forall|t: Tables|
                #[trigger] after_ops(t, op_views(ops@)) == rolled_back(
                    t,
                    current_height,
                    hash_below->0@,
                    record_views(utxos_to_restore@),
                    output_keys(utxos_to_remove@),
                    texts(claimed_addresses_to_remove@),
                ),
        },
{
    if current_height == 0 {
        return Err(StoreError::Corrupted("Cannot roll back genesis block".to_owned()));
    }
    let below: &str = match hash_below {
        Some(h) => h,
        None => {
            let mut m: String = "no block at height ".to_owned();
            push_decimal(&mut m, (current_height - 1) as u64);
            return Err(StoreError::Corrupted(m));
        },
    };
    let mut ops: Vec<TableOp> = Vec::new();
    proof {
        assert(op_views(ops@) =~= Seq::<Op>::empty());
        assert forall|t: Tables| #[trigger] after_ops(t, op_views(ops@)) == t by {}
    }
    add_records(&mut ops, utxos_to_restore);
    let ghost s1 = ops@;
    add_removals(&mut ops, utxos_to_remove);
    let ghost s2 = ops@;
    add_claims(&mut ops, claimed_addresses_to_remove, false);
    let ghost s3 = ops@;
    add_op(&mut ops, TableOp::RemoveHeight { height: current_height });
    let ghost s4 = ops@;
    add_best(&mut ops, current_height - 1, below);
    proof {
        assert forall|t: Tables|
            #[trigger] after_ops(t, op_views(ops@)) == rolled_back(
                t,
                current_height,
                below@,
                record_views(utxos_to_restore@),
                output_keys(utxos_to_remove@),
                texts(claimed_addresses_to_remove@),
            ) by {
            let t1 = after_ops(t, op_views(s1));
            let t2 = after_ops(t, op_views(s2));
            let t3 = after_ops(t, op_views(s3));
            let t4 = after_ops(t, op_views(s4));
        }
    }
    Ok(ops)
}

/// Whether a record with this key is among `s`.
pub open spec fn has_key(s: Seq<(Seq<char>, Seq<u8>)>, key: Seq<char>) -> bool {
    exists|i: int| 0 <= i < s.len() && (#[trigger] s[i]).0 == key
}

proof fn lemma_with_records(
    m: Map<Seq<char>, Seq<u8>>,
    s: Seq<(Seq<char>, Seq<u8>)>,
    key: Seq<char>,
)
    ensures
        with_records(m, s).dom().contains(key) <==> m.dom().contains(key) || has_key(s, key),
        !has_key(s, key) && m.dom().contains(key) ==> with_records(m, s)[key] == m[key],
        has_key(s, key) ==> exists|i: int|
            0 <= i < s.len() && (#[trigger] s[i]).0 == key && with_records(m, s)[key] == s[i].1,
    decreases s.len(),
{
    if s.len() > 0 {
        let t = s.drop_last();
        lemma_with_records(m, t, key);
        if s.last().0 == key {
            assert(s[s.len() - 1].0 == key);
        } else {
            if has_key(s, key) {
                let i = choose|i: int| 0 <= i < s.len() && (#[trigger] s[i]).0 == key;
                assert(t[i] == s[i]);
            }
            if has_key(t, key) {
                let i = choose|i: int|
                    0 <= i < t.len() && (#[trigger] t[i]).0 == key && with_records(m, t)[key]
                        == t[i].1;
                assert(s[i] == t[i]);
            }
        }
    }
}

proof fn lemma_without_keys(m: Map<Seq<char>, Seq<u8>>, s: Seq<Seq<char>>, key: Seq<char>)
    ensures
        without_keys(m, s).dom().contains(key) <==> m.dom().contains(key) && !s.contains(key),
        without_keys(m, s).dom().contains(key) ==> without_keys(m, s)[key] == m[key],
    decreases s.len(),
{
    if s.len() > 0 {
        let t = s.drop_last();
        lemma_without_keys(m, t, key);
        if s.last() == key {
            assert(s[s.len() - 1] == key);
        } else {
            if s.contains(key) {
                let i = choose|i: int| 0 <= i < s.len() && s[i] == key;
                assert(t[i] == key);
            }
            if t.contains(key) {
                let i = choose|i: int| 0 <= i < t.len() && t[i] == key;
                assert(s[i] == key);
            }
        }
    }
}

/// The keys of records.
pub open spec fn keys_of(s: Seq<(Seq<char>, Seq<u8>)>) -> Seq<Seq<char>> {
    s.map_values(|r: (Seq<char>, Seq<u8>)| r.0)
}

/// Whether the best block of `t` is the one below `height`.
pub open spec fn tip_is_below(t: Tables, height: u32, below: Seq<char>) -> bool {
    &&& height > 0
    &&& !t.heights.dom().contains(height)
    &&& t.meta.dom().contains(best_height_key())
    &&& t.meta[best_height_key()] == decimal((height - 1) as nat)
    &&& t.meta.dom().contains(best_hash_key())
    &&& t.meta[best_hash_key()] == below
}

/// Whether `restored` are the outputs that a block spends, as they stand in `t`. Outputs that the
/// block itself creates may be among them.
pub open spec fn restores(
    t: Tables,
    added: Seq<(Seq<char>, Seq<u8>)>,
    removed: Seq<Seq<char>>,
    restored: Seq<(Seq<char>, Seq<u8>)>,
) -> bool {
    &&& forall|i: int|
        0 <= i < restored.len() ==> has_key(added, (#[trigger] restored[i]).0) || (
        t.utxos.dom().contains(restored[i].0) && t.utxos[restored[i].0] == restored[i].1)
    &&& forall|i: int|
        0 <= i < removed.len() && t.utxos.dom().contains(#[trigger] removed[i]) ==> has_key(
            restored,
            removed[i],
        )
}

/// Taking a block off the main chain undoes adding it: heights, outputs, claims and the best block
/// are as they were. The block itself stays stored.
pub proof fn law_rollback_undoes_append(
    t: Tables,
    hash: Seq<u8>,
    bytes: Seq<u8>,
    height: u32,
    below: Seq<char>,
    added: Seq<(Seq<char>, Seq<u8>)>,
    removed: Seq<Seq<char>>,
    restored: Seq<(Seq<char>, Seq<u8>)>,
    claimed: Seq<Seq<char>>,
)
    requires
        tip_is_below(t, height, below),
        forall|i: int| 0 <= i < added.len() ==> !t.utxos.dom().contains((#[trigger] added[i]).0),
        restores(t, added, removed, restored),
        forall|i: int| 0 <= i < claimed.len() ==> !t.claimed.contains(#[trigger] claimed[i]),
    ensures
        rolled_back(
            appended(t, hash, bytes, height, added, removed, claimed),
            height,
            below,
            restored,
            keys_of(added),
            claimed,
        ) == (Tables { blocks: t.blocks.insert(hex_text(hash), bytes), ..t }),
{
    let a = appended(t, hash, bytes, height, added, removed, claimed);
    let r = rolled_back(a, height, below, restored, keys_of(added), claimed);
    assert(r.heights =~= t.heights);
    reveal_strlit("best_height");
    reveal_strlit("best_hash");
    assert(best_height_key().len() != best_hash_key().len());
    assert(r.meta =~= t.meta);
    assert(r.claimed =~= t.claimed) by {
        assert forall|x: Seq<char>| r.claimed.contains(x) == t.claimed.contains(x) by {
            if claimed.to_set().contains(x) {
                let i = choose|i: int| 0 <= i < claimed.len() && claimed[i] == x;
                assert(!t.claimed.contains(claimed[i]));
            }
        }
    }
    let m1 = with_records(t.utxos, added);
    let m2 = without_keys(m1, removed);
    let m3 = with_records(m2, restored);
    let m4 = without_keys(m3, keys_of(added));
    assert forall|k: Seq<char>|
        (#[trigger] m4.dom().contains(k)) == t.utxos.dom().contains(k) && (m4.dom().contains(k)
            ==> m4[k] == t.utxos[k]) by {
        lemma_with_records(t.utxos, added, k);
        lemma_without_keys(m1, removed, k);
        lemma_with_records(m2, restored, k);
        lemma_without_keys(m3, keys_of(added), k);
        if has_key(added, k) {
            let i = choose|i: int| 0 <= i < added.len() && (#[trigger] added[i]).0 == k;
            assert(!t.utxos.dom().contains(added[i].0));
            assert(keys_of(added)[i] == k);
        } else {
            if keys_of(added).contains(k) {
                let i = choose|i: int| 0 <= i < added.len() && keys_of(added)[i] == k;
                assert(added[i].0 == k);
            }
            if has_key(restored, k) {
                let i = choose|i: int|
                    0 <= i < restored.len() && (#[trigger] restored[i]).0 == k && m3[k]
                        == restored[i].1;
                assert(restored[i].0 == k);
                assert(t.utxos[k] == restored[i].1);
            } else if t.utxos.dom().contains(k) && removed.contains(k) {
                let i = choose|i: int| 0 <= i < removed.len() && removed[i] == k;
                assert(has_key(restored, removed[i]));
            }
        }
    }
    assert(m4.dom() =~= t.utxos.dom());
    assert(m4 =~= t.utxos);
}

/// A block that was added to the main chain is read back: it is the best one, it is found under its
/// hash and at its height, and of the outputs those stand that stood before or that it creates,
/// without those that it spends.
pub proof fn law_appended_block_is_read_back(
    t: Tables,
    hash: Seq<u8>,
    bytes: Seq<u8>,
    height: u32,
    added: Seq<(Seq<char>, Seq<u8>)>,
    removed: Seq<Seq<char>>,
    claimed: Seq<Seq<char>>,
)
    requires
        hash.len() == 32,
    ensures
        ({
            let a = appended(t, hash, bytes, height, added, removed, claimed);
            &&& height_stored(a.meta.get(best_height_key())) == Ok::<u32, StoreFault>(height)
            &&& hash_stored(a.meta.get(best_hash_key())) == Ok::<Option<Seq<u8>>, StoreFault>(
                Some(hash),
            )
            &&& a.heights.get(height) == Some(hex_text(hash))
            &&& a.blocks.get(hex_text(hash)) == Some(bytes)
            &&& forall|k: Seq<char>|
                #![trigger a.utxos.dom().contains(k)]
                (a.utxos.dom().contains(k) <==> (t.utxos.dom().contains(k) || has_key(added, k))
                    && !removed.contains(k)) && (a.utxos.dom().contains(k) && !has_key(added, k)
                    ==> a.utxos[k] == t.utxos[k]) && (a.utxos.dom().contains(k) && has_key(added, k)
                    ==> added.contains((k, a.utxos[k])))
            &&& forall|x: Seq<char>| #[trigger]
                a.claimed.contains(x) <==> t.claimed.contains(x) || claimed.contains(x)
        }),
{
    let a = appended(t, hash, bytes, height, added, removed, claimed);
    reveal_strlit("best_height");
    reveal_strlit("best_hash");
    assert(best_height_key().len() != best_hash_key().len());
    law_decimal_roundtrip(height as nat);
    law_hex_roundtrip(hash);
    let m = with_records(t.utxos, added);
    assert forall|k: Seq<char>|
        #![trigger a.utxos.dom().contains(k)]
        (a.utxos.dom().contains(k) <==> (t.utxos.dom().contains(k) || has_key(added, k))
            && !removed.contains(k)) && (a.utxos.dom().contains(k) && !has_key(added, k)
            ==> a.utxos[k] == t.utxos[k]) && (a.utxos.dom().contains(k) && has_key(added, k)
            ==> added.contains((k, a.utxos[k]))) by {
        lemma_with_records(t.utxos, added, k);
        lemma_without_keys(m, removed, k);
        if has_key(added, k) && a.utxos.dom().contains(k) {
            let i = choose|i: int|
                0 <= i < added.len() && (#[trigger] added[i]).0 == k && m[k] == added[i].1;
            assert(added[i] == (k, a.utxos[k]));
        }
    }
}

// ---- opening ----

/// The version of the store.
pub open spec fn store_protocol() -> Seq<char> {
    "3"@
}

/// What is found when the store is opened.
#[derive(Debug, Clone)]
pub struct OpenFacts {
    /// The version that is stored.
    pub protocol: Option<String>,
    /// Whether the first block is stored.
    pub has_genesis: bool,
    /// The greatest height that is stored, with its hash.
    pub highest: Option<(u32, String)>,
    /// The height of the best block, as it is stored.
    pub best_height: Option<String>,
}

/// [`OpenFacts`] over sequences.
pub ghost struct Found {
    pub protocol: Option<Seq<char>>,
    pub has_genesis: bool,
    pub highest: Option<(u32, Seq<char>)>,
    pub best_height: Option<Seq<char>>,
}

/// A text that may be absent.
pub open spec fn text_if_any(s: Option<String>) -> Option<Seq<char>> {
    match s {
        Some(x) => Some(x@),
        None => None,
    }
}

impl View for OpenFacts {
    type V = Found;

    open spec fn view(&self) -> Found {
        Found {
            protocol: text_if_any(self.protocol),
            has_genesis: self.has_genesis,
            highest: match self.highest {
                Some((h, s)) => Some((h, s@)),
                None => None,
            },
            best_height: text_if_any(self.best_height),
        }
    }
}

/// A number that is stored as text, zero where there is none.
pub open spec fn stored_height(s: Option<Seq<char>>) -> nat {
    match s {
        Some(x) => match unsigned_number(encode_utf8(x)) {
            Some(n) => if n <= u32::MAX {
                n
            } else {
                0
            },
            None => 0,
        },
        None => 0,
    }
}

/// Why the store cannot be opened, where it cannot: it was written by another version.
pub open spec fn open_fault(f: Found) -> Option<StoreFault> {
    match f.protocol {
        Some(p) => if p == store_protocol() {
            None
        } else {
            Some(
                StoreFault::Corrupted(
                    "block store protocol "@ + p + " is incompatible with required protocol "@
                        + store_protocol() + "; start with a new data directory"@,
                ),
            )
        },
        None => if f.highest is Some {
            Some(
                StoreFault::Corrupted(
                    "legacy block store predates protocol 3 UTXO commitments; start with a new data directory"@,
                ),
            )
        } else {
            None
        },
    }
}

/// The greatest height once the first block is stored, with its hash.
pub open spec fn tip_with_genesis(f: Found, genesis: Seq<u8>) -> (u32, Seq<char>) {
    match f.highest {
        Some((h, s)) => if h > 0 || f.has_genesis {
            (h, s)
        } else {
            (0u32, hex_text(genesis))
        },
        None => (0u32, hex_text(genesis)),
    }
}

/// The tables after the store was opened: the version and the first block are there, and the best
/// block is no lower than the greatest height that is stored.
pub open spec fn opened(t: Tables, f: Found, genesis: Seq<u8>, bytes: Seq<u8>) -> Tables {
    let t1 = if f.protocol is None {
        Tables { meta: t.meta.insert(protocol_key(), store_protocol()), ..t }
    } else {
        t
    };
    let t2 = if f.has_genesis {
        t1
    } else {
        Tables {
            blocks: t1.blocks.insert(hex_text(genesis), bytes),
            heights: t1.heights.insert(0, hex_text(genesis)),
            ..t1
        }
    };
    let tip = tip_with_genesis(f, genesis);
    if !f.has_genesis || stored_height(f.best_height) < tip.0 {
        with_best(t2, tip.0, tip.1)
    } else {
        t2
    }
}

fn protocol_error(found: &str) -> (r: StoreError)
    ensures
        r@ == StoreFault::Corrupted(
            "block store protocol "@ + found@ + " is incompatible with required protocol "@
                + store_protocol() + "; start with a new data directory"@,
        ),
{
    let mut m: String = "block store protocol ".to_owned();
    m.append(found);
    m.append(" is incompatible with required protocol ");
    m.append("3");
    m.append("; start with a new data directory");
    StoreError::Corrupted(m)
}

fn read_height(s: &Option<String>) -> (r: u32)
    ensures
        r == stored_height(text_if_any(*s)),
{
    match s {
        Some(x) => match parse_unsigned(x.as_str().as_bytes(), 0xffff_ffff) {
            Some(n) => n as u32,
            None => 0,
        },
        None => 0,
    }
}

/// The changes that are made when the store is opened. `genesis_hash` and `genesis_bytes` are the
/// first block, which is stored where it is missing.
pub fn open_plan(facts: &OpenFacts, genesis_hash: &[u8; 32], genesis_bytes: &[u8]) -> (r: Result<
    Vec<TableOp>,
    StoreError,
>)
    ensures
        match open_fault(facts@) {
            Some(f) => r matches Err(e) && e@ == f,
            None => r matches Ok(ops) && forall|t: Tables|
                #[trigger] after_ops(t, op_views(ops@)) == opened(
                    t,
                    facts@,
                    genesis_hash@,
                    genesis_bytes@,
                ),
        },
{
    let ghost f = facts@;
    let mut ops: Vec<TableOp> = Vec::new();
    proof {
        assert(op_views(ops@) =~= Seq::<Op>::empty());
        assert forall|t: Tables| #[trigger] after_ops(t, op_views(ops@)) == t by {}
    }
    match &facts.protocol {
        Some(p) => {
            if !same_text(p.as_str(), "3") {
                return Err(protocol_error(p.as_str()));
            }
        },
        None => {
            if facts.highest.is_some() {
                return Err(
                    StoreError::Corrupted(
                        "legacy block store predates protocol 3 UTXO commitments; start with a new data directory".to_owned(),
                    ),
                );
            }
            add_op(
                &mut ops,
                TableOp::PutMeta { key: "protocol_version".to_owned(), value: "3".to_owned() },
            );
        },
    }
    let ghost s1 = ops@;
    if !facts.has_genesis {
        let hash: String = hex_encode(genesis_hash.as_slice());
        add_op(
            &mut ops,
            TableOp::PutBlock { hash: hash.clone(), bytes: crate::bytes::copy_all(genesis_bytes) },
        );
        let ghost sa = ops@;
        add_op(&mut ops, TableOp::PutHeight { height: 0, hash });
        proof {
            assert forall|t: Tables|
                #[trigger] after_ops(t, op_views(ops@)) == (Tables {
                    blocks: after_ops(t, op_views(s1)).blocks.insert(
                        hex_text(genesis_hash@),
                        genesis_bytes@,
                    ),
                    heights: after_ops(t, op_views(s1)).heights.insert(
                        0,
                        hex_text(genesis_hash@),
                    ),
                    ..after_ops(t, op_views(s1))
                }) by {
                let ta = after_ops(t, op_views(sa));
            }
        }
    }
    let ghost s2 = ops@;
    let tip: (u32, String) = match &facts.highest {
        Some((h, s)) => if *h > 0 || facts.has_genesis {
            (*h, s.clone())
        } else {
            (0, hex_encode(genesis_hash.as_slice()))
        },
        None => (0, hex_encode(genesis_hash.as_slice())),
    };
    if !facts.has_genesis || read_height(&facts.best_height) < tip.0 {
        add_best(&mut ops, tip.0, tip.1.as_str());
    }
    proof {
        assert forall|t: Tables|
            #[trigger] after_ops(t, op_views(ops@)) == opened(
                t,
                f,
                genesis_hash@,
                genesis_bytes@,
            ) by {
            let t1 = after_ops(t, op_views(s1));
            let t2 = after_ops(t, op_views(s2));
        }
    }
    Ok(ops)
}

/// Whether `f` is what is found in the tables.
pub open spec fn found_in(t: Tables, f: Found) -> bool {
    &&& f.protocol == (if t.meta.dom().contains(protocol_key()) {
        Some(t.meta[protocol_key()])
    } else {
        None
    })
    &&& f.best_height == (if t.meta.dom().contains(best_height_key()) {
        Some(t.meta[best_height_key()])
    } else {
        None
    })
    &&& f.has_genesis == t.heights.dom().contains(0)
    &&& match f.highest {
        Some((h, s)) => {
            &&& t.heights.dom().contains(h)
            &&& t.heights[h] == s
            &&& forall|k: u32| #[trigger] t.heights.dom().contains(k) ==> k <= h
        },
        None => forall|k: u32| !#[trigger] t.heights.dom().contains(k),
    }
}

/// A store that was opened can be opened again, and that changes nothing.
pub proof fn law_opening_again_changes_nothing(
    t: Tables,
    f: Found,
    again: Found,
    genesis: Seq<u8>,
    bytes: Seq<u8>,
)
    requires
        found_in(t, f),
        open_fault(f) is None,
        found_in(opened(t, f, genesis, bytes), again),
    ensures
        open_fault(again) is None,
        opened(opened(t, f, genesis, bytes), again, genesis, bytes) == opened(t, f, genesis, bytes),
{
    let o = opened(t, f, genesis, bytes);
    reveal_strlit("best_height");
    reveal_strlit("best_hash");
    reveal_strlit("protocol_version");
    assert(best_height_key().len() == 11 && best_hash_key().len() == 9 && protocol_key().len()
        == 16);
    assert(o.meta.dom().contains(protocol_key()));
    assert(o.meta[protocol_key()] == store_protocol());
    assert(o.heights.dom().contains(0));
    let tip = tip_with_genesis(f, genesis);
    assert(o.heights.dom().contains(tip.0));
    assert forall|k: u32| #[trigger] o.heights.dom().contains(k) implies k <= tip.0 by {
        if k != 0 {
            assert(t.heights.dom().contains(k));
        }
    }
    match again.highest {
        Some((h, _)) => {
            assert(h == tip.0);
        },
        None => {
            assert(false);
        },
    }
    crate::text::law_decimal_roundtrip(tip.0 as nat);
    assert(stored_height(again.best_height) >= tip.0);
}

// ---- throwing a part of the chain away ----

/// The rows above `keep`.
pub open spec fn rows_above(rows: Seq<(u32, Seq<char>)>, keep: u32) -> Seq<(u32, Seq<char>)> {
    rows.filter(|r: (u32, Seq<char>)| r.0 > keep)
}

/// The heights as they read.
pub open spec fn row_views(s: Seq<(u32, String)>) -> Seq<(u32, Seq<char>)> {
    s.map_values(|r: (u32, String)| (r.0, r.1@))
}

/// The tables after the blocks of these rows were removed.
pub open spec fn without_rows(t: Tables, rows: Seq<(u32, Seq<char>)>) -> Tables
    decreases rows.len(),
{
    if rows.len() == 0 {
        t
    } else {
        let before = without_rows(t, rows.drop_last());
        Tables {
            blocks: before.blocks.remove(rows.last().1),
            heights: before.heights.remove(rows.last().0),
            ..before
        }
    }
}

/// The changes that remove the blocks above the height `keep`. `rows` are the heights that are
/// stored, with their hashes. Where the block at `keep` is among them it becomes the best block.
pub fn truncate_plan(rows: &[(u32, String)], keep: u32, keep_hash: Option<&str>) -> (ops: Vec<
    TableOp,
>)
    ensures
        forall|t: Tables|
            #[trigger] after_ops(t, op_views(ops@)) == truncated(
                t,
                row_views(rows@),
                keep,
                match keep_hash {
                    Some(h) => Some(h@),
                    None => None,
                },
            ),
{
    let ghost all = row_views(rows@);
    let ghost above = |r: (u32, Seq<char>)| r.0 > keep;
    let mut ops: Vec<TableOp> = Vec::new();
    proof {
        assert(op_views(ops@) =~= Seq::<Op>::empty());
        assert(all.take(0).filter(above) =~= Seq::empty()) by {
            reveal(Seq::filter);
        }
        assert forall|t: Tables|
            #[trigger] after_ops(t, op_views(ops@)) == without_rows(t, all.take(0).filter(above)) by {}
    }
    let mut i: usize = 0;
    while i < rows.len()
        invariant
            i <= rows.len(),
            all == row_views(rows@),
            above == (|r: (u32, Seq<char>)| r.0 > keep),
            forall|t: Tables|
                #[trigger] after_ops(t, op_views(ops@)) == without_rows(
                    t,
                    all.take(i as int).filter(above),
                ),
        decreases rows.len() - i,
    {
        let r = &rows[i];
        let ghost before = ops@;
        proof {
            reveal(Seq::filter);
            assert(all.take(i + 1).drop_last() =~= all.take(i as int));
            assert(all.take(i + 1).last() == (r.0, r.1@));
        }
        if r.0 > keep {
            add_op(&mut ops, TableOp::RemoveBlock { hash: r.1.clone() });
            let ghost middle = ops@;
            add_op(&mut ops, TableOp::RemoveHeight { height: r.0 });
            proof {
                let f = all.take(i as int).filter(above);
                let g = all.take(i + 1).filter(above);
                assert(g == f.push((r.0, r.1@)));
                assert(g.drop_last() =~= f);
                assert forall|t: Tables|
                    #[trigger] after_ops(t, op_views(ops@)) == without_rows(t, g) by {
                    let was = after_ops(t, op_views(before));
                    let mid = after_ops(t, op_views(middle));
                }
            }
        }
        i = i + 1;
    }
    assert(all.take(all.len() as int) =~= all);
    match keep_hash {
        Some(h) => {
            add_best(&mut ops, keep, h);
        },
        None => {},
    }
    ops
}

/// The tables without the blocks above `keep`.
pub open spec fn truncated(
    t: Tables,
    rows: Seq<(u32, Seq<char>)>,
    keep: u32,
    keep_hash: Option<Seq<char>>,
) -> Tables {
    let cut = without_rows(t, rows_above(rows, keep));
    match keep_hash {
        Some(h) => with_best(cut, keep, h),
        None => cut,
    }
}

/// The changes that remove all unspent outputs and claims: `keys` and `claimed` are those that are
/// stored.
pub fn clear_plan(keys: &[String], claimed: &[String]) -> (ops: Vec<TableOp>)
    ensures
        forall|t: Tables|
            #[trigger] after_ops(t, op_views(ops@)) == (Tables {
                utxos: without_keys(t.utxos, texts(keys@)),
                claimed: t.claimed.difference(texts(claimed@).to_set()),
                ..t
            }),
{
    let mut ops: Vec<TableOp> = Vec::new();
    let ghost all = texts(keys@);
    proof {
        assert(op_views(ops@) =~= Seq::<Op>::empty());
        assert(all.take(0) =~= Seq::empty());
        assert forall|t: Tables|
            #[trigger] after_ops(t, op_views(ops@)) == (Tables {
                utxos: without_keys(t.utxos, all.take(0)),
                ..t
            }) by {}
    }
    let mut i: usize = 0;
    while i < keys.len()
        invariant
            i <= keys.len(),
            all == texts(keys@),
            forall|t: Tables|
                #[trigger] after_ops(t, op_views(ops@)) == (Tables {
                    utxos: without_keys(t.utxos, all.take(i as int)),
                    ..t
                }),
        decreases keys.len() - i,
    {
        let key: String = keys[i].clone();
        let ghost before = ops@;
        add_op(&mut ops, TableOp::RemoveUtxo { key });
        proof {
            assert(all[i as int] == key@);
            assert(all.take(i + 1).drop_last() =~= all.take(i as int));
            assert(all.take(i + 1).last() == key@);
            assert forall|t: Tables|
                #[trigger] after_ops(t, op_views(ops@)) == (Tables {
                    utxos: without_keys(t.utxos, all.take(i + 1)),
                    ..t
                }) by {
                let was = after_ops(t, op_views(before));
            }
        }
        i = i + 1;
    }
    assert(all.take(all.len() as int) =~= all);
    let ghost s1 = ops@;
    add_claims(&mut ops, claimed, false);
    proof {
        assert forall|t: Tables|
            #[trigger] after_ops(t, op_views(ops@)) == (Tables {
                utxos: without_keys(t.utxos, texts(keys@)),
                claimed: t.claimed.difference(texts(claimed@).to_set()),
                ..t
            }) by {
            let t1 = after_ops(t, op_views(s1));
        }
    }
    ops
}

proof fn lemma_without_rows(t: Tables, rows: Seq<(u32, Seq<char>)>, h: u32)
    ensures
        without_rows(t, rows).heights.dom().contains(h) <==> t.heights.dom().contains(h) && !(
        exists|i: int| 0 <= i < rows.len() && (#[trigger] rows[i]).0 == h),
        without_rows(t, rows).heights.dom().contains(h) ==> without_rows(t, rows).heights[h]
            == t.heights[h],
        without_rows(t, rows).utxos == t.utxos,
        without_rows(t, rows).claimed == t.claimed,
        without_rows(t, rows).meta == t.meta,
    decreases rows.len(),
{
    if rows.len() > 0 {
        let s = rows.drop_last();
        lemma_without_rows(t, s, h);
        if rows.last().0 == h {
            assert(rows[rows.len() - 1].0 == h);
        } else {
            if exists|i: int| 0 <= i < rows.len() && (#[trigger] rows[i]).0 == h {
                let i = choose|i: int| 0 <= i < rows.len() && (#[trigger] rows[i]).0 == h;
                assert(s[i].0 == h);
            }
            if exists|i: int| 0 <= i < s.len() && (#[trigger] s[i]).0 == h {
                let i = choose|i: int| 0 <= i < s.len() && (#[trigger] s[i]).0 == h;
                assert(rows[i].0 == h);
            }
        }
    }
}

/// A chain that was cut keeps its heights up to the cut, and has none above it.
pub proof fn law_truncation_cuts_at_the_height(
    t: Tables,
    rows: Seq<(u32, Seq<char>)>,
    keep: u32,
    keep_hash: Option<Seq<char>>,
    h: u32,
)
    requires
        forall|k: u32|
            #[trigger] t.heights.dom().contains(k) ==> exists|i: int|
                0 <= i < rows.len() && (#[trigger] rows[i]).0 == k,
    ensures
        ({
            let cut = truncated(t, rows, keep, keep_hash).heights;
            &&& h > keep ==> !cut.dom().contains(h)
            &&& h <= keep ==> cut.dom().contains(h) == t.heights.dom().contains(h)
            &&& h <= keep && cut.dom().contains(h) ==> cut[h] == t.heights[h]
        }),
{
    let above = |r: (u32, Seq<char>)| r.0 > keep;
    let f = rows.filter(above);
    lemma_without_rows(t, f, h);
    if exists|i: int| 0 <= i < f.len() && (#[trigger] f[i]).0 == h {
        let i = choose|i: int| 0 <= i < f.len() && (#[trigger] f[i]).0 == h;
        rows.lemma_filter_pred(above, i);
    }
    if h > keep && t.heights.dom().contains(h) {
        let i = choose|i: int| 0 <= i < rows.len() && (#[trigger] rows[i]).0 == h;
        rows.lemma_filter_contains(above, i);
        let j = choose|j: int| 0 <= j < f.len() && f[j] == rows[i];
        assert(f[j].0 == h);
    }
}

} // verus!
