//! Aggregation of unspent outputs into balances by address.
use crate::bytes::append_slice;
use crate::bytes::bytes_before;
use crate::bytes::le_digits;
use crate::bytes::lemma_before_irreflexive;
use crate::bytes::lemma_before_total;
use crate::bytes::lemma_before_transitive;
use crate::bytes::order_bytes;
use crate::bytes::push_u64_le;
use crate::bytes::Order;
use crate::clock::unix_seconds;
use crate::crypto::sha256;
use crate::crypto::sha256_of;
use crate::snapshot::chainstate::RawUtxo;
use crate::snapshot::utxo_value::amount_in_range;
use crate::snapshot::utxo_value::parse_utxo_value;
use crate::snapshot::utxo_value::unpacked;
use crate::snapshot::utxo_value::value_in_range;
use crate::text::hex_encode;
use crate::text::hex_text;
use crate::text::lemma_encoding_injective;
use vstd::prelude::*;
use vstd::utf8::encode_utf8;

verus! {

/// The balance of one address.
#[derive(Debug, Clone)]
pub struct SnapshotEntry {
    /// The legacy address.
    pub address: String,
    /// The sum of its outputs.
    pub balance: u64,
    /// The number of its outputs.
    pub utxo_count: u32,
}

/// A `SnapshotEntry` as a value.
#[verifier::ext_equal]
pub struct Entry {
    pub address: Seq<char>,
    pub balance: u64,
    pub utxo_count: u32,
}

impl View for SnapshotEntry {
    type V = Entry;

    open spec fn view(&self) -> Entry {
        Entry { address: self.address@, balance: self.balance, utxo_count: self.utxo_count }
    }
}

/// What a snapshot says of itself.
#[derive(Debug, Clone)]
pub struct SnapshotMetadata {
    /// The block height at which it was taken.
    pub snapshot_height: u32,
    /// The number of addresses with a balance.
    pub total_addresses: u64,
    /// The sum of all balances.
    pub total_supply: u64,
    /// The number of outputs.
    pub total_utxos: u64,
    /// The digest of the entries, in hexadecimal.
    pub entries_hash: String,
    /// The Unix time at which it was made.
    pub created_at: u64,
    /// The best block's hash when it was taken.
    pub best_block_hash: String,
}

/// A `SnapshotMetadata` as a value.
#[verifier::ext_equal]
pub struct Metadata {
    pub snapshot_height: u32,
    pub total_addresses: u64,
    pub total_supply: u64,
    pub total_utxos: u64,
    pub entries_hash: Seq<char>,
    pub created_at: u64,
    pub best_block_hash: Seq<char>,
}

impl View for SnapshotMetadata {
    type V = Metadata;

    open spec fn view(&self) -> Metadata {
        Metadata {
            snapshot_height: self.snapshot_height,
            total_addresses: self.total_addresses,
            total_supply: self.total_supply,
            total_utxos: self.total_utxos,
            entries_hash: self.entries_hash@,
            created_at: self.created_at,
            best_block_hash: self.best_block_hash@,
        }
    }
}

/// Balances by address, in the order of the addresses.
#[derive(Debug, Clone)]
pub struct UtxoSnapshot {
    pub metadata: SnapshotMetadata,
    pub entries: Vec<SnapshotEntry>,
}

/// The entries as values.
pub open spec fn entry_views(v: Seq<SnapshotEntry>) -> Seq<Entry> {
    Seq::new(v.len(), |i: int| v[i]@)
}

/// The bytes by which an address is ordered.
pub open spec fn address_key(e: Entry) -> Seq<u8> {
    encode_utf8(e.address)
}

/// Whether no entry comes before an earlier one.
pub open spec fn in_order(s: Seq<Entry>) -> bool {
    forall|i: int, j: int|
        0 <= i < j < s.len() ==> !bytes_before(
            #[trigger] address_key(s[j]),
            #[trigger] address_key(s[i]),
        )
}

/// Whether each entry's address comes before the next one's.
pub open spec fn strictly_in_order(s: Seq<Entry>) -> bool {
    forall|i: int, j: int|
        0 <= i < j < s.len() ==> bytes_before(
            #[trigger] address_key(s[i]),
            #[trigger] address_key(s[j]),
        )
}

/// An output's address text, where it has one, and its amount.
pub type Credit = (Option<Seq<char>>, nat);

/// The readable outputs, each with its amount and the text of its address.
pub open spec fn credits(raws: Seq<RawUtxo>, texts: Seq<Option<String>>) -> Seq<Credit>
    decreases raws.len(),
{
    if raws.len() == 0 {
        Seq::empty()
    } else {
        let rest = credits(raws.drop_last(), texts.drop_last());
        match unpacked(raws.last()) {
            Err(_) => rest,
            Ok(u) => rest.push(
                (
                    match (u.address, texts.last()) {
                        (Some(_), Some(t)) => Some(t@),
                        _ => None,
                    },
                    u.amount,
                ),
            ),
        }
    }
}

/// The sum of an address's outputs.
pub open spec fn balance_of(c: Seq<Credit>, address: Seq<char>) -> nat
    decreases c.len(),
{
    if c.len() == 0 {
        0
    } else {
        balance_of(c.drop_last(), address) + if c.last().0 == Some(address) {
            c.last().1
        } else {
            0
        }
    }
}

/// The number of an address's outputs.
pub open spec fn count_of(c: Seq<Credit>, address: Seq<char>) -> nat
    decreases c.len(),
{
    if c.len() == 0 {
        0
    } else {
        count_of(c.drop_last(), address) + if c.last().0 == Some(address) {
            1nat
        } else {
            0
        }
    }
}

/// The sum of the outputs that pay to an address, or of those that pay to none.
pub open spec fn total_of(c: Seq<Credit>, addressed: bool) -> nat
    decreases c.len(),
{
    if c.len() == 0 {
        0
    } else {
        total_of(c.drop_last(), addressed) + if (c.last().0 is Some) == addressed {
            c.last().1
        } else {
            0
        }
    }
}

/// Whether the entries are the balances of these outputs: in strict order, each with its
/// address's balance, which is not zero, and its number of outputs, and none missing.
pub open spec fn is_balance_sheet(s: Seq<Entry>, c: Seq<Credit>) -> bool {
    &&& strictly_in_order(s)
    &&& forall|i: int|
        0 <= i < s.len() ==> {
            let e = #[trigger] s[i];
            e.balance > 0 && e.balance == balance_of(c, e.address) && e.utxo_count == count_of(
                c,
                e.address,
            )
        }
    &&& forall|a: Seq<char>|
        #[trigger] balance_of(c, a) > 0 ==> exists|i: int|
            0 <= i < s.len() && (#[trigger] s[i]).address == a
}

/// The sum of the entries' balances.
pub open spec fn supply(s: Seq<Entry>) -> nat
    decreases s.len(),
{
    if s.len() == 0 {
        0
    } else {
        supply(s.drop_last()) + s.last().balance as nat
    }
}

/// The bytes over which the entries' digest is taken: each address and its balance.
pub open spec fn digest_input(s: Seq<Entry>) -> Seq<u8>
    decreases s.len(),
{
    if s.len() == 0 {
        Seq::empty()
    } else {
        digest_input(s.drop_last()) + encode_utf8(s.last().address) + le_digits(
            s.last().balance as nat,
            8,
        )
    }
}

/// The digest of the entries, in hexadecimal.
pub open spec fn entries_digest(s: Seq<Entry>) -> Seq<char> {
    hex_text(sha256_of(digest_input(s)))
}

/// What `build_snapshot` needs of its input: amounts within range, and so the sums of those that
/// are paid to addresses and of the others, and the number of outputs of each address.
pub open spec fn buildable(raws: Seq<RawUtxo>, texts: Seq<Option<String>>) -> bool {
    &&& raws.len() == texts.len()
    &&& forall|i: int| 0 <= i < raws.len() ==> amount_in_range(#[trigger] raws[i])
    &&& total_of(credits(raws, texts), true) <= u64::MAX
    &&& total_of(credits(raws, texts), false) <= u64::MAX
    &&& forall|a: Seq<char>| #[trigger] count_of(credits(raws, texts), a) <= u32::MAX
}

/// Where an address stands, or where it would, in entries that are in order.
fn locate(entries: &Vec<SnapshotEntry>, address: &str) -> (r: (bool, usize))
    requires
        in_order(entry_views(entries@)),
    ensures
        r.1 <= entries@.len(),
        r.0 ==> r.1 < entries@.len() && entry_views(entries@)[r.1 as int].address == address@,
        !r.0 ==> forall|i: int|
            0 <= i < r.1 ==> bytes_before(
                #[trigger] address_key(entry_views(entries@)[i]),
                encode_utf8(address@),
            ),
        !r.0 ==> forall|i: int|
            r.1 <= i < entries@.len() ==> bytes_before(
                encode_utf8(address@),
                #[trigger] address_key(entry_views(entries@)[i]),
            ),
{
    let ghost s = entry_views(entries@);
    let key: &[u8] = address.as_bytes();
    let mut lo: usize = 0;
    let mut hi: usize = entries.len();
    while lo < hi
        invariant
            lo <= hi <= entries@.len(),
            s == entry_views(entries@),
            key@ == encode_utf8(address@),
            in_order(s),
            forall|i: int| 0 <= i < lo ==> bytes_before(#[trigger] address_key(s[i]), key@),
            forall|i: int|
                hi <= i < entries@.len() ==> bytes_before(key@, #[trigger] address_key(s[i])),
        decreases hi - lo,
    {
        let mid: usize = lo + (hi - lo) / 2;
        let here: &[u8] = entries[mid].address.as_str().as_bytes();
        assert(here@ == address_key(s[mid as int]));
        match order_bytes(here, key) {
            Order::Equal => {
                proof {
                    lemma_encoding_injective(s[mid as int].address, address@);
                }
                return (true, mid);
            },
            Order::Less => {
                proof {
                    assert forall|i: int| 0 <= i < mid + 1 implies bytes_before(
                        #[trigger] address_key(s[i]),
                        key@,
                    ) by {
                        if i < mid {
                            lemma_not_before(address_key(s[mid as int]), address_key(s[i]), key@);
                        }
                    }
                }
                lo = mid + 1;
            },
            Order::Greater => {
                proof {
                    lemma_before_total(here@, key@);
                    assert forall|i: int| mid <= i < entries@.len() implies bytes_before(
                        key@,
                        #[trigger] address_key(s[i]),
                    ) by {
                        if i > mid {
                            lemma_not_before_up(
                                address_key(s[i]),
                                address_key(s[mid as int]),
                                key@,
                            );
                        }
                    }
                }
                hi = mid;
            },
        }
    }
    (false, lo)
}

/// What does not lie above `b` lies before whatever comes after `b`.
proof fn lemma_not_before(b: Seq<u8>, a: Seq<u8>, key: Seq<u8>)
    requires
        !bytes_before(b, a),
        bytes_before(b, key),
    ensures
        bytes_before(a, key),
{
    lemma_before_total(a, b);
    if bytes_before(a, b) {
        lemma_before_transitive(a, b, key);
    }
}

/// What does not lie below `b` lies after whatever comes before `b`.
proof fn lemma_not_before_up(a: Seq<u8>, b: Seq<u8>, key: Seq<u8>)
    requires
        !bytes_before(a, b),
        bytes_before(key, b),
    ensures
        bytes_before(key, a),
{
    lemma_before_total(a, b);
    if bytes_before(b, a) {
        lemma_before_transitive(key, b, a);
    }
}

/// Strict order is order.
pub proof fn lemma_strict_is_order(s: Seq<Entry>)
    requires
        strictly_in_order(s),
    ensures
        in_order(s),
{
    assert forall|i: int, j: int| 0 <= i < j < s.len() implies !bytes_before(
        #[trigger] address_key(s[j]),
        #[trigger] address_key(s[i]),
    ) by {
        if bytes_before(address_key(s[j]), address_key(s[i])) {
            lemma_before_transitive(address_key(s[i]), address_key(s[j]), address_key(s[i]));
            lemma_before_irreflexive(address_key(s[i]));
        }
    }
}

/// The balance recorded for an address: that of an entry with it, or zero where there is none.
/// The entries are in the order of their addresses.
pub fn lookup_balance(snapshot: &UtxoSnapshot, address: &str) -> (r: u64)
    requires
        in_order(entry_views(snapshot.entries@)),
    ensures
        (exists|i: int|
            0 <= i < snapshot.entries@.len() && (#[trigger] entry_views(
                snapshot.entries@,
            )[i]).address == address@) ==> exists|i: int|
            0 <= i < snapshot.entries@.len() && (#[trigger] entry_views(
                snapshot.entries@,
            )[i]).address == address@ && r == entry_views(snapshot.entries@)[i].balance,
        (forall|i: int|
            0 <= i < snapshot.entries@.len() ==> (#[trigger] entry_views(
                snapshot.entries@,
            )[i]).address != address@) ==> r == 0,
{
    let ghost s = entry_views(snapshot.entries@);
    let (found, at): (bool, usize) = locate(&snapshot.entries, address);
    if found {
        assert(s[at as int].address == address@);
        snapshot.entries[at].balance
    } else {
        proof {
            assert forall|i: int| 0 <= i < s.len() implies (#[trigger] s[i]).address != address@ by {
                lemma_before_irreflexive(encode_utf8(address@));
                if i < at {
                    assert(bytes_before(address_key(s[i]), encode_utf8(address@)));
                } else {
                    assert(bytes_before(encode_utf8(address@), address_key(s[i])));
                }
            }
        }
        0
    }
}

/// The digest of the entries, in hexadecimal.
pub fn compute_entries_hash(entries: &Vec<SnapshotEntry>) -> (r: String)
    ensures
        r@ == entries_digest(entry_views(entries@)),
{
    let ghost s = entry_views(entries@);
    let mut buf: Vec<u8> = Vec::new();
    let mut i: usize = 0;
    assert(s.take(0) =~= Seq::<Entry>::empty());
    while i < entries.len()
        invariant
            i <= entries@.len(),
            s == entry_views(entries@),
            buf@ == digest_input(s.take(i as int)),
        decreases entries@.len() - i,
    {
        append_slice(&mut buf, entries[i].address.as_str().as_bytes());
        push_u64_le(&mut buf, entries[i].balance);
        i = i + 1;
        proof {
            assert(s.take(i as int).drop_last() =~= s.take(i - 1));
            assert(s.take(i as int).last() == entries@[i - 1]@);
        }
    }
    assert(s.take(i as int) =~= s);
    hex_encode(sha256(buf.as_slice()).as_slice())
}

proof fn lemma_balance_bounded(c: Seq<Credit>, a: Seq<char>)
    ensures
        balance_of(c, a) <= total_of(c, true),
    decreases c.len(),
{
    if c.len() > 0 {
        lemma_balance_bounded(c.drop_last(), a);
    }
}

proof fn lemma_credits_len(raws: Seq<RawUtxo>, texts: Seq<Option<String>>)
    ensures
        credits(raws, texts).len() <= raws.len(),
    decreases raws.len(),
{
    if raws.len() > 0 {
        lemma_credits_len(raws.drop_last(), texts.drop_last());
    }
}

/// Sums and numbers of outputs only grow with more outputs.
proof fn lemma_prefix(raws: Seq<RawUtxo>, texts: Seq<Option<String>>, i: int)
    requires
        0 <= i <= raws.len(),
        raws.len() == texts.len(),
    ensures
        forall|addressed: bool| #[trigger]
            total_of(credits(raws.take(i), texts.take(i)), addressed) <= total_of(
                credits(raws, texts),
                addressed,
            ),
        forall|a: Seq<char>| #[trigger]
            count_of(credits(raws.take(i), texts.take(i)), a) <= count_of(credits(raws, texts), a),
    decreases raws.len() - i,
{
    if i == raws.len() {
        assert(raws.take(i) =~= raws);
        assert(texts.take(i) =~= texts);
    } else {
        lemma_prefix(raws, texts, i + 1);
        assert(raws.take(i + 1).drop_last() =~= raws.take(i));
        assert(texts.take(i + 1).drop_last() =~= texts.take(i));
        let rest = credits(raws.take(i), texts.take(i));
        let all = credits(raws.take(i + 1), texts.take(i + 1));
        assert(all == rest || all.drop_last() =~= rest);
        assert forall|addressed: bool| #[trigger] total_of(rest, addressed) <= total_of(
            credits(raws, texts),
            addressed,
        ) by {
            assert(total_of(rest, addressed) <= total_of(all, addressed));
        }
        assert forall|a: Seq<char>| #[trigger] count_of(rest, a) <= count_of(
            credits(raws, texts),
            a,
        ) by {
            assert(count_of(rest, a) <= count_of(all, a));
        }
    }
}

/// Whether the entries are what these outputs add up to, zero balances not yet left out.
spec fn is_tally(s: Seq<Entry>, c: Seq<Credit>) -> bool {
    &&& strictly_in_order(s)
    &&& forall|i: int|
        0 <= i < s.len() ==> {
            let e = #[trigger] s[i];
            e.balance == balance_of(c, e.address) && e.utxo_count == count_of(c, e.address)
        }
    &&& forall|a: Seq<char>|
        #[trigger] count_of(c, a) > 0 ==> exists|i: int|
            0 <= i < s.len() && (#[trigger] s[i]).address == a
}

/// Adds an output to the tally, unless its address has as many as can be counted.
fn add_credit(
    entries: &mut Vec<SnapshotEntry>,
    address: &String,
    amount: u64,
    c: Ghost<Seq<Credit>>,
) -> (r: bool)
    requires
        is_tally(entry_views(old(entries)@), c@),
        total_of(c@, true) + amount <= u64::MAX,
    ensures
        r == (count_of(c@, address@) < u32::MAX),
        r ==> is_tally(entry_views(final(entries)@), c@.push((Some(address@), amount as nat))),
{
    let ghost before = entry_views(entries@);
    let ghost after_c = c@.push((Some(address@), amount as nat));
    proof {
        lemma_strict_is_order(before);
        lemma_balance_bounded(c@, address@);
        assert(after_c.drop_last() =~= c@);
        assert(after_c.last() == (Some(address@), amount as nat));
    }
    let (found, at): (bool, usize) = locate(entries, address.as_str());
    if found {
        let old_entry: &SnapshotEntry = &entries[at];
        assert(before[at as int] == old_entry@);
        if old_entry.utxo_count == u32::MAX {
            return false;
        }
        let entry: SnapshotEntry = SnapshotEntry {
            address: old_entry.address.clone(),
            balance: old_entry.balance + amount,
            utxo_count: old_entry.utxo_count + 1,
        };
        entries.set(at, entry);
        proof {
            let s = entry_views(entries@);
            assert(s =~= before.update(at as int, entry@));
            assert forall|i: int, j: int| 0 <= i < j < s.len() implies bytes_before(
                #[trigger] address_key(s[i]),
                #[trigger] address_key(s[j]),
            ) by {
                assert(s[i].address == before[i].address);
                assert(s[j].address == before[j].address);
                assert(bytes_before(address_key(before[i]), address_key(before[j])));
            }
            assert forall|i: int| 0 <= i < s.len() implies {
                let e = #[trigger] s[i];
                e.balance == balance_of(after_c, e.address) && e.utxo_count == count_of(
                    after_c,
                    e.address,
                )
            } by {
                if i != at {
                    assert(s[i] == before[i]);
                    lemma_distinct(before, i, at as int);
                }
            }
            assert forall|a: Seq<char>| #[trigger] count_of(after_c, a) > 0 implies exists|i: int|
                0 <= i < s.len() && (#[trigger] s[i]).address == a by {
                if a == address@ {
                    assert(s[at as int].address == a);
                } else {
                    assert(count_of(c@, a) > 0);
                    let i = choose|i: int| 0 <= i < before.len() && before[i].address == a;
                    assert(s[i].address == a);
                }
            }
        }
    } else {
        proof {
            assert(count_of(c@, address@) == 0) by {
                if count_of(c@, address@) > 0 {
                    let i = choose|i: int| 0 <= i < before.len() && before[i].address == address@;
                    lemma_before_irreflexive(encode_utf8(address@));
                    assert(address_key(before[i]) == encode_utf8(address@));
                }
            }
            lemma_no_count_no_balance(c@, address@);
        }
        let entry: SnapshotEntry = SnapshotEntry {
            address: address.clone(),
            balance: amount,
            utxo_count: 1,
        };
        entries.insert(at, entry);
        proof {
            let s = entry_views(entries@);
            assert(s =~= before.insert(at as int, entry@));
            assert forall|i: int, j: int| 0 <= i < j < s.len() implies bytes_before(
                #[trigger] address_key(s[i]),
                #[trigger] address_key(s[j]),
            ) by {
                let x = if i < at {
                    i
                } else {
                    i - 1
                };
                let y = if j < at {
                    j
                } else {
                    j - 1
                };
                if i == at {
                    assert(s[j] == before[y]);
                    assert(bytes_before(encode_utf8(address@), address_key(before[y])));
                } else if j == at {
                    assert(s[i] == before[x]);
                    assert(bytes_before(address_key(before[x]), encode_utf8(address@)));
                } else {
                    assert(s[i] == before[x]);
                    assert(s[j] == before[y]);
                    assert(bytes_before(address_key(before[x]), address_key(before[y])));
                }
            }
            assert forall|i: int| 0 <= i < s.len() implies {
                let e = #[trigger] s[i];
                e.balance == balance_of(after_c, e.address) && e.utxo_count == count_of(
                    after_c,
                    e.address,
                )
            } by {
                if i != at {
                    let x = if i < at {
                        i
                    } else {
                        i - 1
                    };
                    assert(s[i] == before[x]);
                    lemma_before_irreflexive(encode_utf8(address@));
                    assert(bytes_before(address_key(before[x]), encode_utf8(address@))
                        || bytes_before(encode_utf8(address@), address_key(before[x])));
                }
            }
            assert forall|a: Seq<char>| #[trigger] count_of(after_c, a) > 0 implies exists|i: int|
                0 <= i < s.len() && (#[trigger] s[i]).address == a by {
                if a == address@ {
                    assert(s[at as int].address == a);
                } else {
                    assert(count_of(c@, a) > 0);
                    let x = choose|i: int| 0 <= i < before.len() && before[i].address == a;
                    let i = if x < at {
                        x
                    } else {
                        x + 1
                    };
                    assert(s[i] == before[x]);
                }
            }
        }
    }
    true
}

proof fn lemma_distinct(s: Seq<Entry>, i: int, j: int)
    requires
        strictly_in_order(s),
        0 <= i < s.len(),
        0 <= j < s.len(),
        i != j,
    ensures
        s[i].address != s[j].address,
{
    lemma_before_irreflexive(address_key(s[i]));
    if i < j {
        assert(bytes_before(address_key(s[i]), address_key(s[j])));
    } else {
        assert(bytes_before(address_key(s[j]), address_key(s[i])));
    }
}

proof fn lemma_no_count_no_balance(c: Seq<Credit>, a: Seq<char>)
    requires
        count_of(c, a) == 0,
    ensures
        balance_of(c, a) == 0,
    decreases c.len(),
{
    if c.len() > 0 {
        lemma_no_count_no_balance(c.drop_last(), a);
    }
}

/// An output without an address leaves the tally as it is.
proof fn lemma_unaddressed(s: Seq<Entry>, c: Seq<Credit>, amount: nat)
    requires
        is_tally(s, c),
    ensures
        is_tally(s, c.push((None, amount))),
{
    let d = c.push((None, amount));
    assert(d.drop_last() =~= c);
    assert forall|a: Seq<char>| #[trigger] count_of(d, a) == count_of(c, a) by {}
    assert forall|a: Seq<char>| #[trigger] balance_of(d, a) == balance_of(c, a) by {}
}

/// Leaves out the zero balances.
fn nonzero_entries(entries: &Vec<SnapshotEntry>, c: Ghost<Seq<Credit>>) -> (r: Vec<SnapshotEntry>)
    requires
        is_tally(entry_views(entries@), c@),
    ensures
        is_balance_sheet(entry_views(r@), c@),
        r@.len() <= entries@.len(),
{
    let ghost s = entry_views(entries@);
    let mut r: Vec<SnapshotEntry> = Vec::new();
    let mut i: usize = 0;
    while i < entries.len()
        invariant
            i <= entries@.len(),
            s == entry_views(entries@),
            is_tally(s, c@),
            r@.len() <= i,
            strictly_in_order(entry_views(r@)),
            forall|k: int|
                0 <= k < r@.len() ==> {
                    let e = #[trigger] entry_views(r@)[k];
                    e.balance > 0 && e.balance == balance_of(c@, e.address) && e.utxo_count
                        == count_of(c@, e.address)
                },
            forall|k: int, j: int|
                0 <= k < r@.len() && i <= j < s.len() ==> bytes_before(
                    #[trigger] address_key(entry_views(r@)[k]),
                    #[trigger] address_key(s[j]),
                ),
            forall|j: int|
                0 <= j < i && (#[trigger] s[j]).balance > 0 ==> exists|k: int|
                    0 <= k < r@.len() && (#[trigger] entry_views(r@)[k]).address == s[j].address,
        decreases entries@.len() - i,
    {
        let ghost kept = entry_views(r@);
        let e: &SnapshotEntry = &entries[i];
        assert(s[i as int] == e@);
        if e.balance > 0 {
            let copy: SnapshotEntry = SnapshotEntry {
                address: e.address.clone(),
                balance: e.balance,
                utxo_count: e.utxo_count,
            };
            r.push(copy);
            proof {
                let now = entry_views(r@);
                assert(now =~= kept.push(s[i as int]));
                assert forall|a: int, b: int| 0 <= a < b < now.len() implies bytes_before(
                    #[trigger] address_key(now[a]),
                    #[trigger] address_key(now[b]),
                ) by {
                    assert(now[a] == kept[a]);
                    if b < kept.len() {
                        assert(now[b] == kept[b]);
                        assert(bytes_before(address_key(kept[a]), address_key(kept[b])));
                    } else {
                        assert(bytes_before(address_key(kept[a]), address_key(s[i as int])));
                    }
                }
                assert forall|j: int| 0 <= j < i + 1 && (#[trigger] s[j]).balance > 0 implies exists|
                    k: int,
                |
                    0 <= k < r@.len() && (#[trigger] entry_views(r@)[k]).address == s[j].address by {
                    if j < i {
                        let k = choose|k: int|
                            0 <= k < kept.len() && (#[trigger] kept[k]).address == s[j].address;
                        assert(now[k] == kept[k]);
                    } else {
                        assert(now[kept.len() as int] == s[j]);
                    }
                }
                assert forall|k: int| 0 <= k < r@.len() implies {
                    let e = #[trigger] entry_views(r@)[k];
                    e.balance > 0 && e.balance == balance_of(c@, e.address) && e.utxo_count
                        == count_of(c@, e.address)
                } by {
                    if k < kept.len() {
                        assert(now[k] == kept[k]);
                    }
                }
                assert forall|k: int, j: int| 0 <= k < r@.len() && i + 1 <= j < s.len() implies bytes_before(
                    #[trigger] address_key(entry_views(r@)[k]),
                    #[trigger] address_key(s[j]),
                ) by {
                    if k < kept.len() {
                        assert(now[k] == kept[k]);
                        assert(bytes_before(address_key(kept[k]), address_key(s[j])));
                    } else {
                        assert(bytes_before(address_key(s[i as int]), address_key(s[j])));
                    }
                }
            }
        }
        i = i + 1;
    }
    proof {
        let t = entry_views(r@);
        assert forall|a: Seq<char>| #[trigger] balance_of(c@, a) > 0 implies exists|k: int|
            0 <= k < t.len() && (#[trigger] t[k]).address == a by {
            if count_of(c@, a) == 0 {
                lemma_no_count_no_balance(c@, a);
            }
            let j = choose|j: int| 0 <= j < s.len() && (#[trigger] s[j]).address == a;
            assert(s[j].balance > 0);
        }
    }
    r
}

/// What `build_snapshot_at` gives: the balances of the readable outputs, with totals and digest.
pub open spec fn is_snapshot_of(
    s: UtxoSnapshot,
    raws: Seq<RawUtxo>,
    texts: Seq<Option<String>>,
    height: u32,
    best: Seq<char>,
    now: u64,
) -> bool {
    let c = credits(raws, texts);
    let e = entry_views(s.entries@);
    &&& is_balance_sheet(e, c)
    &&& s.metadata@ == Metadata {
        snapshot_height: height,
        total_addresses: e.len() as u64,
        total_supply: supply(e) as u64,
        total_utxos: c.len() as u64,
        entries_hash: entries_digest(e),
        created_at: now,
        best_block_hash: best,
    }
    &&& supply(e) == total_of(c, true) <= u64::MAX
}

/// The balances of all addresses sum to what the outputs with an address do.
proof fn lemma_supply(s: Seq<Entry>, c: Seq<Credit>)
    requires
        strictly_in_order(s),
        forall|i: int|
            0 <= i < s.len() ==> (#[trigger] s[i]).balance as nat == balance_of(c, s[i].address),
        forall|a: Seq<char>|
            #[trigger] balance_of(c, a) > 0 ==> exists|i: int|
                0 <= i < s.len() && (#[trigger] s[i]).address == a,
    ensures
        supply(s) == total_of(c, true),
    decreases c.len(),
{
    if c.len() == 0 {
        lemma_supply_zero(s);
    } else {
        let d = c.drop_last();
        let (who, amount) = c.last();
        // Take the last output off the entry that it belongs to.
        if who is Some && amount > 0 {
            assert(balance_of(c, who->0) > 0);
            let k = choose|i: int| 0 <= i < s.len() && (#[trigger] s[i]).address == who->0;
            let b: u64 = (s[k].balance - amount) as u64;
            let t = s.update(k, Entry { balance: b, ..s[k] });
            assert forall|i: int, j: int| 0 <= i < j < t.len() implies bytes_before(
                #[trigger] address_key(t[i]),
                #[trigger] address_key(t[j]),
            ) by {
                assert(t[i].address == s[i].address);
                assert(t[j].address == s[j].address);
                assert(bytes_before(address_key(s[i]), address_key(s[j])));
            }
            assert forall|i: int| 0 <= i < t.len() implies (#[trigger] t[i]).balance as nat
                == balance_of(d, t[i].address) by {
                assert(s[i].balance as nat == balance_of(c, s[i].address));
                if i != k {
                    assert(t[i] == s[i]);
                    lemma_distinct(s, i, k);
                }
            }
            assert forall|a: Seq<char>| #[trigger] balance_of(d, a) > 0 implies exists|i: int|
                0 <= i < t.len() && (#[trigger] t[i]).address == a by {
                assert(balance_of(c, a) > 0);
                let i = choose|i: int| 0 <= i < s.len() && (#[trigger] s[i]).address == a;
                assert(t[i].address == a);
            }
            lemma_supply(t, d);
            lemma_supply_update(s, k, b);
        } else {
            assert forall|a: Seq<char>| #[trigger] balance_of(d, a) == balance_of(c, a) by {}
            lemma_supply(s, d);
        }
    }
}

proof fn lemma_supply_zero(s: Seq<Entry>)
    requires
        forall|i: int| 0 <= i < s.len() ==> (#[trigger] s[i]).balance == 0,
    ensures
        supply(s) == 0,
    decreases s.len(),
{
    if s.len() > 0 {
        lemma_supply_zero(s.drop_last());
    }
}

proof fn lemma_supply_update(s: Seq<Entry>, k: int, b: u64)
    requires
        0 <= k < s.len(),
    ensures
        supply(s.update(k, Entry { balance: b, ..s[k] })) == supply(s) - s[k].balance + b,
    decreases s.len(),
{
    let t = s.update(k, Entry { balance: b, ..s[k] });
    if k == s.len() - 1 {
        assert(t.drop_last() =~= s.drop_last());
    } else {
        lemma_supply_update(s.drop_last(), k, b);
        assert(t.drop_last() =~= s.drop_last().update(k, Entry { balance: b, ..s[k] }));
    }
}

proof fn lemma_supply_prefix(s: Seq<Entry>, i: int)
    requires
        0 <= i <= s.len(),
    ensures
        supply(s.take(i)) <= supply(s),
    decreases s.len() - i,
{
    if i < s.len() {
        lemma_supply_prefix(s, i + 1);
        assert(s.take(i + 1).drop_last() =~= s.take(i));
    } else {
        assert(s.take(i) =~= s);
    }
}

fn sum_balances(entries: &Vec<SnapshotEntry>) -> (r: u64)
    requires
        supply(entry_views(entries@)) <= u64::MAX,
    ensures
        r == supply(entry_views(entries@)),
{
    let ghost s = entry_views(entries@);
    let mut total: u64 = 0;
    let mut i: usize = 0;
    assert(s.take(0) =~= Seq::<Entry>::empty());
    while i < entries.len()
        invariant
            i <= entries@.len(),
            s == entry_views(entries@),
            supply(s) <= u64::MAX,
            total == supply(s.take(i as int)),
        decreases entries@.len() - i,
    {
        proof {
            assert(s.take(i + 1).drop_last() =~= s.take(i as int));
            assert(s.take(i + 1).last() == entries@[i as int]@);
            lemma_supply_prefix(s, i + 1);
        }
        total = total + entries[i].balance;
        i = i + 1;
    }
    assert(s.take(i as int) =~= s);
    total
}

/// Adds up the outputs by address, and counts those that are readable. There is no result where a
/// sum or a number is out of range.
fn tally_outputs(raw_utxos: &Vec<RawUtxo>, texts: &Vec<Option<String>>) -> (r: Option<
    (Vec<SnapshotEntry>, u64),
>)
    ensures
        r is Some == buildable(raw_utxos@, texts@),
        r matches Some((tally, parsed)) ==> is_tally(
            entry_views(tally@),
            credits(raw_utxos@, texts@),
        ) && parsed == credits(raw_utxos@, texts@).len(),
{
    if raw_utxos.len() != texts.len() {
        return None;
    }
    let mut tally: Vec<SnapshotEntry> = Vec::new();
    let mut parsed: u64 = 0;
    let mut addressed: u64 = 0;
    let mut unaddressed: u64 = 0;
    let mut i: usize = 0;
    assert(raw_utxos@.take(0) =~= Seq::<RawUtxo>::empty());
    assert(credits(raw_utxos@.take(0), texts@.take(0)) =~= Seq::<Credit>::empty());
    while i < raw_utxos.len()
        invariant
            i <= raw_utxos@.len() == texts@.len(),
            forall|k: int| 0 <= k < i ==> amount_in_range(#[trigger] raw_utxos@[k]),
            is_tally(
                entry_views(tally@),
                credits(raw_utxos@.take(i as int), texts@.take(i as int)),
            ),
            parsed == credits(raw_utxos@.take(i as int), texts@.take(i as int)).len(),
            addressed == total_of(
                credits(raw_utxos@.take(i as int), texts@.take(i as int)),
                true,
            ),
            unaddressed == total_of(
                credits(raw_utxos@.take(i as int), texts@.take(i as int)),
                false,
            ),
        decreases raw_utxos@.len() - i,
    {
        if !value_in_range(&raw_utxos[i]) {
            return None;
        }
        let ghost rest = credits(raw_utxos@.take(i as int), texts@.take(i as int));
        let ghost all = credits(raw_utxos@.take(i + 1), texts@.take(i + 1));
        proof {
            lemma_prefix(raw_utxos@, texts@, i + 1);
            lemma_credits_len(raw_utxos@.take(i as int), texts@.take(i as int));
            assert(raw_utxos@.take(i + 1).drop_last() =~= raw_utxos@.take(i as int));
            assert(texts@.take(i + 1).drop_last() =~= texts@.take(i as int));
        }
        match parse_utxo_value(&raw_utxos[i]) {
            Ok(p) => {
                assert(all.drop_last() =~= rest);
                match (&p.address, &texts[i]) {
                    (Some(_), Some(t)) => {
                        assert(all =~= rest.push((Some(t@), p.amount as nat)));
                        if p.amount > u64::MAX - addressed {
                            assert(total_of(all, true) > u64::MAX);
                            return None;
                        }
                        addressed = addressed + p.amount;
                        if !add_credit(&mut tally, t, p.amount, Ghost(rest)) {
                            assert(count_of(all, t@) > u32::MAX);
                            return None;
                        }
                    },
                    _ => {
                        assert(all =~= rest.push((None, p.amount as nat)));
                        if p.amount > u64::MAX - unaddressed {
                            assert(total_of(all, false) > u64::MAX);
                            return None;
                        }
                        unaddressed = unaddressed + p.amount;
                        proof {
                            lemma_unaddressed(entry_views(tally@), rest, p.amount as nat);
                        }
                    },
                }
                parsed = parsed + 1;
            },
            Err(_) => {},
        }
        i = i + 1;
    }
    proof {
        assert(raw_utxos@.take(i as int) =~= raw_utxos@);
        assert(texts@.take(i as int) =~= texts@);
        let c = credits(raw_utxos@, texts@);
        let s = entry_views(tally@);
        assert forall|a: Seq<char>| #[trigger] count_of(c, a) <= u32::MAX by {
            if count_of(c, a) > 0 {
                let k = choose|k: int| 0 <= k < s.len() && (#[trigger] s[k]).address == a;
                assert(s[k].utxo_count == count_of(c, a));
            }
        }
    }
    Some((tally, parsed))
}

/// Aggregates outputs into a snapshot, where their sums and numbers are within range. `texts`
/// holds the text of each output's address, where the output pays to one.
pub fn try_build_snapshot_at(
    raw_utxos: &Vec<RawUtxo>,
    texts: &Vec<Option<String>>,
    snapshot_height: u32,
    best_block_hash: &str,
    now: u64,
) -> (r: Option<UtxoSnapshot>)
    ensures
        r is Some == buildable(raw_utxos@, texts@),
        r matches Some(s) ==> is_snapshot_of(
            s,
            raw_utxos@,
            texts@,
            snapshot_height,
            best_block_hash@,
            now,
        ),
{
    match tally_outputs(raw_utxos, texts) {
        Some((tally, parsed)) => {
            let ghost c = credits(raw_utxos@, texts@);
            let entries: Vec<SnapshotEntry> = nonzero_entries(&tally, Ghost(c));
            proof {
                lemma_supply(entry_views(entries@), c);
            }
            let total_supply: u64 = sum_balances(&entries);
            let entries_hash: String = compute_entries_hash(&entries);
            Some(
                UtxoSnapshot {
                    metadata: SnapshotMetadata {
                        snapshot_height,
                        total_addresses: entries.len() as u64,
                        total_supply,
                        total_utxos: parsed,
                        entries_hash,
                        created_at: now,
                        best_block_hash: best_block_hash.to_owned(),
                    },
                    entries,
                },
            )
        },
        None => None,
    }
}

/// Aggregates outputs into a snapshot. `texts` holds the text of each output's address, where the
/// output pays to one.
pub fn build_snapshot_at(
    raw_utxos: &Vec<RawUtxo>,
    texts: &Vec<Option<String>>,
    snapshot_height: u32,
    best_block_hash: &str,
    now: u64,
) -> (r: UtxoSnapshot)
    requires
        buildable(raw_utxos@, texts@),
    ensures
        is_snapshot_of(r, raw_utxos@, texts@, snapshot_height, best_block_hash@, now),
{
    try_build_snapshot_at(raw_utxos, texts, snapshot_height, best_block_hash, now).unwrap()
}

/// Aggregates outputs into a snapshot that is dated by the system clock, where their sums and
/// numbers are within range.
pub fn try_build_snapshot(
    raw_utxos: &Vec<RawUtxo>,
    texts: &Vec<Option<String>>,
    snapshot_height: u32,
    best_block_hash: &str,
) -> (r: Option<UtxoSnapshot>)
    ensures
        r is Some == buildable(raw_utxos@, texts@),
        r matches Some(s) ==> is_snapshot_of(
            s,
            raw_utxos@,
            texts@,
            snapshot_height,
            best_block_hash@,
            s.metadata.created_at,
        ),
{
    let now: u64 = unix_seconds();
    try_build_snapshot_at(raw_utxos, texts, snapshot_height, best_block_hash, now)
}

/// Aggregates outputs into a snapshot that is dated by the system clock.
pub fn build_snapshot(
    raw_utxos: &Vec<RawUtxo>,
    texts: &Vec<Option<String>>,
    snapshot_height: u32,
    best_block_hash: &str,
) -> (r: UtxoSnapshot)
    requires
        buildable(raw_utxos@, texts@),
    ensures
        is_snapshot_of(
            r,
            raw_utxos@,
            texts@,
            snapshot_height,
            best_block_hash@,
            r.metadata.created_at,
        ),
{
    let now: u64 = unix_seconds();
    build_snapshot_at(raw_utxos, texts, snapshot_height, best_block_hash, now)
}

} // verus!
