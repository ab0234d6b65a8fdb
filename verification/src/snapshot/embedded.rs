//! The balance table that wallets carry with them.
//!
//! Twelve header bytes, magic, version and number of entries, then fixed-size entries in the order
//! of their addresses: the address, padded with zero bytes, and its balance.
use crate::bytes::bytes_order;
use crate::bytes::find_byte;
use crate::bytes::find_from;
use crate::bytes::le_value;
use crate::bytes::order_bytes;
use crate::bytes::read_u32_le;
use crate::bytes::read_u64_le;
use crate::bytes::Order;
use vstd::prelude::*;
use vstd::utf8::encode_utf8;

verus! {

/// The number of bytes before the entries.
pub const SNAPSHOT_HEADER_SIZE: usize = 12;

/// The number of bytes of an entry's address.
pub const ADDR_LEN: usize = 34;

/// The number of bytes of an entry.
pub const ENTRY_SIZE: usize = 42;

/// The bytes that the table starts with.
pub open spec fn table_magic() -> Seq<u8> {
    seq![0x56u8, 0x54u8, 0x52u8, 0x53u8]
}

/// The number of entries that the header announces.
pub open spec fn table_count(t: Seq<u8>) -> nat {
    le_value(t.subrange(8, 12))
}

/// Whether the table has a header and all the entries that it announces.
pub open spec fn table_complete(t: Seq<u8>) -> bool {
    &&& t.len() >= SNAPSHOT_HEADER_SIZE
    &&& t.take(4) == table_magic()
    &&& t.len() >= SNAPSHOT_HEADER_SIZE + table_count(t) * ENTRY_SIZE
}

/// The address of entry `i`, without its padding.
pub open spec fn table_address(t: Seq<u8>, i: int) -> Seq<u8> {
    let start = SNAPSHOT_HEADER_SIZE + i * ENTRY_SIZE;
    let field = t.subrange(start, start + ADDR_LEN);
    match find_from(field, 0, 0) {
        Some(n) => field.take(n),
        None => field,
    }
}

/// The balance of entry `i`.
pub open spec fn table_balance(t: Seq<u8>, i: int) -> nat {
    let start = SNAPSHOT_HEADER_SIZE + i * ENTRY_SIZE + ADDR_LEN;
    le_value(t.subrange(start, start + 8))
}

/// Halving the entries from `lo` up to `hi`: the balance of the entry met with this address.
pub open spec fn search(t: Seq<u8>, key: Seq<u8>, lo: int, hi: int) -> nat
    decreases hi - lo,
{
    if lo >= hi {
        0
    } else {
        let mid = lo + (hi - lo) / 2;
        match bytes_order(table_address(t, mid), key) {
            Order::Equal => table_balance(t, mid),
            Order::Less => search(t, key, mid + 1, hi),
            Order::Greater => search(t, key, lo, mid),
        }
    }
}

/// Whether the entries' addresses are in strict order.
pub open spec fn table_in_order(t: Seq<u8>) -> bool {
    forall|i: int, j: int|
        0 <= i < j < table_count(t) ==> bytes_order(
            #[trigger] table_address(t, i),
            #[trigger] table_address(t, j),
        ) == Order::Less
}

/// The balance that the table records for one address; addresses too long for an entry have none.
pub open spec fn recorded(t: Seq<u8>, key: Seq<u8>) -> nat {
    if key.len() > ADDR_LEN {
        0
    } else {
        search(t, key, 0, table_count(t) as int)
    }
}

/// Sums that stop at the largest 64-bit number.
pub open spec fn capped_sum(a: nat, b: nat) -> nat {
    if a + b > u64::MAX {
        u64::MAX as nat
    } else {
        a + b
    }
}

/// The sum of the balances of these addresses.
pub open spec fn recorded_total(t: Seq<u8>, addresses: Seq<String>) -> nat
    decreases addresses.len(),
{
    if addresses.len() == 0 {
        0
    } else {
        capped_sum(
            recorded_total(t, addresses.drop_last()),
            recorded(t, encode_utf8(addresses.last()@)),
        )
    }
}

fn search_table(table: &[u8], key: &[u8]) -> (r: u64)
    requires
        table_complete(table@),
    ensures
        r == search(table@, key@, 0, table_count(table@) as int),
{
    let ghost t = table@;
    let count: usize = read_u32_le(table, 8) as usize;
    let ghost target = search(t, key@, 0, count as int);
    let mut lo: usize = 0;
    let mut hi: usize = count;
    while lo < hi
        invariant
            lo <= hi <= count,
            t == table@,
            count == table_count(t),
            table_complete(t),
            target == search(t, key@, lo as int, hi as int),
            target == search(t, key@, 0, table_count(t) as int),
        decreases hi - lo,
    {
        let mid: usize = lo + (hi - lo) / 2;
        assert(table.len() == t.len());
        assert(SNAPSHOT_HEADER_SIZE + (mid + 1) * ENTRY_SIZE <= t.len());
        let start: usize = SNAPSHOT_HEADER_SIZE + mid * ENTRY_SIZE;
        let field: &[u8] = vstd::slice::slice_subrange(table, start, start + ADDR_LEN);
        let stored: &[u8] = match find_byte(field, 0, 0) {
            Some(n) => vstd::slice::slice_subrange(field, 0, n),
            None => field,
        };
        assert(stored@ =~= table_address(t, mid as int));
        match order_bytes(stored, key) {
            Order::Equal => {
                return read_u64_le(table, start + ADDR_LEN);
            },
            Order::Less => {
                lo = mid + 1;
            },
            Order::Greater => {
                hi = mid;
            },
        }
    }
    0
}

/// The sum of the balances that the table records for these addresses; zero where the table is
/// not complete.
pub fn lookup_snapshot_balances(table: &[u8], addresses: &Vec<String>) -> (r: u64)
    ensures
        r == if table_complete(table@) {
            recorded_total(table@, addresses@)
        } else {
            0
        },
{
    if table.len() < SNAPSHOT_HEADER_SIZE {
        return 0;
    }
    let started: bool = table[0] == 0x56 && table[1] == 0x54 && table[2] == 0x52 && table[3] == 0x53;
    proof {
        let h = table@.take(4);
        assert(h[0] == table@[0] && h[1] == table@[1] && h[2] == table@[2] && h[3] == table@[3]);
        assert(started ==> h =~= table_magic());
        assert(table_magic()[0] == 0x56 && table_magic()[1] == 0x54 && table_magic()[2] == 0x52
            && table_magic()[3] == 0x53);
    }
    if !started {
        return 0;
    }
    let count: u64 = read_u32_le(table, 8) as u64;
    if (table.len() as u64) < SNAPSHOT_HEADER_SIZE as u64 + count * ENTRY_SIZE as u64 {
        return 0;
    }
    let mut total: u64 = 0;
    let mut i: usize = 0;
    assert(addresses@.take(0) =~= Seq::<String>::empty());
    while i < addresses.len()
        invariant
            i <= addresses@.len(),
            table_complete(table@),
            total == recorded_total(table@, addresses@.take(i as int)),
        decreases addresses@.len() - i,
    {
        let key: &[u8] = addresses[i].as_str().as_bytes();
        let balance: u64 = if key.len() > ADDR_LEN {
            0
        } else {
            search_table(table, key)
        };
        total = total.saturating_add(balance);
        i = i + 1;
        proof {
            assert(addresses@.take(i as int).drop_last() =~= addresses@.take(i - 1));
        }
    }
    assert(addresses@.take(i as int) =~= addresses@);
    total
}

proof fn lemma_search_finds(t: Seq<u8>, key: Seq<u8>, lo: int, hi: int, i: int)
    requires
        table_in_order(t),
        0 <= lo <= i < hi <= table_count(t),
        table_address(t, i) == key,
    ensures
        search(t, key, lo, hi) == table_balance(t, i),
    decreases hi - lo,
{
    let mid = lo + (hi - lo) / 2;
    crate::bytes::lemma_before_irreflexive(key);
    if mid < i {
        assert(bytes_order(table_address(t, mid), table_address(t, i)) == Order::Less);
        lemma_search_finds(t, key, mid + 1, hi, i);
    } else if mid > i {
        assert(bytes_order(table_address(t, i), table_address(t, mid)) == Order::Less);
        if crate::bytes::bytes_before(table_address(t, mid), key) {
            crate::bytes::lemma_before_transitive(table_address(t, mid), key, table_address(t, mid));
            crate::bytes::lemma_before_irreflexive(table_address(t, mid));
        }
        lemma_search_finds(t, key, lo, mid, i);
    }
}

proof fn lemma_search_misses(t: Seq<u8>, key: Seq<u8>, lo: int, hi: int)
    requires
        forall|i: int| lo <= i < hi ==> #[trigger] table_address(t, i) != key,
    ensures
        search(t, key, lo, hi) == 0,
    decreases hi - lo,
{
    if lo < hi {
        let mid = lo + (hi - lo) / 2;
        assert(table_address(t, mid) != key);
        lemma_search_misses(t, key, mid + 1, hi);
        lemma_search_misses(t, key, lo, mid);
    }
}

/// In a table whose addresses are in order, every entry's balance is found under its address, and
/// an address without an entry has none.
pub proof fn law_table_lookup(t: Seq<u8>, key: Seq<u8>)
    requires
        table_in_order(t),
        key.len() <= ADDR_LEN,
    ensures
        forall|i: int|
            0 <= i < table_count(t) && #[trigger] table_address(t, i) == key ==> recorded(t, key)
                == table_balance(t, i),
        (forall|i: int| 0 <= i < table_count(t) ==> #[trigger] table_address(t, i) != key)
            ==> recorded(t, key) == 0,
{
    assert forall|i: int| 0 <= i < table_count(t) && #[trigger] table_address(t, i) == key implies recorded(
        t,
        key,
    ) == table_balance(t, i) by {
        lemma_search_finds(t, key, 0, table_count(t) as int, i);
    }
    if forall|i: int| 0 <= i < table_count(t) ==> #[trigger] table_address(t, i) != key {
        lemma_search_misses(t, key, 0, table_count(t) as int);
    }
}

} // verus!
