//! The entries of a snapshot by their balances.
use crate::snapshot::utxo_set::entry_views;
use crate::snapshot::utxo_set::Entry;
use crate::snapshot::utxo_set::SnapshotEntry;
use vstd::prelude::*;

verus! {

/// Whether the entry at `i` ranks above that at `j`: its balance is greater, or it is as great and
/// the entry comes earlier.
pub open spec fn ranks_above(s: Seq<Entry>, i: int, j: int) -> bool {
    s[i].balance > s[j].balance || (s[i].balance == s[j].balance && i < j)
}

/// Whether `order` holds the places of the first `n` entries, each once, from the greatest balance
/// to the least, and for equal balances from the earliest entry to the latest.
pub open spec fn is_ranking(order: Seq<int>, s: Seq<Entry>, n: nat) -> bool {
    &&& order.len() == n
    &&& forall|a: int| 0 <= a < n ==> 0 <= #[trigger] order[a] < n
    &&& forall|a: int, b: int|
        0 <= a < b < n ==> ranks_above(s, #[trigger] order[a], #[trigger] order[b])
}

/// The entries at these places.
pub open spec fn entries_at(s: Seq<Entry>, places: Seq<int>) -> Seq<Entry> {
    Seq::new(places.len(), |a: int| s[places[a]])
}

/// The lesser of two numbers.
pub open spec fn at_most(a: nat, b: nat) -> nat {
    if a <= b {
        a
    } else {
        b
    }
}

/// Where an entry with this balance comes in a ranking that it follows: the entries before its
/// rank have as much or more, those after it have less.
proof fn lemma_rank(order: Seq<int>, s: Seq<Entry>, n: nat, balance: u64, from: int) -> (q: int)
    requires
        is_ranking(order, s, n),
        0 <= from <= n,
        forall|a: int| 0 <= a < from ==> s[#[trigger] order[a]].balance >= balance,
    ensures
        from <= q <= n,
        forall|a: int| 0 <= a < q ==> s[#[trigger] order[a]].balance >= balance,
        forall|a: int| q <= a < n ==> s[#[trigger] order[a]].balance < balance,
    decreases n - from,
{
    if from == n || s[order[from]].balance < balance {
        assert forall|a: int| from <= a < n implies s[#[trigger] order[a]].balance < balance by {
            if a > from {
                assert(ranks_above(s, order[from], order[a]));
            }
        }
        from
    } else {
        lemma_rank(order, s, n, balance, from + 1)
    }
}

/// A ranking of one entry more.
proof fn lemma_rank_one_more(order: Seq<int>, s: Seq<Entry>, n: nat, q: int)
    requires
        is_ranking(order, s, n),
        n < s.len(),
        0 <= q <= n,
        forall|a: int| 0 <= a < q ==> s[#[trigger] order[a]].balance >= s[n as int].balance,
        forall|a: int| q <= a < n ==> s[#[trigger] order[a]].balance < s[n as int].balance,
    ensures
        is_ranking(order.insert(q, n as int), s, n + 1),
{
    let t = order.insert(q, n as int);
    assert forall|a: int| 0 <= a < n + 1 implies 0 <= #[trigger] t[a] < n + 1 by {
        if a < q {
            assert(t[a] == order[a]);
        } else if a > q {
            assert(t[a] == order[a - 1]);
        }
    }
    assert forall|a: int, b: int| 0 <= a < b < n + 1 implies ranks_above(
        s,
        #[trigger] t[a],
        #[trigger] t[b],
    ) by {
        if b < q {
            assert(t[a] == order[a] && t[b] == order[b]);
        } else if b == q {
            assert(t[a] == order[a]);
        } else {
            assert(t[b] == order[b - 1]);
            if a < q {
                assert(t[a] == order[a]);
            } else if a > q {
                assert(t[a] == order[a - 1]);
            }
        }
    }
}

/// The place in a list of ranked entries behind those with at least this balance.
fn rank_of(entries: &[SnapshotEntry], ranked: &Vec<usize>, balance: u64) -> (r: usize)
    requires
        forall|a: int| 0 <= a < ranked@.len() ==> #[trigger] ranked@[a] < entries@.len(),
    ensures
        r <= ranked@.len(),
        forall|a: int|
            0 <= a < r ==> entries@[#[trigger] ranked@[a] as int].balance >= balance,
        r < ranked@.len() ==> entries@[ranked@[r as int] as int].balance < balance,
{
    let mut r: usize = 0;
    while r < ranked.len()
        invariant
            r <= ranked@.len(),
            forall|a: int| 0 <= a < ranked@.len() ==> #[trigger] ranked@[a] < entries@.len(),
            forall|a: int|
                0 <= a < r ==> entries@[#[trigger] ranked@[a] as int].balance >= balance,
        decreases ranked@.len() - r,
    {
        if entries[ranked[r]].balance < balance {
            return r;
        }
        r = r + 1;
    }
    r
}

/// The places of the `n` entries with the greatest balances, in descending order.
fn top_places(entries: &[SnapshotEntry], n: usize) -> (r: Vec<usize>)
    ensures
        exists|order: Seq<int>| #[trigger]
            is_ranking(order, entry_views(entries@), entries@.len()) && r@.map_values(
                |p: usize| p as int,
            ) =~= order.take(at_most(n as nat, entries@.len()) as int),
{
    let ghost s = entry_views(entries@);
    let ghost mut order: Seq<int> = Seq::empty();
    let mut ranked: Vec<usize> = Vec::new();
    let mut i: usize = 0;
    while i < entries.len()
        invariant
            i <= entries@.len(),
            s == entry_views(entries@),
            is_ranking(order, s, i as nat),
            ranked@.len() == at_most(n as nat, i as nat),
            forall|a: int| 0 <= a < ranked@.len() ==> #[trigger] ranked@[a] as int == order[a],
        decreases entries@.len() - i,
    {
        let balance: u64 = entries[i].balance;
        let ghost before = ranked@;
        assert forall|a: int| 0 <= a < ranked@.len() implies #[trigger] ranked@[a]
            < entries@.len() by {
            assert(order[a] < i);
        }
        let at: usize = rank_of(entries, &ranked, balance);
        proof {
            assert forall|a: int| 0 <= a < at implies s[#[trigger] order[a]].balance >= balance by {
                assert(before[a] as int == order[a]);
            }
            let q = lemma_rank(order, s, i as nat, balance, at as int);
            if at < before.len() {
                assert(before[at as int] as int == order[at as int]);
                assert(q == at);
            }
            lemma_rank_one_more(order, s, i as nat, q);
            order = order.insert(q, i as int);
        }
        if at < n {
            ranked.insert(at, i);
            if ranked.len() > n {
                let _ = ranked.pop();
            }
        }
        i = i + 1;
    }
    assert(ranked@.map_values(|p: usize| p as int) =~= order.take(
        at_most(n as nat, entries@.len()) as int,
    ));
    ranked
}

/// The `n` entries with the greatest balances, or all where there are fewer, in descending order.
/// Entries with equal balances stay in the order in which they come.
pub fn top_entries(entries: &[SnapshotEntry], n: usize) -> (r: Vec<SnapshotEntry>)
    ensures
        exists|order: Seq<int>| #[trigger]
            is_ranking(order, entry_views(entries@), entries@.len()) && entry_views(r@)
                =~= entries_at(
                entry_views(entries@),
                order.take(at_most(n as nat, entries@.len()) as int),
            ),
{
    let ghost s = entry_views(entries@);
    let places: Vec<usize> = top_places(entries, n);
    let ghost order = choose|order: Seq<int>| #[trigger]
        is_ranking(order, s, entries@.len()) && places@.map_values(|p: usize| p as int)
            =~= order.take(at_most(n as nat, entries@.len()) as int);
    let ghost top = order.take(at_most(n as nat, entries@.len()) as int);
    let mut r: Vec<SnapshotEntry> = Vec::new();
    let mut k: usize = 0;
    while k < places.len()
        invariant
            k <= places@.len(),
            s == entry_views(entries@),
            places@.len() == top.len(),
            forall|a: int|
                0 <= a < top.len() ==> #[trigger] places@[a] as int == top[a] && top[a] < s.len(),
            entry_views(r@) == entries_at(s, top.take(k as int)),
        decreases places@.len() - k,
    {
        assert(places@[k as int] as int == top[k as int]);
        let e: &SnapshotEntry = &entries[places[k]];
        let copy: SnapshotEntry = SnapshotEntry {
            address: e.address.clone(),
            balance: e.balance,
            utxo_count: e.utxo_count,
        };
        let ghost before = r@;
        r.push(copy);
        assert(copy@ == s[top[k as int]]);
        assert(entry_views(r@) =~= entry_views(before).push(copy@));
        assert(entries_at(s, top.take(k + 1)) =~= entries_at(s, top.take(k as int)).push(
            s[top[k as int]],
        ));
        k = k + 1;
    }
    assert(top.take(k as int) =~= top);
    r
}

/// An entry that is not among the first `k` of a ranking ranks below each of these: none that is
/// left out has a greater balance.
pub proof fn law_top_entries_are_the_greatest(order: Seq<int>, s: Seq<Entry>, k: nat, a: int, i: int)
    requires
        is_ranking(order, s, s.len()),
        0 <= a < k <= s.len(),
        0 <= i < s.len(),
        !order.take(k as int).contains(i),
    ensures
        ranks_above(s, order[a], i),
{
    let n = s.len() as int;
    assert(order.no_duplicates()) by {
        assert forall|x: int, y: int| 0 <= x < y < n implies order[x] != order[y] by {
            assert(ranks_above(s, order[x], order[y]));
        }
    }
    order.unique_seq_to_set();
    vstd::set_lib::lemma_int_range(0, n);
    let all = vstd::set_lib::set_int_range(0, n);
    assert(order.to_set().subset_of(all));
    if !order.contains(i) {
        order.to_set().lemma_subset_not_in_lt(all, i);
    }
    let b = choose|b: int| 0 <= b < order.len() && order[b] == i;
    if b < k {
        assert(order.take(k as int)[b] == i);
    }
    assert(ranks_above(s, order[a], order[b]));
}

} // verus!
