//! Bandwidth accounting: what peers earn and owe for the bytes they exchange.
use crate::torrent::double::coins_text;
use crate::torrent::double::format_bytes;
use crate::torrent::double::format_coins;
use crate::torrent::double::round_double;
use crate::torrent::double::rounded;
use crate::torrent::double::size_text;
use vstd::prelude::*;

verus! {

/// Bytes exchanged that trigger a payment: ten mebibytes.
pub const MIN_PAYMENT_BYTES: u64 = 10 * 1024 * 1024;

/// Seconds after which a payment is due whatever was exchanged.
pub const PAYMENT_INTERVAL_SECS: u64 = 300;

/// Smallest units in one coin.
pub const COIN: u64 = 1_000_000;

/// Bandwidth exchanged with one peer.
#[derive(Debug, Clone)]
pub struct PeerBandwidthAccount {
    /// Where the peer is paid.
    pub peer_address: String,
    /// Bytes uploaded to the peer since the last settlement.
    pub bytes_uploaded: u64,
    /// Bytes downloaded from the peer since the last settlement.
    pub bytes_downloaded: u64,
    /// Smallest units earned from the peer.
    pub total_earned_satoshis: u64,
    /// Smallest units paid to the peer.
    pub total_paid_satoshis: u64,
    /// When the account was last settled.
    pub last_settlement: u64,
    /// Whether the peer takes part in the incentive scheme.
    pub incentive_enabled: bool,
    /// When bytes were last exchanged.
    pub last_active: u64,
}

/// What a [`PeerBandwidthAccount`] says.
pub ghost struct Account {
    pub peer_address: Seq<char>,
    pub bytes_uploaded: u64,
    pub bytes_downloaded: u64,
    pub total_earned_satoshis: u64,
    pub total_paid_satoshis: u64,
    pub last_settlement: u64,
    pub incentive_enabled: bool,
    pub last_active: u64,
}

impl View for PeerBandwidthAccount {
    type V = Account;

    open spec fn view(&self) -> Account {
        Account {
            peer_address: self.peer_address@,
            bytes_uploaded: self.bytes_uploaded,
            bytes_downloaded: self.bytes_downloaded,
            total_earned_satoshis: self.total_earned_satoshis,
            total_paid_satoshis: self.total_paid_satoshis,
            last_settlement: self.last_settlement,
            incentive_enabled: self.incentive_enabled,
            last_active: self.last_active,
        }
    }
}

/// A count that stops at the largest `u64`.
pub open spec fn clipped(n: nat) -> u64 {
    if n <= u64::MAX {
        n as u64
    } else {
        u64::MAX
    }
}

/// An account with nothing on it.
pub open spec fn fresh_account(address: Seq<char>) -> Account {
    Account {
        peer_address: address,
        bytes_uploaded: 0,
        bytes_downloaded: 0,
        total_earned_satoshis: 0,
        total_paid_satoshis: 0,
        last_settlement: 0,
        incentive_enabled: true,
        last_active: 0,
    }
}

/// Millionths of a number of gibibytes, as arithmetic on doubles gives them.
pub open spec fn millionths_of_gib(bytes: nat, gib: nat) -> nat {
    rounded(rounded(bytes) * 1_000_000) / gib
}

/// One coin per gibibyte uploaded.
pub open spec fn earned(a: Account) -> nat {
    millionths_of_gib(a.bytes_uploaded as nat, 0x4000_0000)
}

/// Half a coin per gibibyte downloaded, nothing outside the scheme.
pub open spec fn owed(a: Account) -> nat {
    if a.incentive_enabled {
        millionths_of_gib(a.bytes_downloaded as nat, 0x8000_0000)
    } else {
        0
    }
}

/// The account after a settlement at `now`.
pub open spec fn settled(a: Account, now: u64) -> Account {
    Account {
        total_earned_satoshis: clipped(a.total_earned_satoshis as nat + earned(a)),
        total_paid_satoshis: clipped(a.total_paid_satoshis as nat + owed(a)),
        bytes_uploaded: 0,
        bytes_downloaded: 0,
        last_settlement: now,
        ..a
    }
}

/// Whether the interval has passed or enough bytes were exchanged.
pub open spec fn settlement_due(a: Account, now: u64) -> bool {
    now >= a.last_settlement + PAYMENT_INTERVAL_SECS || a.bytes_uploaded + a.bytes_downloaded
        >= MIN_PAYMENT_BYTES
}

fn price(bytes: u64, gib: u128) -> (r: u64)
    requires
        gib == 0x4000_0000 || gib == 0x8000_0000,
    ensures
        r == millionths_of_gib(bytes as nat, gib as nat),
{
    let a: u128 = round_double(bytes as u128);
    let b: u128 = round_double(a * 1_000_000);
    (b / gib) as u64
}

impl PeerBandwidthAccount {
    /// An account with nothing on it.
    pub fn new(peer_address: String) -> (r: Self)
        ensures
            r@ == fresh_account(peer_address@),
    {
        PeerBandwidthAccount {
            peer_address,
            bytes_uploaded: 0,
            bytes_downloaded: 0,
            total_earned_satoshis: 0,
            total_paid_satoshis: 0,
            last_settlement: 0,
            incentive_enabled: true,
            last_active: 0,
        }
    }

    /// Counts bytes uploaded to the peer.
    pub fn record_upload(&mut self, bytes: u64)
        ensures
            final(self)@ == (Account {
                bytes_uploaded: clipped((old(self)@.bytes_uploaded + bytes) as nat),
                ..old(self)@
            }),
    {
        self.bytes_uploaded = self.bytes_uploaded.saturating_add(bytes);
    }

    /// Counts bytes downloaded from the peer.
    pub fn record_download(&mut self, bytes: u64)
        ensures
            final(self)@ == (Account {
                bytes_downloaded: clipped((old(self)@.bytes_downloaded + bytes) as nat),
                ..old(self)@
            }),
    {
        self.bytes_downloaded = self.bytes_downloaded.saturating_add(bytes);
    }

    /// Notes that bytes were exchanged at `now`.
    pub fn touch(&mut self, now: u64)
        ensures
            final(self)@ == (Account { last_active: now, ..old(self)@ }),
    {
        self.last_active = now;
    }

    /// What the peer owes for the bytes uploaded to it, in smallest units.
    pub fn calculate_earned(&self) -> (r: u64)
        ensures
            r == earned(self@),
    {
        price(self.bytes_uploaded, 0x4000_0000)
    }

    /// What is owed to the peer for the bytes downloaded from it, in smallest units.
    pub fn calculate_owed(&self) -> (r: u64)
        ensures
            r == owed(self@),
    {
        if !self.incentive_enabled {
            return 0;
        }
        price(self.bytes_downloaded, 0x8000_0000)
    }

    /// Whether the account is to be settled at `current_timestamp`.
    pub fn needs_settlement(&self, current_timestamp: u64) -> (r: bool)
        ensures
            r == settlement_due(self@, current_timestamp),
    {
        let time_elapsed: u64 = current_timestamp.saturating_sub(self.last_settlement);
        let bytes_total: u64 = self.bytes_uploaded.saturating_add(self.bytes_downloaded);
        time_elapsed >= PAYMENT_INTERVAL_SECS || bytes_total >= MIN_PAYMENT_BYTES
    }

    /// Settles the account and returns what was earned and owed since the last settlement.
    pub fn settle(&mut self, current_timestamp: u64) -> (r: (u64, u64))
        ensures
            final(self)@ == settled(old(self)@, current_timestamp),
            r.0 == earned(old(self)@),
            r.1 == owed(old(self)@),
    {
        let earned: u64 = self.calculate_earned();
        let owed: u64 = self.calculate_owed();
        self.total_earned_satoshis = self.total_earned_satoshis.saturating_add(earned);
        self.total_paid_satoshis = self.total_paid_satoshis.saturating_add(owed);
        self.bytes_uploaded = 0;
        self.bytes_downloaded = 0;
        self.last_settlement = current_timestamp;
        (earned, owed)
    }
}

/// What all peers of a session earned and were paid.
#[derive(Debug, Clone)]
pub struct IncentiveSummary {
    /// Smallest units earned.
    pub total_earned_satoshis: u64,
    /// Smallest units paid.
    pub total_paid_satoshis: u64,
    /// Bytes uploaded.
    pub total_bytes_uploaded: u64,
    /// Bytes downloaded.
    pub total_bytes_downloaded: u64,
    /// Peers that take part in the incentive scheme.
    pub incentive_peer_count: usize,
}

impl IncentiveSummary {
    /// The coins earned, for people to read.
    pub fn earned_vtr_display(&self) -> (r: String)
        ensures
            r@ == coins_text(self.total_earned_satoshis as nat, COIN as nat),
    {
        format_coins(self.total_earned_satoshis, COIN)
    }

    /// The coins paid, for people to read.
    pub fn paid_vtr_display(&self) -> (r: String)
        ensures
            r@ == coins_text(self.total_paid_satoshis as nat, COIN as nat),
    {
        format_coins(self.total_paid_satoshis, COIN)
    }

    /// The bytes uploaded, for people to read.
    pub fn uploaded_display(&self) -> (r: String)
        ensures
            r@ == size_text(self.total_bytes_uploaded as nat),
    {
        format_bytes(self.total_bytes_uploaded)
    }

    /// The bytes downloaded, for people to read.
    pub fn downloaded_display(&self) -> (r: String)
        ensures
            r@ == size_text(self.total_bytes_downloaded as nat),
    {
        format_bytes(self.total_bytes_downloaded)
    }
}

/// The sum of counts.
pub open spec fn total(s: Seq<u64>) -> nat
    decreases s.len(),
{
    if s.len() == 0 {
        0
    } else {
        total(s.drop_last()) + s.last() as nat
    }
}

/// The accounts as they read.
pub open spec fn accounts_of(accounts: Seq<PeerBandwidthAccount>) -> Seq<Account> {
    accounts.map_values(|a: PeerBandwidthAccount| a@)
}

/// What `accounts` add up to.
pub open spec fn summary_of(accounts: Seq<Account>) -> IncentiveSummary {
    IncentiveSummary {
        total_earned_satoshis: clipped(
            total(accounts.map_values(|a: Account| a.total_earned_satoshis)),
        ),
        total_paid_satoshis: clipped(
            total(accounts.map_values(|a: Account| a.total_paid_satoshis)),
        ),
        total_bytes_uploaded: clipped(total(accounts.map_values(|a: Account| a.bytes_uploaded))),
        total_bytes_downloaded: clipped(
            total(accounts.map_values(|a: Account| a.bytes_downloaded)),
        ),
        incentive_peer_count: accounts.filter(
            |a: Account| a.incentive_enabled,
        ).len() as usize,
    }
}

proof fn lemma_total_push(s: Seq<Account>, a: Account, f: spec_fn(Account) -> u64)
    ensures
        total(s.push(a).map_values(f)) == total(s.map_values(f)) + f(a) as nat,
{
    assert(s.push(a).map_values(f).drop_last() =~= s.map_values(f));
}

proof fn lemma_summary_push(s: Seq<Account>, a: Account)
    requires
        s.len() < usize::MAX,
    ensures
        ({
            let before = summary_of(s);
            let after = summary_of(s.push(a));
            &&& after.total_earned_satoshis == clipped(
                (before.total_earned_satoshis + a.total_earned_satoshis) as nat,
            )
            &&& after.total_paid_satoshis == clipped(
                (before.total_paid_satoshis + a.total_paid_satoshis) as nat,
            )
            &&& after.total_bytes_uploaded == clipped(
                (before.total_bytes_uploaded + a.bytes_uploaded) as nat,
            )
            &&& after.total_bytes_downloaded == clipped(
                (before.total_bytes_downloaded + a.bytes_downloaded) as nat,
            )
            &&& after.incentive_peer_count == before.incentive_peer_count + (
            if a.incentive_enabled {
                1int
            } else {
                0int
            })
            &&& before.incentive_peer_count <= s.len()
        }),
{
    lemma_total_push(s, a, |a: Account| a.total_earned_satoshis);
    lemma_total_push(s, a, |a: Account| a.total_paid_satoshis);
    lemma_total_push(s, a, |a: Account| a.bytes_uploaded);
    lemma_total_push(s, a, |a: Account| a.bytes_downloaded);
    let keep = |a: Account| a.incentive_enabled;
    reveal(Seq::filter);
    assert(s.push(a).drop_last() =~= s);
    lemma_filter_len(s, keep);
}

proof fn lemma_filter_len(s: Seq<Account>, keep: spec_fn(Account) -> bool)
    ensures
        s.filter(keep).len() <= s.len(),
    decreases s.len(),
{
    reveal(Seq::filter);
    if s.len() > 0 {
        lemma_filter_len(s.drop_last(), keep);
    }
}

/// Adds up what the accounts say.
pub fn aggregate_summary(accounts: &[PeerBandwidthAccount]) -> (r: IncentiveSummary)
    ensures
        r == summary_of(accounts_of(accounts@)),
{
    let mut summary: IncentiveSummary = IncentiveSummary {
        total_earned_satoshis: 0,
        total_paid_satoshis: 0,
        total_bytes_uploaded: 0,
        total_bytes_downloaded: 0,
        incentive_peer_count: 0,
    };
    let ghost all = accounts_of(accounts@);
    proof {
        assert(all.take(0) =~= Seq::empty());
        reveal(Seq::filter);
        assert(summary == summary_of(all.take(0)));
    }
    let mut i: usize = 0;
    while i < accounts.len()
        invariant
            i <= accounts.len(),
            all == accounts_of(accounts@),
            summary == summary_of(all.take(i as int)),
        decreases accounts.len() - i,
    {
        let account = &accounts[i];
        assert(i < accounts.len());
        proof {
            lemma_summary_push(all.take(i as int), account@);
            assert(all.take(i + 1) =~= all.take(i as int).push(account@));
        }
        summary.total_earned_satoshis =
        summary.total_earned_satoshis.saturating_add(account.total_earned_satoshis);
        summary.total_paid_satoshis =
        summary.total_paid_satoshis.saturating_add(account.total_paid_satoshis);
        summary.total_bytes_uploaded =
        summary.total_bytes_uploaded.saturating_add(account.bytes_uploaded);
        summary.total_bytes_downloaded =
        summary.total_bytes_downloaded.saturating_add(account.bytes_downloaded);
        if account.incentive_enabled {
            summary.incentive_peer_count = summary.incentive_peer_count + 1;
        }
        i = i + 1;
    }
    assert(all.take(all.len() as int) =~= all);
    summary
}

proof fn lemma_total_remove(s: Seq<Account>, i: int, f: spec_fn(Account) -> u64)
    requires
        0 <= i < s.len(),
    ensures
        total(s.map_values(f)) == total(s.remove(i).map_values(f)) + f(s[i]) as nat,
    decreases s.len(),
{
    let t = s.drop_last();
    assert(s =~= t.push(s.last()));
    lemma_total_push(t, s.last(), f);
    if i < s.len() - 1 {
        lemma_total_remove(t, i, f);
        assert(s.remove(i) =~= t.remove(i).push(s.last()));
        lemma_total_push(t.remove(i), s.last(), f);
    } else {
        assert(s.remove(i) =~= t);
    }
}

proof fn lemma_total_order(s: Seq<Account>, t: Seq<Account>, f: spec_fn(Account) -> u64)
    requires
        s.to_multiset() == t.to_multiset(),
    ensures
        total(s.map_values(f)) == total(t.map_values(f)),
    decreases s.len(),
{
    broadcast use vstd::seq_lib::group_to_multiset_ensures;

    assert(s.len() == s.to_multiset().len() && t.len() == t.to_multiset().len());
    if s.len() > 0 {
        let a = s.last();
        assert(s.contains(a)) by {
            assert(s[s.len() - 1] == a);
        }
        assert(s.to_multiset().count(a) > 0);
        assert(t.contains(a));
        let i = choose|i: int| 0 <= i < t.len() && t[i] == a;
        let n = s.len() - 1;
        assert(s.remove(n).to_multiset() =~= t.remove(i).to_multiset());
        lemma_total_order(s.remove(n), t.remove(i), f);
        lemma_total_remove(s, n, f);
        lemma_total_remove(t, i, f);
    } else {
        assert(s.map_values(f) =~= t.map_values(f));
    }
}

/// How many are kept, as a sum.
proof fn lemma_filter_total(s: Seq<Account>, keep: spec_fn(Account) -> bool)
    ensures
        s.filter(keep).len() == total(
            s.map_values(
                |a: Account|
                    if keep(a) {
                        1u64
                    } else {
                        0u64
                    },
            ),
        ),
    decreases s.len(),
{
    reveal(Seq::filter);
    let one = |a: Account|
        if keep(a) {
            1u64
        } else {
            0u64
        };
    if s.len() > 0 {
        lemma_filter_total(s.drop_last(), keep);
        assert(s =~= s.drop_last().push(s.last()));
        lemma_total_push(s.drop_last(), s.last(), one);
    } else {
        assert(s.map_values(one) =~= Seq::<u64>::empty());
    }
}

/// The order of the accounts makes no difference to what they add up to.
pub proof fn law_account_order_is_free(s: Seq<Account>, t: Seq<Account>)
    requires
        s.to_multiset() == t.to_multiset(),
    ensures
        summary_of(s) == summary_of(t),
{
    lemma_total_order(s, t, |a: Account| a.total_earned_satoshis);
    lemma_total_order(s, t, |a: Account| a.total_paid_satoshis);
    lemma_total_order(s, t, |a: Account| a.bytes_uploaded);
    lemma_total_order(s, t, |a: Account| a.bytes_downloaded);
    let keep = |a: Account| a.incentive_enabled;
    lemma_filter_total(s, keep);
    lemma_filter_total(t, keep);
    lemma_total_order(
        s,
        t,
        |a: Account|
            if keep(a) {
                1u64
            } else {
                0u64
            },
    );
}

/// A settlement clears what was earned and owed: settling again at once pays nothing.
pub proof fn law_settling_twice_pays_once(a: Account, now: u64)
    ensures
        earned(settled(a, now)) == 0,
        owed(settled(a, now)) == 0,
        settled(settled(a, now), now) == settled(a, now),
        !settlement_due(settled(a, now), now),
{
    reveal_with_fuel(crate::torrent::double::excess_digits, 2);
    vstd::arithmetic::power2::lemma2_to64();
    assert(crate::torrent::double::excess_digits(0) == 0);
    assert(crate::torrent::double::nearest(0, 1) == 0);
    assert(rounded(0) == 0);
    assert(rounded(0) * 1_000_000 == 0);
    assert(earned(settled(a, now)) == 0);
}

/// One more account adds what it holds to each sum, and counts where it takes part.
pub proof fn law_summaries_add_up(s: Seq<Account>, a: Account)
    requires
        s.len() < usize::MAX,
        summary_of(s).total_earned_satoshis + a.total_earned_satoshis <= u64::MAX,
        summary_of(s).total_paid_satoshis + a.total_paid_satoshis <= u64::MAX,
        summary_of(s).total_bytes_uploaded + a.bytes_uploaded <= u64::MAX,
        summary_of(s).total_bytes_downloaded + a.bytes_downloaded <= u64::MAX,
    ensures
        ({
            let before = summary_of(s);
            let after = summary_of(s.push(a));
            &&& after.total_earned_satoshis == before.total_earned_satoshis + a.total_earned_satoshis
            &&& after.total_paid_satoshis == before.total_paid_satoshis + a.total_paid_satoshis
            &&& after.total_bytes_uploaded == before.total_bytes_uploaded + a.bytes_uploaded
            &&& after.total_bytes_downloaded == before.total_bytes_downloaded + a.bytes_downloaded
            &&& a.incentive_enabled ==> after.incentive_peer_count == before.incentive_peer_count + 1
            &&& !a.incentive_enabled ==> after.incentive_peer_count == before.incentive_peer_count
        }),
{
    lemma_summary_push(s, a);
}

} // verus!
