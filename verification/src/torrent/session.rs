//! Torrent sessions: their state, their transfer counts and the accounts of their peers.
use crate::clock::unix_seconds;
use crate::text::same_text;
use crate::torrent::double::format_bytes;
use crate::torrent::double::size_text;
use crate::torrent::error::TorrentError;
use crate::torrent::error::TorrentFault;
use crate::torrent::incentive::accounts_of;
use crate::torrent::incentive::aggregate_summary;
use crate::torrent::incentive::clipped;
use crate::torrent::incentive::fresh_account;
use crate::torrent::incentive::summary_of;
use crate::torrent::incentive::total;
use crate::torrent::incentive::Account;
use crate::torrent::incentive::IncentiveSummary;
use crate::torrent::incentive::PeerBandwidthAccount;
use crate::torrent::metainfo::Meta;
use crate::torrent::metainfo::Metainfo;
use crate::torrent::metainfo::text_option;
use crate::torrent::tracker::peer_views;
use crate::torrent::tracker::Peer;
use crate::torrent::tracker::TrackerPeer;
use vstd::prelude::*;
use vstd::string::*;

verus! {

/// The number of accounts above which some are dropped.
pub const MAX_INCENTIVE_ACCOUNTS: usize = 10_000;

/// The number of accounts that are kept where too many are active.
pub const KEPT_INCENTIVE_ACCOUNTS: usize = 7_500;

/// The state of a torrent session.
#[derive(Debug, Clone, Copy, PartialEq, Eq, Structural)]
pub enum SessionState {
    /// Waiting to start.
    Queued,
    /// Asking trackers and peers.
    Connecting,
    /// Downloading.
    Downloading,
    /// Complete, and uploading to others.
    Seeding,
    /// Paused by the user.
    Paused,
    /// Failed.
    Error,
    /// Stopped.
    Stopped,
}

/// The name of a state.
pub open spec fn state_name(s: SessionState) -> Seq<char> {
    match s {
        SessionState::Queued => "Queued"@,
        SessionState::Connecting => "Connecting"@,
        SessionState::Downloading => "Downloading"@,
        SessionState::Seeding => "Seeding"@,
        SessionState::Paused => "Paused"@,
        SessionState::Error => "Error"@,
        SessionState::Stopped => "Stopped"@,
    }
}

impl SessionState {
    /// The name of the state.
    pub fn as_str(&self) -> (r: &'static str)
        ensures
            r@ == state_name(*self),
    {
        match self {
            SessionState::Queued => "Queued",
            SessionState::Connecting => "Connecting",
            SessionState::Downloading => "Downloading",
            SessionState::Seeding => "Seeding",
            SessionState::Paused => "Paused",
            SessionState::Error => "Error",
            SessionState::Stopped => "Stopped",
        }
    }
}

/// No two accounts belong to one address.
pub open spec fn distinct_addresses(s: Seq<Account>) -> bool {
    forall|i: int, j: int|
        0 <= i < j < s.len() ==> (#[trigger] s[i]).peer_address != (#[trigger] s[j]).peer_address
}

/// Whether bytes were exchanged since the last settlement.
pub open spec fn active(a: Account) -> bool {
    a.bytes_uploaded > 0 || a.bytes_downloaded > 0
}

/// The accounts that hold bytes not settled yet.
pub open spec fn active_accounts(s: Seq<Account>) -> Seq<Account> {
    s.filter(|a: Account| active(a))
}

/// What is left of accounts when too many have gathered. Accounts without activity go first. Where
/// still too many are left, those that were active longest ago go, until three quarters of the
/// limit remain.
pub open spec fn evicted(before: Seq<Account>, after: Seq<Account>) -> bool {
    let kept = active_accounts(before);
    if before.len() <= MAX_INCENTIVE_ACCOUNTS {
        after == before
    } else if kept.len() <= MAX_INCENTIVE_ACCOUNTS {
        after == kept
    } else {
        &&& after.len() == KEPT_INCENTIVE_ACCOUNTS
        &&& distinct_addresses(after)
        &&& forall|k: int| 0 <= k < after.len() ==> kept.contains(#[trigger] after[k])
        &&& forall|i: int, k: int|
            0 <= i < kept.len() && 0 <= k < after.len() && !after.contains(kept[i]) ==> (
            #[trigger] kept[i]).last_active <= (#[trigger] after[k]).last_active
    }
}

/// The position of the account of `address`, the number of accounts where there is none.
pub open spec fn account_position(s: Seq<Account>, address: Seq<char>) -> nat
    decreases s.len(),
{
    if s.len() == 0 {
        0
    } else if s[0].peer_address == address {
        0
    } else {
        1 + account_position(s.skip(1), address)
    }
}

/// The account of `address`, a fresh one where there is none.
pub open spec fn account_for(s: Seq<Account>, address: Seq<char>) -> Account {
    let at = account_position(s, address);
    if at < s.len() {
        s[at as int]
    } else {
        fresh_account(address)
    }
}

/// The accounts with `a` in place of the account of its address.
pub open spec fn with_account(s: Seq<Account>, a: Account) -> Seq<Account> {
    let at = account_position(s, a.peer_address);
    if at < s.len() {
        s.update(at as int, a)
    } else {
        s.push(a)
    }
}

/// The accounts of the peers of a session.
#[derive(Debug, Clone)]
pub struct AccountBook {
    entries: Vec<PeerBandwidthAccount>,
}

impl View for AccountBook {
    type V = Seq<Account>;

    closed spec fn view(&self) -> Seq<Account> {
        accounts_of(self.entries@)
    }
}

proof fn lemma_position(s: Seq<Account>, address: Seq<char>, at: nat)
    requires
        at <= s.len(),
        forall|k: int| 0 <= k < at ==> (#[trigger] s[k]).peer_address != address,
        at < s.len() ==> s[at as int].peer_address == address,
    ensures
        account_position(s, address) == at,
    decreases s.len(),
{
    if s.len() > 0 && at > 0 {
        assert(s[0].peer_address != address);
        let t = s.skip(1);
        assert forall|k: int| 0 <= k < at - 1 implies (#[trigger] t[k]).peer_address != address by {
            assert(t[k] == s[k + 1]);
        }
        lemma_position(t, address, (at - 1) as nat);
    }
}

proof fn lemma_position_found(s: Seq<Account>, address: Seq<char>)
    ensures
        ({
            let at = account_position(s, address);
            &&& at <= s.len()
            &&& at < s.len() ==> s[at as int].peer_address == address
            &&& forall|k: int| 0 <= k < at ==> (#[trigger] s[k]).peer_address != address
        }),
    decreases s.len(),
{
    if s.len() > 0 && s[0].peer_address != address {
        let t = s.skip(1);
        lemma_position_found(t, address);
        let at = account_position(s, address);
        assert forall|k: int| 0 <= k < at implies (#[trigger] s[k]).peer_address != address by {
            if k > 0 {
                assert(t[k - 1] == s[k]);
            }
        }
    }
}

proof fn lemma_active_push(s: Seq<Account>, a: Account)
    ensures
        active_accounts(s.push(a)) == if active(a) {
            active_accounts(s).push(a)
        } else {
            active_accounts(s)
        },
{
    reveal(Seq::filter);
    assert(s.push(a).drop_last() =~= s);
}

proof fn lemma_active_distinct(s: Seq<Account>)
    requires
        distinct_addresses(s),
    ensures
        distinct_addresses(active_accounts(s)),
        forall|k: int|
            0 <= k < active_accounts(s).len() ==> s.contains(#[trigger] active_accounts(s)[k]),
    decreases s.len(),
{
    reveal(Seq::filter);
    if s.len() > 0 {
        let t = s.drop_last();
        lemma_active_distinct(t);
        let f = active_accounts(s);
        let g = active_accounts(t);
        assert(s == t.push(s.last()));
        lemma_active_push(t, s.last());
        assert forall|k: int| 0 <= k < f.len() implies s.contains(#[trigger] f[k]) by {
            if k < g.len() {
                assert(f[k] == g[k]);
                assert(t.contains(g[k]));
                let m = choose|m: int| 0 <= m < t.len() && t[m] == g[k];
                assert(s[m] == f[k]);
            } else {
                assert(s[s.len() - 1] == f[k]);
            }
        }
        assert forall|i: int, j: int| 0 <= i < j < f.len() implies (#[trigger] f[i]).peer_address
            != (#[trigger] f[j]).peer_address by {
            assert(f[i] == g[i]);
            if j < g.len() {
                assert(f[j] == g[j]);
            } else {
                assert(f[j] == s.last());
                assert(t.contains(g[i]));
                let m = choose|m: int| 0 <= m < t.len() && t[m] == g[i];
                assert(s[m] == f[i]);
            }
        }
    }
}

impl AccountBook {
    /// No accounts.
    pub fn new() -> (r: Self)
        ensures
            r@ == Seq::<Account>::empty(),
    {
        let r: AccountBook = AccountBook { entries: Vec::new() };
        assert(r@ =~= Seq::<Account>::empty());
        r
    }

    /// The number of accounts.
    pub fn len(&self) -> (r: usize)
        ensures
            r == self@.len(),
    {
        self.entries.len()
    }

    /// Whether there are no accounts.
    pub fn is_empty(&self) -> (r: bool)
        ensures
            r == (self@.len() == 0),
    {
        self.entries.len() == 0
    }

    fn position(&self, address: &str) -> (r: usize)
        ensures
            r == account_position(self@, address@),
            r <= self.entries@.len(),
    {
        let mut i: usize = 0;
        while i < self.entries.len()
            invariant
                i <= self.entries@.len(),
                forall|k: int| 0 <= k < i ==> (#[trigger] self@[k]).peer_address != address@,
            decreases self.entries@.len() - i,
        {
            if same_text(self.entries[i].peer_address.as_str(), address) {
                proof {
                    assert(self@[i as int].peer_address == address@);
                    lemma_position(self@, address@, i as nat);
                }
                return i;
            }
            assert(self@[i as int].peer_address != address@);
            assert(i < self.entries.len());
            i = i + 1;
        }
        proof {
            lemma_position(self@, address@, i as nat);
        }
        i
    }

    /// Whether `address` has an account.
    pub fn contains_key(&self, address: &str) -> (r: bool)
        ensures
            r == (account_position(self@, address@) < self@.len()),
    {
        self.position(address) < self.entries.len()
    }

    /// The account of `address`.
    pub fn get(&self, address: &str) -> (r: Option<&PeerBandwidthAccount>)
        ensures
            match r {
                Some(a) => account_position(self@, address@) < self@.len() && a@ == account_for(
                    self@,
                    address@,
                ),
                None => account_position(self@, address@) == self@.len(),
            },
    {
        let at: usize = self.position(address);
        if at < self.entries.len() {
            Some(&self.entries[at])
        } else {
            None
        }
    }

    /// What the accounts add up to.
    pub fn summary(&self) -> (r: IncentiveSummary)
        ensures
            r == summary_of(self@),
    {
        aggregate_summary(self.entries.as_slice())
    }

    /// Drops the accounts without activity.
    fn retain_active(&mut self)
        ensures
            final(self)@ == active_accounts(old(self)@),
    {
        let mut kept: Vec<PeerBandwidthAccount> = Vec::new();
        let ghost all = self@;
        proof {
            assert(all.take(0) =~= Seq::empty());
            assert(accounts_of(kept@) =~= active_accounts(all.take(0))) by {
                reveal(Seq::filter);
            }
        }
        let mut i: usize = 0;
        while i < self.entries.len()
            invariant
                i <= self.entries@.len(),
                self.entries@.len() == all.len(),
                forall|k: int| i <= k < all.len() ==> (#[trigger] self.entries@[k])@ == all[k],
                accounts_of(kept@) == active_accounts(all.take(i as int)),
            decreases self.entries@.len() - i,
        {
            let mut a: PeerBandwidthAccount = PeerBandwidthAccount::new(String::new());
            assert(self.entries@[i as int]@ == all[i as int]);
            std::mem::swap(&mut a, &mut self.entries[i]);
            proof {
                assert(a@ == all[i as int]);
                assert(all.take(i + 1) =~= all.take(i as int).push(a@));
                lemma_active_push(all.take(i as int), a@);
            }
            if a.bytes_uploaded > 0 || a.bytes_downloaded > 0 {
                let ghost was = kept@;
                kept.push(a);
                assert(accounts_of(kept@) =~= accounts_of(was).push(a@));
            }
            assert(i < self.entries.len());
            i = i + 1;
        }
        assert(all.take(all.len() as int) =~= all);
        self.entries = kept;
    }

    /// The position of an account that was active longest ago.
    fn oldest(&self) -> (r: usize)
        requires
            self@.len() > 0,
        ensures
            r < self@.len(),
            forall|k: int|
                0 <= k < self@.len() ==> self@[r as int].last_active <= (
                #[trigger] self@[k]).last_active,
    {
        let mut best: usize = 0;
        let mut i: usize = 1;
        while i < self.entries.len()
            invariant
                best < i <= self.entries@.len(),
                forall|k: int|
                    0 <= k < i ==> self@[best as int].last_active <= (
                    #[trigger] self@[k]).last_active,
            decreases self.entries@.len() - i,
        {
            assert(self@[i as int].last_active == self.entries@[i as int].last_active);
            assert(self@[best as int].last_active == self.entries@[best as int].last_active);
            if self.entries[i].last_active < self.entries[best].last_active {
                best = i;
            }
            assert(i < self.entries.len());
            i = i + 1;
        }
        best
    }

    /// Drops accounts where there are too many.
    fn evict_stale_accounts(&mut self)
        requires
            distinct_addresses(old(self)@),
        ensures
            evicted(old(self)@, final(self)@),
            distinct_addresses(final(self)@),
            final(self)@.len() <= MAX_INCENTIVE_ACCOUNTS,
    {
        if self.entries.len() <= MAX_INCENTIVE_ACCOUNTS {
            return;
        }
        self.retain_active();
        proof {
            lemma_active_distinct(old(self)@);
        }
        let ghost kept = self@;
        if self.entries.len() > MAX_INCENTIVE_ACCOUNTS {
            assert forall|k: int| 0 <= k < kept.len() implies kept.contains(#[trigger] kept[k]) by {}
            while self.entries.len() > KEPT_INCENTIVE_ACCOUNTS
                invariant
                    self@.len() == self.entries@.len(),
                    self@.len() >= KEPT_INCENTIVE_ACCOUNTS,
                    distinct_addresses(self@),
                    forall|k: int| 0 <= k < self@.len() ==> kept.contains(#[trigger] self@[k]),
                    forall|i: int, k: int|
                        0 <= i < kept.len() && 0 <= k < self@.len() && !self@.contains(kept[i])
                            ==> (#[trigger] kept[i]).last_active <= (
                        #[trigger] self@[k]).last_active,
                decreases self.entries@.len(),
            {
                let at: usize = self.oldest();
                let ghost before = self@;
                let _gone = self.entries.remove(at);
                proof {
                    let now = self@;
                    assert(now =~= before.remove(at as int));
                    assert forall|k: int| 0 <= k < now.len() implies kept.contains(
                        #[trigger] now[k],
                    ) by {
                        let m = if k < at {
                            k
                        } else {
                            k + 1
                        };
                        assert(now[k] == before[m]);
                    }
                    assert(distinct_addresses(now)) by {
                        assert forall|i: int, j: int| 0 <= i < j < now.len() implies (
                        #[trigger] now[i]).peer_address != (#[trigger] now[j]).peer_address by {
                            let a = if i < at {
                                i
                            } else {
                                i + 1
                            };
                            let b = if j < at {
                                j
                            } else {
                                j + 1
                            };
                            assert(now[i] == before[a]);
                            assert(now[j] == before[b]);
                        }
                    }
                    assert forall|i: int, k: int|
                        0 <= i < kept.len() && 0 <= k < now.len() && !now.contains(
                            kept[i],
                        ) implies (#[trigger] kept[i]).last_active <= (
                    #[trigger] now[k]).last_active by {
                        let m = if k < at {
                            k
                        } else {
                            k + 1
                        };
                        assert(now[k] == before[m]);
                        if before.contains(kept[i]) {
                            let p = choose|p: int| 0 <= p < before.len() && before[p] == kept[i];
                            if p != at {
                                let q = if p < at {
                                    p
                                } else {
                                    p - 1
                                };
                                assert(now[q] == before[p]);
                            }
                        }
                    }
                }
            }
        }
    }

    /// Puts `a` in place of the account of its address.
    fn replace(&mut self, a: PeerBandwidthAccount)
        requires
            distinct_addresses(old(self)@),
        ensures
            final(self)@ == with_account(old(self)@, a@),
            distinct_addresses(final(self)@),
            final(self)@.len() <= old(self)@.len() + 1,
    {
        let ghost before = self@;
        let at: usize = self.position(a.peer_address.as_str());
        proof {
            lemma_position_found(before, a@.peer_address);
        }
        if at < self.entries.len() {
            self.entries.set(at, a);
            assert(self@ =~= before.update(at as int, a@));
        } else {
            self.entries.push(a);
            assert(self@ =~= before.push(a@));
        }
    }

    /// The account of `address`, a fresh one where there is none.
    fn account(&self, address: &str) -> (r: PeerBandwidthAccount)
        ensures
            r@ == account_for(self@, address@),
            r@.peer_address == address@,
    {
        let at: usize = self.position(address);
        proof {
            lemma_position_found(self@, address@);
        }
        if at < self.entries.len() {
            let e = &self.entries[at];
            assert(self@[at as int] == e@);
            PeerBandwidthAccount {
                peer_address: e.peer_address.clone(),
                bytes_uploaded: e.bytes_uploaded,
                bytes_downloaded: e.bytes_downloaded,
                total_earned_satoshis: e.total_earned_satoshis,
                total_paid_satoshis: e.total_paid_satoshis,
                last_settlement: e.last_settlement,
                incentive_enabled: e.incentive_enabled,
                last_active: e.last_active,
            }
        } else {
            PeerBandwidthAccount::new(address.to_owned())
        }
    }
}

/// An account after `down` and `up` more bytes at `now`.
pub open spec fn noted(a: Account, down: u64, up: u64, now: u64) -> Account {
    Account {
        bytes_downloaded: clipped((a.bytes_downloaded + down) as nat),
        bytes_uploaded: clipped((a.bytes_uploaded + up) as nat),
        last_active: now,
        ..a
    }
}

/// The accounts after `down` and `up` more bytes were exchanged with `address`: stale accounts are
/// dropped, then the account of the address is brought up to date.
pub open spec fn recorded(
    before: Seq<Account>,
    after: Seq<Account>,
    address: Seq<char>,
    down: u64,
    up: u64,
    now: u64,
) -> bool {
    exists|kept: Seq<Account>|
        #[trigger] evicted(before, kept) && after == with_account(
            kept,
            noted(account_for(kept, address), down, up, now),
        )
}

/// A torrent session.
#[derive(Debug, Clone)]
pub struct TorrentSession {
    /// Names the session.
    pub id: String,
    /// What is downloaded.
    pub metainfo: Metainfo,
    /// The state.
    pub state: SessionState,
    /// Bytes downloaded.
    pub bytes_downloaded: u64,
    /// Bytes uploaded.
    pub bytes_uploaded: u64,
    /// Bytes downloaded per second.
    pub download_speed: u64,
    /// Bytes uploaded per second.
    pub upload_speed: u64,
    /// The peers.
    pub peers: Vec<TrackerPeer>,
    /// The accounts of the peers.
    pub incentive_accounts: AccountBook,
    /// Where payments are received.
    pub wallet_address: String,
    /// What went wrong.
    pub error: Option<String>,
    /// When the session was made.
    pub created_at: u64,
    /// When the session was last active.
    pub last_active: u64,
}

/// What a [`TorrentSession`] holds.
pub ghost struct Session {
    pub id: Seq<char>,
    pub metainfo: Meta,
    pub state: SessionState,
    pub bytes_downloaded: u64,
    pub bytes_uploaded: u64,
    pub download_speed: u64,
    pub upload_speed: u64,
    pub peers: Seq<Peer>,
    pub incentive_accounts: Seq<Account>,
    pub wallet_address: Seq<char>,
    pub error: Option<Seq<char>>,
    pub created_at: u64,
    pub last_active: u64,
}

impl View for TorrentSession {
    type V = Session;

    open spec fn view(&self) -> Session {
        Session {
            id: self.id@,
            metainfo: self.metainfo@,
            state: self.state,
            bytes_downloaded: self.bytes_downloaded,
            bytes_uploaded: self.bytes_uploaded,
            download_speed: self.download_speed,
            upload_speed: self.upload_speed,
            peers: peer_views(self.peers@),
            incentive_accounts: self.incentive_accounts@,
            wallet_address: self.wallet_address@,
            error: text_option(self.error),
            created_at: self.created_at,
            last_active: self.last_active,
        }
    }
}

/// A session that was just made.
pub open spec fn fresh_session(
    id: Seq<char>,
    metainfo: Meta,
    wallet_address: Seq<char>,
    now: u64,
) -> Session {
    Session {
        id,
        metainfo,
        state: SessionState::Queued,
        bytes_downloaded: 0,
        bytes_uploaded: 0,
        download_speed: 0,
        upload_speed: 0,
        peers: Seq::empty(),
        incentive_accounts: Seq::empty(),
        wallet_address,
        error: None,
        created_at: now,
        last_active: now,
    }
}

/// A lower-case hexadecimal digit.
pub open spec fn is_hex_char(c: char) -> bool {
    ('0' <= c <= '9') || ('a' <= c <= 'f')
}

/// The form of a random identifier: 36 characters, hyphens after the groups, version four and the
/// usual variant, hexadecimal digits in lower case elsewhere.
pub open spec fn is_random_id(s: Seq<char>) -> bool {
    &&& s.len() == 36
    &&& forall|k: int|
        0 <= k < 36 ==> if k == 8 || k == 13 || k == 18 || k == 23 {
            #[trigger] s[k] == '-'
        } else {
            is_hex_char(s[k])
        }
    &&& s[14] == '4'
    &&& (s[19] == '8' || s[19] == '9' || s[19] == 'a' || s[19] == 'b')
}

/// `uuid::Uuid::new_v4` as text: a random identifier in its hyphenated form. Which one is left to
/// chance.
#[verifier::external_body]
fn random_id() -> (r: String)
    ensures
        is_random_id(r@),
{
    uuid::Uuid::new_v4().to_string()
}

/// A size per second.
pub open spec fn speed_text(bytes: nat) -> Seq<char> {
    size_text(bytes) + "/s"@
}

impl TorrentSession {
    /// Whether no two accounts belong to one address.
    pub open spec fn wf(&self) -> bool {
        distinct_addresses(self@.incentive_accounts)
    }

    /// A new session, named at random and dated by the clock.
    pub fn new(metainfo: Metainfo, wallet_address: String) -> (r: Self)
        ensures
            r.wf(),
            is_random_id(r@.id),
            r@ == fresh_session(r@.id, metainfo@, wallet_address@, r@.created_at),
    {
        TorrentSession::with_id(random_id(), metainfo, wallet_address, unix_seconds())
    }

    /// A new session with a given name, made at `now`.
    pub fn with_id(id: String, metainfo: Metainfo, wallet_address: String, now: u64) -> (r: Self)
        ensures
            r.wf(),
            r@ == fresh_session(id@, metainfo@, wallet_address@, now),
    {
        let r: TorrentSession = TorrentSession {
            id,
            metainfo,
            state: SessionState::Queued,
            bytes_downloaded: 0,
            bytes_uploaded: 0,
            download_speed: 0,
            upload_speed: 0,
            peers: Vec::new(),
            incentive_accounts: AccountBook::new(),
            wallet_address,
            error: None,
            created_at: now,
            last_active: now,
        };
        assert(r@.peers =~= Seq::<Peer>::empty());
        r
    }

    /// Whether everything was downloaded.
    pub fn is_complete(&self) -> (r: bool)
        ensures
            r == (self@.bytes_downloaded >= self@.metainfo.total_size),
    {
        self.bytes_downloaded >= self.metainfo.total_size
    }

    /// What the accounts of the peers add up to.
    pub fn incentive_summary(&self) -> (r: IncentiveSummary)
        ensures
            r == summary_of(self@.incentive_accounts),
    {
        self.incentive_accounts.summary()
    }

    /// Counts bytes downloaded from a peer at `now`.
    pub fn record_download_at(&mut self, peer_address: &str, bytes: u64, now: u64)
        requires
            old(self).wf(),
        ensures
            final(self).wf(),
            recorded(
                old(self)@.incentive_accounts,
                final(self)@.incentive_accounts,
                peer_address@,
                bytes,
                0,
                now,
            ),
            final(self)@ == (Session {
                bytes_downloaded: clipped((old(self)@.bytes_downloaded + bytes) as nat),
                incentive_accounts: final(self)@.incentive_accounts,
                ..old(self)@
            }),
            final(self)@.incentive_accounts.len() <= MAX_INCENTIVE_ACCOUNTS + 1,
    {
        self.bytes_downloaded = self.bytes_downloaded.saturating_add(bytes);
        self.incentive_accounts.evict_stale_accounts();
        let ghost kept = self.incentive_accounts@;
        let mut account: PeerBandwidthAccount = self.incentive_accounts.account(peer_address);
        account.record_download(bytes);
        account.touch(now);
        assert(account@ == noted(account_for(kept, peer_address@), bytes, 0, now));
        self.incentive_accounts.replace(account);
        assert(evicted(old(self)@.incentive_accounts, kept));
    }

    /// Counts bytes downloaded from a peer now.
    pub fn record_download(&mut self, peer_address: &str, bytes: u64)
        requires
            old(self).wf(),
        ensures
            final(self).wf(),
            exists|now: u64|
                recorded(
                    old(self)@.incentive_accounts,
                    final(self)@.incentive_accounts,
                    peer_address@,
                    bytes,
                    0,
                    now,
                ),
            final(self)@ == (Session {
                bytes_downloaded: clipped((old(self)@.bytes_downloaded + bytes) as nat),
                incentive_accounts: final(self)@.incentive_accounts,
                ..old(self)@
            }),
            final(self)@.incentive_accounts.len() <= MAX_INCENTIVE_ACCOUNTS + 1,
    {
        self.record_download_at(peer_address, bytes, unix_seconds());
    }

    /// Counts bytes uploaded to a peer at `now`.
    pub fn record_upload_at(&mut self, peer_address: &str, bytes: u64, now: u64)
        requires
            old(self).wf(),
        ensures
            final(self).wf(),
            recorded(
                old(self)@.incentive_accounts,
                final(self)@.incentive_accounts,
                peer_address@,
                0,
                bytes,
                now,
            ),
            final(self)@ == (Session {
                bytes_uploaded: clipped((old(self)@.bytes_uploaded + bytes) as nat),
                incentive_accounts: final(self)@.incentive_accounts,
                ..old(self)@
            }),
            final(self)@.incentive_accounts.len() <= MAX_INCENTIVE_ACCOUNTS + 1,
    {
        self.bytes_uploaded = self.bytes_uploaded.saturating_add(bytes);
        self.incentive_accounts.evict_stale_accounts();
        let ghost kept = self.incentive_accounts@;
        let mut account: PeerBandwidthAccount = self.incentive_accounts.account(peer_address);
        account.record_upload(bytes);
        account.touch(now);
        assert(account@ == noted(account_for(kept, peer_address@), 0, bytes, now));
        self.incentive_accounts.replace(account);
        assert(evicted(old(self)@.incentive_accounts, kept));
    }

    /// Counts bytes uploaded to a peer now.
    pub fn record_upload(&mut self, peer_address: &str, bytes: u64)
        requires
            old(self).wf(),
        ensures
            final(self).wf(),
            exists|now: u64|
                recorded(
                    old(self)@.incentive_accounts,
                    final(self)@.incentive_accounts,
                    peer_address@,
                    0,
                    bytes,
                    now,
                ),
            final(self)@ == (Session {
                bytes_uploaded: clipped((old(self)@.bytes_uploaded + bytes) as nat),
                incentive_accounts: final(self)@.incentive_accounts,
                ..old(self)@
            }),
            final(self)@.incentive_accounts.len() <= MAX_INCENTIVE_ACCOUNTS + 1,
    {
        self.record_upload_at(peer_address, bytes, unix_seconds());
    }

    /// The size of the torrent, for people to read.
    pub fn size_display(&self) -> (r: String)
        ensures
            r@ == size_text(self@.metainfo.total_size as nat),
    {
        format_bytes(self.metainfo.total_size)
    }

    /// The bytes downloaded, for people to read.
    pub fn downloaded_display(&self) -> (r: String)
        ensures
            r@ == size_text(self@.bytes_downloaded as nat),
    {
        format_bytes(self.bytes_downloaded)
    }

    /// The upload speed, for people to read.
    pub fn upload_speed_display(&self) -> (r: String)
        ensures
            r@ == speed_text(self@.upload_speed as nat),
    {
        let mut s: String = format_bytes(self.upload_speed);
        s.append("/s");
        s
    }

    /// The download speed, for people to read.
    pub fn download_speed_display(&self) -> (r: String)
        ensures
            r@ == speed_text(self@.download_speed as nat),
    {
        let mut s: String = format_bytes(self.download_speed);
        s.append("/s");
        s
    }
}

/// Bytes exchanged with a peer end up on the account of its address, whatever accounts were
/// dropped to make room, and no other account gains any.
pub proof fn law_recorded_bytes_are_counted(
    before: Seq<Account>,
    after: Seq<Account>,
    address: Seq<char>,
    down: u64,
    up: u64,
    now: u64,
)
    requires
        distinct_addresses(before),
        recorded(before, after, address, down, up, now),
    ensures
        account_for(after, address).bytes_downloaded >= down,
        account_for(after, address).bytes_uploaded >= up,
        account_for(after, address).last_active == now,
        before.len() <= MAX_INCENTIVE_ACCOUNTS ==> account_for(after, address) == noted(
            account_for(before, address),
            down,
            up,
            now,
        ),
        forall|k: int|
            0 <= k < after.len() && (#[trigger] after[k]).peer_address != address
                ==> before.contains(after[k]),
{
    let kept = choose|kept: Seq<Account>|
        #[trigger] evicted(before, kept) && after == with_account(
            kept,
            noted(account_for(kept, address), down, up, now),
        );
    let a = noted(account_for(kept, address), down, up, now);
    lemma_position_found(kept, address);
    let at = account_position(kept, address);
    lemma_position(after, address, at);
    lemma_active_distinct(before);
    assert forall|k: int|
        0 <= k < after.len() && (#[trigger] after[k]).peer_address
            != address implies before.contains(after[k]) by {
        assert(after[k] == kept[k]);
        if before.len() > MAX_INCENTIVE_ACCOUNTS {
            let f = active_accounts(before);
            if f.len() > MAX_INCENTIVE_ACCOUNTS {
                assert(f.contains(kept[k]));
                let m = choose|m: int| 0 <= m < f.len() && f[m] == kept[k];
                assert(before.contains(f[m]));
            } else {
                assert(before.contains(f[k]));
            }
        } else {
            assert(before.contains(before[k]));
        }
    }
}

/// The sessions as they read.
pub open spec fn session_views(s: Seq<TorrentSession>) -> Seq<Session> {
    s.map_values(|t: TorrentSession| t@)
}

/// The sessions behind references as they read.
pub open spec fn listed_views(s: Seq<&TorrentSession>) -> Seq<Session> {
    s.map_values(|t: &TorrentSession| t@)
}

/// The position of the session named `id`, the number of sessions where there is none.
pub open spec fn session_position(s: Seq<Session>, id: Seq<char>) -> nat
    decreases s.len(),
{
    if s.len() == 0 {
        0
    } else if s[0].id == id {
        0
    } else {
        1 + session_position(s.skip(1), id)
    }
}

/// No two sessions have one name.
pub open spec fn distinct_ids(s: Seq<Session>) -> bool {
    forall|i: int, j: int| 0 <= i < j < s.len() ==> (#[trigger] s[i]).id != (#[trigger] s[j]).id
}

/// The sessions with `t` in place of the session of its name.
pub open spec fn with_session(s: Seq<Session>, t: Session) -> Seq<Session> {
    let at = session_position(s, t.id);
    if at < s.len() {
        s.update(at as int, t)
    } else {
        s.push(t)
    }
}

/// The sessions without the one named `id`.
pub open spec fn without_session(s: Seq<Session>, id: Seq<char>) -> Seq<Session> {
    let at = session_position(s, id);
    if at < s.len() {
        s.remove(at as int)
    } else {
        s
    }
}

/// Later sessions come before earlier ones.
pub open spec fn newest_first(s: Seq<Session>) -> bool {
    forall|i: int, j: int|
        0 <= i < j < s.len() ==> (#[trigger] s[i]).created_at >= (#[trigger] s[j]).created_at
}

/// What all sessions earned.
pub open spec fn earned_by(s: Seq<Session>) -> nat {
    total(s.map_values(|t: Session| summary_of(t.incentive_accounts).total_earned_satoshis))
}

proof fn lemma_session_position(s: Seq<Session>, id: Seq<char>, at: nat)
    requires
        at <= s.len(),
        forall|k: int| 0 <= k < at ==> (#[trigger] s[k]).id != id,
        at < s.len() ==> s[at as int].id == id,
    ensures
        session_position(s, id) == at,
    decreases s.len(),
{
    if s.len() > 0 && at > 0 {
        assert(s[0].id != id);
        let t = s.skip(1);
        assert forall|k: int| 0 <= k < at - 1 implies (#[trigger] t[k]).id != id by {
            assert(t[k] == s[k + 1]);
        }
        lemma_session_position(t, id, (at - 1) as nat);
    }
}

proof fn lemma_session_found(s: Seq<Session>, id: Seq<char>)
    ensures
        ({
            let at = session_position(s, id);
            &&& at <= s.len()
            &&& at < s.len() ==> s[at as int].id == id
            &&& forall|k: int| 0 <= k < at ==> (#[trigger] s[k]).id != id
        }),
    decreases s.len(),
{
    if s.len() > 0 && s[0].id != id {
        let t = s.skip(1);
        lemma_session_found(t, id);
        let at = session_position(s, id);
        assert forall|k: int| 0 <= k < at implies (#[trigger] s[k]).id != id by {
            if k > 0 {
                assert(t[k - 1] == s[k]);
            }
        }
    }
}

/// The sessions that are under way.
#[derive(Debug)]
pub struct SessionManager {
    sessions: Vec<TorrentSession>,
}

impl View for SessionManager {
    type V = Seq<Session>;

    closed spec fn view(&self) -> Seq<Session> {
        session_views(self.sessions@)
    }
}

impl Default for SessionManager {
    fn default() -> (r: Self)
        ensures
            r.wf(),
            r@ == Seq::<Session>::empty(),
    {
        SessionManager::new()
    }
}

impl SessionManager {
    /// Whether no two sessions have one name.
    pub open spec fn wf(&self) -> bool {
        distinct_ids(self@)
    }

    /// No sessions.
    pub fn new() -> (r: Self)
        ensures
            r.wf(),
            r@ == Seq::<Session>::empty(),
    {
        let r: SessionManager = SessionManager { sessions: Vec::new() };
        assert(r@ =~= Seq::<Session>::empty());
        r
    }

    fn position(&self, id: &str) -> (r: usize)
        ensures
            r == session_position(self@, id@),
            r <= self.sessions@.len(),
            self.sessions@.len() == self@.len(),
    {
        let mut i: usize = 0;
        while i < self.sessions.len()
            invariant
                i <= self.sessions@.len(),
                forall|k: int| 0 <= k < i ==> (#[trigger] self@[k]).id != id@,
            decreases self.sessions@.len() - i,
        {
            if same_text(self.sessions[i].id.as_str(), id) {
                proof {
                    assert(self@[i as int].id == id@);
                    lemma_session_position(self@, id@, i as nat);
                }
                return i;
            }
            assert(self@[i as int].id != id@);
            assert(i < self.sessions.len());
            i = i + 1;
        }
        proof {
            lemma_session_position(self@, id@, i as nat);
        }
        i
    }

    /// Adds a session, in place of one of the same name, and returns its name.
    pub fn add_session(&mut self, session: TorrentSession) -> (r: String)
        requires
            old(self).wf(),
        ensures
            final(self).wf(),
            final(self)@ == with_session(old(self)@, session@),
            r@ == session@.id,
    {
        let id: String = session.id.clone();
        let ghost before = self@;
        let at: usize = self.position(id.as_str());
        proof {
            lemma_session_found(before, id@);
        }
        if at < self.sessions.len() {
            self.sessions.set(at, session);
            assert(self@ =~= before.update(at as int, session@));
        } else {
            self.sessions.push(session);
            assert(self@ =~= before.push(session@));
        }
        id
    }

    /// The session named `id`.
    pub fn get_session(&self, id: &str) -> (r: Result<&TorrentSession, TorrentError>)
        ensures
            ({
                let at = session_position(self@, id@);
                if at < self@.len() {
                    r matches Ok(t) && t@ == self@[at as int]
                } else {
                    r matches Err(e) && e@ == TorrentFault::SessionNotFound(id@)
                }
            }),
    {
        let at: usize = self.position(id);
        if at < self.sessions.len() {
            Ok(&self.sessions[at])
        } else {
            Err(TorrentError::SessionNotFound(id.to_owned()))
        }
    }

    /// The session named `id`, to be changed.
    pub fn get_session_mut(&mut self, id: &str) -> (r: Result<&mut TorrentSession, TorrentError>)
        requires
            old(self).wf(),
        ensures
            ({
                let at = session_position(old(self)@, id@);
                if at < old(self)@.len() {
                    &&& r matches Ok(t)
                    &&& t@ == old(self)@[at as int]
                    &&& final(self)@ == old(self)@.update(at as int, final(t)@)
                    &&& final(t)@.id == id@ ==> final(self).wf()
                } else {
                    &&& r matches Err(e)
                    &&& e@ == TorrentFault::SessionNotFound(id@)
                    &&& final(self)@ == old(self)@
                }
            }),
    {
        let at: usize = self.position(id);
        let ghost before = self@;
        proof {
            lemma_session_found(before, id@);
        }
        if at < self.sessions.len() {
            let t = &mut self.sessions[at];
            proof {
                assert(before[at as int] == t@);
                assert(session_views(old(self).sessions@.update(at as int, *final(t)))
                    =~= before.update(at as int, final(t)@));
            }
            Ok(t)
        } else {
            Err(TorrentError::SessionNotFound(id.to_owned()))
        }
    }

    /// The session at `index`, to be changed; nothing where there are no more.
    pub fn sessions_mut(&mut self, index: usize) -> (r: Option<&mut TorrentSession>)
        requires
            old(self).wf(),
        ensures
            if index < old(self)@.len() {
                &&& r matches Some(t)
                &&& t@ == old(self)@[index as int]
                &&& final(self)@ == old(self)@.update(index as int, final(t)@)
                &&& final(t)@.id == old(self)@[index as int].id ==> final(self).wf()
            } else {
                &&& r is None
                &&& final(self)@ == old(self)@
                &&& final(self).wf()
            },
    {
        let ghost before = self@;
        if index < self.sessions.len() {
            let t = &mut self.sessions[index];
            proof {
                assert(before[index as int] == t@);
                assert(session_views(old(self).sessions@.update(index as int, *final(t)))
                    =~= before.update(index as int, final(t)@));
            }
            Some(t)
        } else {
            None
        }
    }

    /// Removes the session named `id`.
    pub fn remove_session(&mut self, id: &str) -> (r: Option<TorrentSession>)
        requires
            old(self).wf(),
        ensures
            final(self).wf(),
            final(self)@ == without_session(old(self)@, id@),
            ({
                let at = session_position(old(self)@, id@);
                if at < old(self)@.len() {
                    r matches Some(t) && t@ == old(self)@[at as int]
                } else {
                    r is None
                }
            }),
    {
        let ghost before = self@;
        let at: usize = self.position(id);
        if at < self.sessions.len() {
            let t: TorrentSession = self.sessions.remove(at);
            proof {
                assert(t@ == before[at as int]);
                assert(self@ =~= before.remove(at as int));
                assert forall|i: int, j: int| 0 <= i < j < self@.len() implies (
                #[trigger] self@[i]).id != (#[trigger] self@[j]).id by {
                    let a = if i < at {
                        i
                    } else {
                        i + 1
                    };
                    let b = if j < at {
                        j
                    } else {
                        j + 1
                    };
                    assert(self@[i] == before[a]);
                    assert(self@[j] == before[b]);
                }
            }
            Some(t)
        } else {
            None
        }
    }

    /// All sessions, the newest first.
    pub fn list_sessions(&self) -> (r: Vec<&TorrentSession>)
        ensures
            newest_first(listed_views(r@)),
            listed_views(r@).to_multiset() == self@.to_multiset(),
    {
        let mut r: Vec<&TorrentSession> = Vec::new();
        let mut i: usize = 0;
        assert(self@.take(0) =~= listed_views(r@));
        while i < self.sessions.len()
            invariant
                i <= self.sessions@.len(),
                r@.len() == i,
                newest_first(listed_views(r@)),
                listed_views(r@).to_multiset() == self@.take(i as int).to_multiset(),
            decreases self.sessions@.len() - i,
        {
            let t: &TorrentSession = &self.sessions[i];
            let mut at: usize = r.len();
            while at > 0 && r[at - 1].created_at < t.created_at
                invariant
                    at <= r@.len(),
                    forall|k: int|
                        at <= k < r@.len() ==> (#[trigger] listed_views(r@)[k]).created_at
                            < t.created_at,
                decreases at,
            {
                assert(listed_views(r@)[at - 1].created_at == r@[at - 1].created_at);
                at = at - 1;
            }
            let ghost was = listed_views(r@);
            proof {
                if at > 0 {
                    assert(was[at - 1].created_at == r@[at - 1].created_at);
                }
            }
            r.insert(at, t);
            proof {
                let now = listed_views(r@);
                assert(now =~= was.insert(at as int, t@));
                assert(now.remove(at as int) =~= was);
                now.to_multiset_ensures();
                assert(now.contains(now[at as int]));
                assert(now.to_multiset() =~= was.to_multiset().insert(t@));
                assert(self@.take(i + 1) =~= self@.take(i as int).push(t@));
                self@.take(i as int).to_multiset_ensures();
                assert forall|a: int, b: int| 0 <= a < b < now.len() implies (
                #[trigger] now[a]).created_at >= (#[trigger] now[b]).created_at by {
                    if a < at {
                        assert(now[a] == was[a]);
                    } else if a > at {
                        assert(now[a] == was[a - 1]);
                    }
                    if b < at {
                        assert(now[b] == was[b]);
                    } else if b > at {
                        assert(now[b] == was[b - 1]);
                    }
                    if a < at && b == at {
                        assert(was[a].created_at >= was[at - 1].created_at);
                    }
                }
            }
            assert(i < self.sessions.len());
            i = i + 1;
        }
        assert(self@.take(i as int) =~= self@);
        r
    }

    /// The number of sessions in a state.
    pub fn count_by_state(&self, state: SessionState) -> (r: usize)
        ensures
            r == self@.filter(|t: Session| t.state == state).len(),
    {
        let mut n: usize = 0;
        let mut i: usize = 0;
        let ghost keep = |t: Session| t.state == state;
        proof {
            reveal(Seq::filter);
            assert(self@.take(0).filter(keep).len() == 0);
        }
        while i < self.sessions.len()
            invariant
                i <= self.sessions@.len(),
                n <= i,
                keep == (|t: Session| t.state == state),
                n == self@.take(i as int).filter(keep).len(),
            decreases self.sessions@.len() - i,
        {
            proof {
                reveal(Seq::filter);
                assert(self@.take(i + 1).drop_last() =~= self@.take(i as int));
                assert(self@.take(i + 1).last() == self.sessions@[i as int]@);
            }
            assert(i < self.sessions.len());
            if self.sessions[i].state == state {
                n = n + 1;
            }
            i = i + 1;
        }
        assert(self@.take(i as int) =~= self@);
        n
    }

    /// What all sessions earned, in smallest units.
    pub fn total_earned_satoshis(&self) -> (r: u64)
        requires
            earned_by(self@) <= u64::MAX,
        ensures
            r == earned_by(self@),
    {
        let mut sum: u64 = 0;
        let mut i: usize = 0;
        assert(self@.take(0) =~= Seq::<Session>::empty());
        while i < self.sessions.len()
            invariant
                i <= self.sessions@.len(),
                sum == earned_by(self@.take(i as int)),
                earned_by(self@) <= u64::MAX,
            decreases self.sessions@.len() - i,
        {
            let one: IncentiveSummary = self.sessions[i].incentive_summary();
            proof {
                let f = |t: Session| summary_of(t.incentive_accounts).total_earned_satoshis;
                assert(self@.take(i + 1).map_values(f).drop_last() =~= self@.take(
                    i as int,
                ).map_values(f));
                lemma_earned_prefix(self@, i + 1);
            }
            assert(i < self.sessions.len());
            sum = sum + one.total_earned_satoshis;
            i = i + 1;
        }
        assert(self@.take(i as int) =~= self@);
        sum
    }
}

proof fn lemma_earned_prefix(s: Seq<Session>, n: int)
    requires
        0 <= n <= s.len(),
    ensures
        earned_by(s.take(n)) <= earned_by(s),
    decreases s.len() - n,
{
    if n < s.len() {
        lemma_earned_prefix(s, n + 1);
        let f = |t: Session| summary_of(t.incentive_accounts).total_earned_satoshis;
        assert(s.take(n + 1).map_values(f).drop_last() =~= s.take(n).map_values(f));
    } else {
        assert(s.take(n) =~= s);
    }
}

/// A session is found under its name after it was added, and other names lead where they led.
pub proof fn law_added_session_is_found(s: Seq<Session>, t: Session, other: Seq<char>)
    requires
        distinct_ids(s),
    ensures
        ({
            let after = with_session(s, t);
            let at = session_position(after, t.id);
            &&& at < after.len()
            &&& after[at as int] == t
        }),
        other != t.id ==> ({
            let after = with_session(s, t);
            let was = session_position(s, other);
            let at = session_position(after, other);
            &&& (at < after.len()) == (was < s.len())
            &&& was < s.len() ==> after[at as int] == s[was as int]
        }),
{
    let after = with_session(s, t);
    lemma_session_found(s, t.id);
    let at = session_position(s, t.id);
    lemma_session_position(after, t.id, at);
    if other != t.id {
        lemma_session_found(s, other);
        let was = session_position(s, other);
        if was < s.len() {
            lemma_session_position(after, other, was);
        } else {
            lemma_session_position(after, other, after.len());
        }
    }
}

/// A session that was removed is found no more.
pub proof fn law_removed_session_is_gone(s: Seq<Session>, id: Seq<char>)
    requires
        distinct_ids(s),
    ensures
        session_position(without_session(s, id), id) == without_session(s, id).len(),
{
    let after = without_session(s, id);
    lemma_session_found(s, id);
    let at = session_position(s, id);
    assert forall|k: int| 0 <= k < after.len() implies (#[trigger] after[k]).id != id by {
        if at < s.len() {
            let m = if k < at {
                k
            } else {
                k + 1
            };
            assert(after[k] == s[m]);
        }
    }
    lemma_session_position(after, id, after.len());
}

/// Removing a session leaves the others where their names lead.
pub proof fn law_other_sessions_stay(s: Seq<Session>, id: Seq<char>, other: Seq<char>)
    requires
        distinct_ids(s),
        other != id,
    ensures
        ({
            let after = without_session(s, id);
            let was = session_position(s, other);
            let at = session_position(after, other);
            &&& (at < after.len()) == (was < s.len())
            &&& was < s.len() ==> after[at as int] == s[was as int]
            &&& session_position(s, id) < s.len() ==> after.len() + 1 == s.len()
            &&& session_position(s, id) == s.len() ==> after == s
        }),
{
    let after = without_session(s, id);
    lemma_session_found(s, id);
    lemma_session_found(s, other);
    let gone = session_position(s, id);
    let was = session_position(s, other);
    if gone < s.len() {
        if was < s.len() {
            let at: nat = if was < gone {
                was
            } else {
                (was - 1) as nat
            };
            assert(after[at as int] == s[was as int]);
            lemma_session_position(after, other, at);
        } else {
            assert forall|k: int| 0 <= k < after.len() implies (#[trigger] after[k]).id != other by {
                let m = if k < gone {
                    k
                } else {
                    k + 1
                };
                assert(after[k] == s[m]);
            }
            lemma_session_position(after, other, after.len());
        }
    }
}

/// What all sessions earned is the sum of what each did.
pub proof fn law_earnings_add_up(s: Seq<Session>, t: Session)
    ensures
        earned_by(Seq::empty()) == 0,
        earned_by(s.push(t)) == earned_by(s) + summary_of(t.incentive_accounts).total_earned_satoshis,
{
    let f = |x: Session| summary_of(x.incentive_accounts).total_earned_satoshis;
    assert(s.push(t).map_values(f).drop_last() =~= s.map_values(f));
    assert(Seq::<Session>::empty().map_values(f).len() == 0);
}

/// An account is found under its address after it was noted, and those of other addresses stay.
pub proof fn law_noted_account_is_found(s: Seq<Account>, a: Account, other: Seq<char>)
    requires
        distinct_addresses(s),
    ensures
        account_for(with_account(s, a), a.peer_address) == a,
        other != a.peer_address ==> account_for(with_account(s, a), other) == account_for(s, other),
{
    let after = with_account(s, a);
    lemma_position_found(s, a.peer_address);
    lemma_position_found(s, other);
    let at = account_position(s, a.peer_address);
    let was = account_position(s, other);
    lemma_position(after, a.peer_address, at);
    if other != a.peer_address {
        if was < s.len() {
            lemma_position(after, other, was);
        } else {
            lemma_position(after, other, after.len());
        }
    }
}

} // verus!
