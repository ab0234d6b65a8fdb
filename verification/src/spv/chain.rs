//! A chain of block headers, selected by accumulated work.
use crate::bytes::append_slice;
use crate::bytes::be_digits;
use crate::bytes::le_digits;
use crate::bytes::push_u32_be;
use crate::bytes::push_u32_le;
use crate::bytes::push_u64_le;
use crate::bytes::same_bytes;
use crate::clock::unix_seconds;
use crate::crypto::sha256d;
use crate::crypto::sha256d_of;
use crate::spv::error::SpvError;
use crate::spv::error::SpvFault;
use crate::spv::merkle::climb;
use crate::spv::merkle::nodes;
use crate::spv::merkle::steps;
use crate::spv::merkle::wrong_root_text;
use crate::spv::merkle::zero_hash;
use crate::spv::merkle::MerkleProof;
use crate::spv::stake::StakeProof;
use crate::spv::stake_rules::check_pos_header;
use crate::spv::stake_rules::pos_fault;
use crate::spv::target::hash_meets_target;
use crate::spv::target::header_work;
use crate::spv::target::meets_target;
use crate::spv::target::work_of;
use crate::text::decimal;
use crate::text::hex_encode;
use crate::text::hex_text;
use crate::text::push_decimal;
use vstd::arithmetic::power2::pow2;
use vstd::prelude::*;
use vstd::string::*;

verus! {

/// How far ahead of the clock a header may be, in seconds.
pub const MAX_FUTURE_SECONDS: u64 = 7200;

/// A block header with its height.
#[derive(Debug, Clone, Copy, PartialEq)]
pub struct SpvHeader {
    /// The block version.
    pub version: u32,
    /// The hash of the header before.
    pub prev_hash: [u8; 32],
    /// The root over the block's transactions.
    pub merkle_root: [u8; 32],
    /// The root over the unspent outputs after the block.
    pub utxo_root: [u8; 32],
    /// The time of the block.
    pub timestamp: u32,
    /// The compact target.
    pub bits: u32,
    /// The nonce; zero for minted blocks.
    pub nonce: u32,
    /// The stake modifier.
    pub stake_modifier: u64,
    /// The height, which is not part of the hash.
    pub height: u32,
}

/// The bytes that a header's hash is over.
pub open spec fn header_bytes(h: SpvHeader) -> Seq<u8> {
    le_digits(h.version as nat, 4) + h.prev_hash@ + h.merkle_root@ + h.utxo_root@ + le_digits(
        h.timestamp as nat,
        4,
    ) + le_digits(h.bits as nat, 4) + le_digits(h.nonce as nat, 4) + le_digits(
        h.stake_modifier as nat,
        8,
    )
}

/// The hash of a header.
pub open spec fn hash_of(h: SpvHeader) -> Seq<u8> {
    sha256d_of(header_bytes(h))
}

impl SpvHeader {
    /// The hash of the header.
    pub fn hash(&self) -> (r: [u8; 32])
        ensures
            r@ == hash_of(*self),
    {
        let mut buf: Vec<u8> = Vec::new();
        push_u32_le(&mut buf, self.version);
        append_slice(&mut buf, self.prev_hash.as_slice());
        append_slice(&mut buf, self.merkle_root.as_slice());
        append_slice(&mut buf, self.utxo_root.as_slice());
        push_u32_le(&mut buf, self.timestamp);
        push_u32_le(&mut buf, self.bits);
        push_u32_le(&mut buf, self.nonce);
        push_u64_le(&mut buf, self.stake_modifier);
        assert(buf@ =~= header_bytes(*self));
        sha256d(buf.as_slice())
    }

    /// Whether the block was minted by a stake.
    pub fn is_pos(&self) -> (r: bool)
        ensures
            r == (self.nonce == 0),
    {
        self.nonce == 0
    }
}

/// What a chain holds.
#[verifier::ext_equal]
pub struct Chain {
    /// The headers by their hash.
    pub headers: Map<Seq<u8>, SpvHeader>,
    /// The work from the first header on, by hash.
    pub work: Map<Seq<u8>, nat>,
    /// The tip.
    pub best_hash: Option<Seq<u8>>,
    /// The height of the tip.
    pub best_height: u32,
}

/// A chain without headers.
pub open spec fn no_headers() -> Chain {
    Chain { headers: Map::empty(), work: Map::empty(), best_hash: None, best_height: 0 }
}

/// The sum of two amounts of work, at most the largest 128-bit number.
pub open spec fn work_sum(a: nat, b: nat) -> nat {
    if a + b > u128::MAX {
        u128::MAX as nat
    } else {
        a + b
    }
}

/// The height after a height; zero after the largest.
pub open spec fn height_after(h: u32) -> u32 {
    if h == u32::MAX {
        0
    } else {
        (h + 1) as u32
    }
}

/// The work up to a new header.
pub open spec fn work_with(c: Chain, h: SpvHeader) -> nat {
    work_sum(
        if h.height == 0 || !c.headers.dom().contains(h.prev_hash@) {
            0
        } else {
            c.work[h.prev_hash@]
        },
        work_of(h.bits),
    )
}

/// The chain with a new header. The tip moves there where the header has more work behind it.
pub open spec fn extended(c: Chain, h: SpvHeader) -> Chain {
    let moves = c.best_hash is None || work_with(c, h) > c.work.insert(
        hash_of(h),
        work_with(c, h),
    )[c.best_hash->0];
    Chain {
        headers: c.headers.insert(hash_of(h), h),
        work: c.work.insert(hash_of(h), work_with(c, h)),
        best_hash: if moves {
            Some(hash_of(h))
        } else {
            c.best_hash
        },
        best_height: if moves {
            h.height
        } else {
            c.best_height
        },
    }
}

/// The text for a header that is ahead of the clock.
pub open spec fn future_text(timestamp: u32) -> Seq<char> {
    "header timestamp "@ + decimal(timestamp as nat) + " too far in the future"@
}

/// What adding a header gives when the clock stands at `now`. A trusted header needs no work, and
/// no parent where it is the first. A header that is stored already changes nothing.
pub open spec fn admitted(c: Chain, h: SpvHeader, trusted: bool, now: u32) -> Result<
    Chain,
    SpvFault,
> {
    let known_parent = c.headers.dom().contains(h.prev_hash@);
    let above = h.height > 0 && known_parent;
    let p = c.headers[h.prev_hash@];
    if c.headers.dom().contains(hash_of(h)) {
        Ok(c)
    } else if h.height > 0 && !known_parent && !(trusted && c.headers.dom().is_empty()) {
        Err(SpvFault::UnknownParent(hex_text(h.prev_hash@)))
    } else if !trusted && !meets_target(hash_of(h), h.bits) {
        Err(
            SpvFault::HeaderValidation(
                "hash "@ + hex_text(hash_of(h)) + " does not meet target "@ + hex_text(
                    be_digits(h.bits as nat, 4),
                ),
            ),
        )
    } else if h.timestamp > now + MAX_FUTURE_SECONDS {
        Err(SpvFault::HeaderValidation(future_text(h.timestamp)))
    } else if above && h.timestamp <= p.timestamp {
        Err(SpvFault::HeaderValidation("header timestamp must exceed parent timestamp"@))
    } else if above && h.height != height_after(p.height) {
        Err(SpvFault::HeightMismatch { expected: height_after(p.height), got: h.height })
    } else {
        Ok(extended(c, h))
    }
}

/// The stored parent of a header.
pub open spec fn parent_of(c: Chain, h: SpvHeader) -> Option<SpvHeader> {
    if c.headers.dom().contains(h.prev_hash@) {
        Some(c.headers[h.prev_hash@])
    } else {
        None
    }
}

/// What adding a header from a peer gives when the clock stands at `now`.
pub open spec fn received(c: Chain, h: SpvHeader, now: u32) -> Result<Chain, SpvFault> {
    if h.nonce == 0 {
        Err(SpvFault::HeaderValidation("PoS headers require full-block stake validation"@))
    } else {
        admitted(c, h, false, now)
    }
}

/// Whether a call that went from `before` to `after` and returned `r` did as `wanted` says:
/// nothing changes where an error is returned.
pub open spec fn does(
    wanted: Result<Chain, SpvFault>,
    before: Chain,
    after: Chain,
    r: Result<(), SpvError>,
) -> bool {
    match wanted {
        Ok(c) => r is Ok && after == c,
        Err(f) => r matches Err(e) && e@ == f && after == before,
    }
}

/// The chain after the first `n` headers, received at these times, and whether all were accepted.
pub open spec fn after_first(c: Chain, headers: Seq<SpvHeader>, times: Seq<u32>, n: nat) -> Result<
    Chain,
    SpvFault,
>
    decreases n,
{
    if n == 0 {
        Ok(c)
    } else {
        match after_first(c, headers, times, (n - 1) as nat) {
            Ok(d) => received(d, headers[n - 1], times[n - 1]),
            Err(f) => Err(f),
        }
    }
}

/// Whether a call took the longest prefix of acceptable headers: an error is returned only where
/// the first is not acceptable.
pub open spec fn takes_prefix(
    before: Chain,
    after: Chain,
    headers: Seq<SpvHeader>,
    times: Seq<u32>,
    r: Result<usize, SpvError>,
) -> bool {
    &&& times.len() == headers.len()
    &&& match r {
        Ok(n) => {
            &&& n <= headers.len()
            &&& after_first(before, headers, times, n as nat) == Ok::<Chain, SpvFault>(after)
            &&& n < headers.len() ==> n > 0 && received(
                after,
                headers[n as int],
                times[n as int],
            ) is Err
        },
        Err(e) => {
            &&& headers.len() > 0
            &&& received(before, headers[0], times[0]) == Err::<Chain, SpvFault>(e@)
            &&& after == before
        },
    }
}

/// The hash that is `n` headers before the tip; nothing past a header that is not stored or whose
/// parent is the zero hash.
pub open spec fn ancestor(c: Chain, n: nat) -> Option<Seq<u8>>
    decreases n,
{
    if n == 0 {
        c.best_hash
    } else {
        match ancestor(c, (n - 1) as nat) {
            None => None,
            Some(h) => if c.headers.dom().contains(h) && c.headers[h].prev_hash@ != zero_hash() {
                Some(c.headers[h].prev_hash@)
            } else {
                None
            },
        }
    }
}

/// Whether the walk back from the tip has exactly `n` hashes.
pub open spec fn walk_is(c: Chain, n: nat) -> bool {
    &&& ancestor(c, n) is None
    &&& forall|k: nat| k < n ==> #[trigger] ancestor(c, k) is Some
}

/// How far the locator goes on after `count` hashes: one at a time for the first ten, then twice
/// as far each time.
pub open spec fn stride(count: nat) -> nat {
    if count <= 10 {
        1
    } else {
        pow2((count - 10) as nat)
    }
}

/// The hashes of the locator from `at` headers before the tip on, when `count` stand before them
/// and the walk has `n`.
pub open spec fn locator_from(c: Chain, at: nat, count: nat, n: nat) -> Seq<Seq<u8>>
    decreases
            (if at >= n {
                0
            } else {
                n - at
            }),
{
    if at >= n {
        Seq::empty()
    } else {
        proof {
            if count + 1 > 10 {
                vstd::arithmetic::power2::lemma_pow2_pos((count + 1 - 10) as nat);
            }
        }
        seq![ancestor(c, at)->0] + locator_from(c, at + stride(count + 1), count + 1, n)
    }
}

/// A stored header.
#[derive(Debug, Clone, Copy)]
struct Entry {
    hash: [u8; 32],
    header: SpvHeader,
    work: u128,
}

/// A chain of block headers.
#[derive(Debug)]
pub struct SpvChain {
    entries: Vec<Entry>,
    best_hash: Option<[u8; 32]>,
    best_height: u32,
}

spec fn header_map(s: Seq<Entry>) -> Map<Seq<u8>, SpvHeader>
    decreases s.len(),
{
    if s.len() == 0 {
        Map::empty()
    } else {
        header_map(s.drop_last()).insert(s.last().hash@, s.last().header)
    }
}

spec fn work_map(s: Seq<Entry>) -> Map<Seq<u8>, nat>
    decreases s.len(),
{
    if s.len() == 0 {
        Map::empty()
    } else {
        work_map(s.drop_last()).insert(s.last().hash@, s.last().work as nat)
    }
}

spec fn distinct(s: Seq<Entry>) -> bool {
    forall|i: int, j: int|
        0 <= i < j < s.len() ==> (#[trigger] s[i]).hash@ != (#[trigger] s[j]).hash@
}

proof fn lemma_maps(s: Seq<Entry>)
    requires
        distinct(s),
    ensures
        header_map(s).dom() == work_map(s).dom(),
        forall|h: Seq<u8>|
            #[trigger] header_map(s).dom().contains(h) <==> exists|i: int|
                0 <= i < s.len() && (#[trigger] s[i]).hash@ == h,
        forall|i: int|
            0 <= i < s.len() ==> header_map(s)[(#[trigger] s[i]).hash@] == s[i].header && work_map(
                s,
            )[s[i].hash@] == s[i].work,
        header_map(s).dom().finite(),
        header_map(s).dom().len() == s.len(),
    decreases s.len(),
{
    if s.len() > 0 {
        let t = s.drop_last();
        assert forall|i: int, j: int| 0 <= i < j < t.len() implies (#[trigger] t[i]).hash@ != (
        #[trigger] t[j]).hash@ by {
            assert(t[i] == s[i] && t[j] == s[j]);
        }
        lemma_maps(t);
        let n = s.len() - 1;
        assert(header_map(s).dom() =~= header_map(t).dom().insert(s.last().hash@));
        assert(work_map(s).dom() =~= work_map(t).dom().insert(s.last().hash@));
        assert(!header_map(t).dom().contains(s.last().hash@)) by {
            if header_map(t).dom().contains(s.last().hash@) {
                let i = choose|i: int| 0 <= i < t.len() && (#[trigger] t[i]).hash@ == s.last().hash@;
                assert(s[i].hash@ != s[n].hash@);
            }
        }
        assert forall|h: Seq<u8>|
            #[trigger] header_map(s).dom().contains(h) <==> exists|i: int|
                0 <= i < s.len() && (#[trigger] s[i]).hash@ == h by {
            if header_map(t).dom().contains(h) {
                let i = choose|i: int| 0 <= i < t.len() && (#[trigger] t[i]).hash@ == h;
                assert(s[i].hash@ == h);
            }
            if h == s.last().hash@ {
                assert(s[n].hash@ == h);
            }
            if exists|i: int| 0 <= i < s.len() && (#[trigger] s[i]).hash@ == h {
                let i = choose|i: int| 0 <= i < s.len() && (#[trigger] s[i]).hash@ == h;
                if i < n {
                    assert(t[i].hash@ == h);
                }
            }
        }
        assert forall|i: int| 0 <= i < s.len() implies header_map(s)[(#[trigger] s[i]).hash@]
            == s[i].header && work_map(s)[s[i].hash@] == s[i].work by {
            if i < n {
                assert(t[i] == s[i]);
                assert(s[i].hash@ != s[n].hash@);
            }
        }
    }
}

impl View for SpvChain {
    type V = Chain;

    closed spec fn view(&self) -> Chain {
        Chain {
            headers: header_map(self.entries@),
            work: work_map(self.entries@),
            best_hash: match self.best_hash {
                Some(h) => Some(h@),
                None => None,
            },
            best_height: self.best_height,
        }
    }
}

/// What holds of every chain: work is known for the stored headers, each header is stored under
/// its hash, and the tip is stored, has its height, and no header has more work.
pub open spec fn consistent(c: Chain) -> bool {
    &&& c.headers.dom() == c.work.dom()
    &&& c.headers.dom().finite()
    &&& forall|h: Seq<u8>| #[trigger] c.headers.dom().contains(h) ==> hash_of(c.headers[h]) == h
    &&& c.best_hash is None <==> c.headers.dom().is_empty()
    &&& c.best_hash matches Some(b) ==> {
        &&& c.headers.dom().contains(b)
        &&& c.headers[b].height == c.best_height
        &&& forall|h: Seq<u8>| #[trigger] c.headers.dom().contains(h) ==> c.work[h] <= c.work[b]
    }
}

/// Adding a header keeps what holds of every chain, keeps every stored header with its work, and
/// moves the tip only to strictly more work.
pub proof fn law_adding_keeps_chain(c: Chain, h: SpvHeader, trusted: bool, now: u32, x: Seq<u8>)
    requires
        consistent(c),
        admitted(c, h, trusted, now) is Ok,
    ensures
        consistent(admitted(c, h, trusted, now)->Ok_0),
        admitted(c, h, trusted, now)->Ok_0.headers.dom().contains(hash_of(h)),
        c.headers.dom().contains(x) ==> {
            let d = admitted(c, h, trusted, now)->Ok_0;
            d.headers.dom().contains(x) && d.headers[x] == c.headers[x] && d.work[x] == c.work[x]
        },
        c.best_hash matches Some(b) ==> {
            let d = admitted(c, h, trusted, now)->Ok_0;
            d.best_hash == Some(b) || (d.best_hash == Some(hash_of(h)) && d.work[hash_of(h)]
                > c.work[b])
        },
{
    let d = admitted(c, h, trusted, now)->Ok_0;
    if !c.headers.dom().contains(hash_of(h)) {
        assert(d.headers.dom() =~= c.headers.dom().insert(hash_of(h)));
        assert(d.work.dom() =~= d.headers.dom());
        assert(d.headers.dom().contains(hash_of(h)));
    }
}

/// A header that comes to the chain, and when.
pub ghost enum Arrival {
    /// From a peer, alone or in a list.
    Peer { header: SpvHeader, now: u32 },
    /// From the local full node.
    Trusted { header: SpvHeader, now: u32 },
}

/// The chain after a header came. One that is refused changes nothing.
pub open spec fn after_arrival(c: Chain, a: Arrival) -> Chain {
    match a {
        Arrival::Peer { header, now } => match received(c, header, now) {
            Ok(d) => d,
            Err(_) => c,
        },
        Arrival::Trusted { header, now } => match admitted(c, header, true, now) {
            Ok(d) => d,
            Err(_) => c,
        },
    }
}

/// The chain after headers came, one after the other.
pub open spec fn after_arrivals(s: Seq<Arrival>) -> Chain
    decreases s.len(),
{
    if s.len() == 0 {
        no_headers()
    } else {
        after_arrival(after_arrivals(s.drop_last()), s.last())
    }
}

proof fn lemma_after_arrival(c: Chain, a: Arrival, x: Seq<u8>)
    requires
        consistent(c),
    ensures
        ({
            let d = after_arrival(c, a);
            &&& consistent(d)
            &&& c.headers.dom().contains(x) ==> d.headers.dom().contains(x) && d.work[x]
                == c.work[x]
            &&& c.best_hash matches Some(b) ==> d.best_hash == Some(b) || (d.best_hash is Some
                && d.work[d.best_hash->0] > c.work[b])
        }),
{
    match a {
        Arrival::Peer { header, now } => {
            if received(c, header, now) is Ok {
                law_adding_keeps_chain(c, header, false, now, x);
            }
        },
        Arrival::Trusted { header, now } => {
            if admitted(c, header, true, now) is Ok {
                law_adding_keeps_chain(c, header, true, now, x);
            }
        },
    }
}

/// What was stored after the first `m` headers is stored in the end, with the same work.
proof fn lemma_arrivals_kept(s: Seq<Arrival>, m: int, x: Seq<u8>)
    requires
        0 <= m <= s.len(),
    ensures
        consistent(after_arrivals(s)),
        after_arrivals(s.take(m)).headers.dom().contains(x) ==> after_arrivals(
            s,
        ).headers.dom().contains(x) && after_arrivals(s).work[x] == after_arrivals(
            s.take(m),
        ).work[x],
    decreases s.len(),
{
    if s.len() > 0 {
        let t = s.drop_last();
        if m < s.len() {
            lemma_arrivals_kept(t, m, x);
            assert(t.take(m) =~= s.take(m));
        } else {
            lemma_arrivals_kept(t, 0, x);
            assert(s.take(m) =~= s);
        }
        lemma_after_arrival(after_arrivals(t), s.last(), x);
    } else {
        assert(s.take(m) =~= s);
        assert(no_headers().headers.dom() =~= Set::empty());
        assert(no_headers().work.dom() =~= Set::empty());
    }
}

/// Whatever headers came, there is a tip exactly where one is stored. The tip is stored, the chain
/// has its height, no header has more work, and of those with as much it was stored first: as soon
/// as any of them was stored, the tip was.
pub proof fn law_first_of_most_work_is_the_tip(s: Seq<Arrival>, m: int, x: Seq<u8>)
    requires
        0 <= m <= s.len(),
    ensures
        ({
            let d = after_arrivals(s);
            let e = after_arrivals(s.take(m));
            &&& d.best_hash is None <==> d.headers.dom().is_empty()
            &&& d.best_hash matches Some(b) ==> {
                &&& d.headers.dom().contains(b)
                &&& d.best_height == d.headers[b].height
                &&& d.headers.dom().contains(x) ==> d.work[x] <= d.work[b]
                &&& e.headers.dom().contains(x) && d.work[x] == d.work[b]
                    ==> e.headers.dom().contains(b)
            }
        }),
    decreases s.len(),
{
    lemma_arrivals_kept(s, m, x);
    if s.len() > 0 && m < s.len() {
        let t = s.drop_last();
        let c = after_arrivals(t);
        law_first_of_most_work_is_the_tip(t, m, x);
        assert(t.take(m) =~= s.take(m));
        lemma_arrivals_kept(t, m, x);
        lemma_after_arrival(c, s.last(), x);
        if c.best_hash is Some {
            lemma_after_arrival(c, s.last(), c.best_hash->0);
        }
    } else {
        assert(s.take(m) =~= s);
    }
}

/// A header that is stored already changes nothing, and a header that was just added is.
pub proof fn law_adding_twice_is_adding_once(c: Chain, h: SpvHeader, trusted: bool, now: u32)
    requires
        admitted(c, h, trusted, now) is Ok,
    ensures
        admitted(admitted(c, h, trusted, now)->Ok_0, h, trusted, now) == admitted(
            c,
            h,
            trusted,
            now,
        ),
{
}

/// Any header that is accepted above a stored parent is later than it and one higher.
pub proof fn law_accepted_headers_are_linked(c: Chain, h: SpvHeader, trusted: bool, now: u32)
    requires
        admitted(c, h, trusted, now) is Ok,
        !c.headers.dom().contains(hash_of(h)),
        h.height > 0,
        c.headers.dom().contains(h.prev_hash@),
    ensures
        h.timestamp > c.headers[h.prev_hash@].timestamp,
        h.height == height_after(c.headers[h.prev_hash@].height),
        h.height == c.headers[h.prev_hash@].height + 1,
{
}

/// Whatever headers peers send, each that comes to be stored has work and is no minted block's.
pub proof fn law_peers_bring_work_only(
    c: Chain,
    headers: Seq<SpvHeader>,
    times: Seq<u32>,
    n: nat,
    x: Seq<u8>,
)
    requires
        after_first(c, headers, times, n) is Ok,
        after_first(c, headers, times, n)->Ok_0.headers.dom().contains(x),
        !c.headers.dom().contains(x),
    ensures
        ({
            let h = after_first(c, headers, times, n)->Ok_0.headers[x];
            h.nonce != 0 && x == hash_of(h) && meets_target(x, h.bits)
        }),
    decreases n,
{
    if n > 0 {
        let before = after_first(c, headers, times, (n - 1) as nat)->Ok_0;
        if before.headers.dom().contains(x) {
            law_peers_bring_work_only(c, headers, times, (n - 1) as nat, x);
        }
    }
}

proof fn lemma_walk_repeats(c: Chain, i: nat, j: nat, m: nat)
    requires
        ancestor(c, i) == ancestor(c, j),
    ensures
        ancestor(c, i + m) == ancestor(c, j + m),
    decreases m,
{
    if m > 0 {
        lemma_walk_repeats(c, i, j, (m - 1) as nat);
        assert(ancestor(c, (i + m) as nat) == ancestor(c, (j + m) as nat));
    }
}

/// A walk that ends meets each stored hash at most once, so it is no longer than the chain.
proof fn lemma_walk_bound(c: Chain, n: nat)
    requires
        walk_is(c, n),
        c.headers.dom().finite(),
    ensures
        n <= c.headers.dom().len() + 1,
{
    if n > 0 {
        let m = (n - 1) as nat;
        let seen = Seq::new(m, |k: int| ancestor(c, k as nat)->0);
        assert forall|i: int, j: int| 0 <= i < j < m implies seen[i] != seen[j] by {
            assert(ancestor(c, i as nat) is Some && ancestor(c, j as nat) is Some);
            if seen[i] == seen[j] {
                assert(ancestor(c, i as nat) == ancestor(c, j as nat));
                lemma_walk_repeats(c, i as nat, j as nat, (n - j) as nat);
                assert(ancestor(c, (i + (n - j)) as nat) is None);
                assert(ancestor(c, (i + (n - j)) as nat) is Some);
            }
        }
        assert(seen.no_duplicates());
        assert(seen.to_set().subset_of(c.headers.dom())) by {
            assert forall|h: Seq<u8>| seen.to_set().contains(h) implies c.headers.dom().contains(h)
                by {
                assert(seen.contains(h));
                let k = choose|k: int| 0 <= k < seen.len() && seen[k] == h;
                assert(ancestor(c, k as nat) is Some);
                assert(ancestor(c, (k + 1) as nat) is Some);
            }
        }
        seen.unique_seq_to_set();
        vstd::set_lib::lemma_len_subset(seen.to_set(), c.headers.dom());
    }
}

impl SpvChain {
    /// Whether no hash is stored twice and what holds of every chain holds.
    pub closed spec fn wf(&self) -> bool {
        distinct(self.entries@) && consistent(self@)
    }

    /// What holds of a chain that is well formed.
    pub proof fn lemma_wf(&self)
        requires
            self.wf(),
        ensures
            consistent(self@),
    {
    }

    /// A chain without headers.
    pub fn new() -> (c: Self)
        ensures
            c.wf(),
            c@ == no_headers(),
    {
        let c: SpvChain = SpvChain { entries: Vec::new(), best_hash: None, best_height: 0 };
        assert(c@.headers.dom() =~= Set::empty());
        assert(c@.work.dom() =~= Set::empty());
        c
    }

    fn find(&self, hash: &[u8; 32]) -> (r: Option<usize>)
        requires
            self.wf(),
        ensures
            match r {
                Some(i) => i < self.entries@.len() && self.entries@[i as int].hash@ == hash@
                    && self@.headers.dom().contains(hash@) && self@.headers[hash@]
                    == self.entries@[i as int].header && self@.work[hash@]
                    == self.entries@[i as int].work,
                None => !self@.headers.dom().contains(hash@),
            },
    {
        let mut i: usize = 0;
        while i < self.entries.len()
            invariant
                self.wf(),
                i <= self.entries@.len(),
                forall|k: int| 0 <= k < i ==> (#[trigger] self.entries@[k]).hash@ != hash@,
            decreases self.entries@.len() - i,
        {
            if same_bytes(self.entries[i].hash.as_slice(), hash.as_slice()) {
                proof {
                    lemma_maps(self.entries@);
                    assert(self.entries@[i as int].hash@ == hash@);
                }
                return Some(i);
            }
            i = i + 1;
        }
        proof {
            lemma_maps(self.entries@);
        }
        None
    }

    /// Adds a header, with or without its work being checked, when the clock stands at `now`.
    pub fn add_header_inner(&mut self, header: SpvHeader, trusted: bool, now: u32) -> (r: Result<
        (),
        SpvError,
    >)
        requires
            old(self).wf(),
        ensures
            final(self).wf(),
            does(admitted(old(self)@, header, trusted, now), old(self)@, final(self)@, r),
    {
        let ghost c = self@;
        let hash: [u8; 32] = header.hash();
        proof {
            lemma_maps(self.entries@);
            assert(self.entries@.len() == 0 <==> c.headers.dom().is_empty()) by {
                if self.entries@.len() > 0 {
                    assert(c.headers.dom().contains(self.entries@[0].hash@));
                } else {
                    assert(c.headers.dom() =~= Set::empty());
                }
            }
        }
        if self.find(&hash).is_some() {
            return Ok(());
        }
        let parent: Option<usize> = if header.height > 0 {
            self.find(&header.prev_hash)
        } else {
            None
        };
        if header.height > 0 && parent.is_none() && !(trusted && self.entries.len() == 0) {
            return Err(SpvError::UnknownParent(hex_encode(header.prev_hash.as_slice())));
        }
        if !trusted && !hash_meets_target(&hash, header.bits) {
            let mut m: String = "hash ".to_owned();
            m.append(hex_encode(hash.as_slice()).as_str());
            m.append(" does not meet target ");
            let mut b: Vec<u8> = Vec::new();
            push_u32_be(&mut b, header.bits);
            m.append(hex_encode(b.as_slice()).as_str());
            assert(b@ =~= be_digits(header.bits as nat, 4));
            return Err(SpvError::HeaderValidation(m));
        }
        if header.timestamp as u64 > now as u64 + MAX_FUTURE_SECONDS {
            return Err(future_header(header.timestamp));
        }
        let mut below: u128 = 0;
        if let Some(i) = parent {
            let p: SpvHeader = self.entries[i].header;
            if header.timestamp <= p.timestamp {
                return Err(
                    SpvError::HeaderValidation(
                        "header timestamp must exceed parent timestamp".to_owned(),
                    ),
                );
            }
            let expected: u32 = next_height(p.height);
            if header.height != expected {
                return Err(SpvError::HeightMismatch { expected, got: header.height });
            }
            below = self.entries[i].work;
        }
        let work: u128 = below.saturating_add(header_work(header.bits));
        assert(work == work_with(c, header));
        let moves: bool = match self.best_hash {
            None => true,
            Some(b) => match self.find(&b) {
                Some(i) => work > self.entries[i].work,
                None => true,
            },
        };
        let ghost before = self.entries@;
        self.entries.push(Entry { hash, header, work });
        if moves {
            self.best_hash = Some(hash);
            self.best_height = header.height;
        }
        proof {
            let s = self.entries@;
            assert(s.drop_last() =~= before);
            assert(c.best_hash matches Some(b) ==> b != hash@);
            assert(self@ =~= extended(c, header));
            assert forall|i: int, j: int| 0 <= i < j < s.len() implies (#[trigger] s[i]).hash@ != (
            #[trigger] s[j]).hash@ by {
                assert(s[i] == before[i]);
                if j < before.len() {
                    assert(s[j] == before[j]);
                } else {
                    assert(c.headers.dom().contains(before[i].hash@));
                }
            }
            law_adding_keeps_chain(c, header, trusted, now, hash@);
        }
        Ok(())
    }

    /// Adds a header from a peer. The headers of minted blocks are refused; the others need work,
    /// a stored parent, and a time after their parent's and not too far ahead of the clock.
    pub fn add_header(&mut self, header: SpvHeader) -> (r: Result<(), SpvError>)
        requires
            old(self).wf(),
        ensures
            final(self).wf(),
            exists|now: u32|
                #[trigger] does(received(old(self)@, header, now), old(self)@, final(self)@, r),
    {
        let now: u32 = unix_seconds() as u32;
        let r: Result<(), SpvError> = self.add_header_at(header, now);
        assert(does(received(old(self)@, header, now), old(self)@, self@, r));
        r
    }

    /// Adds a header from a peer when the clock stands at `now`.
    pub fn add_header_at(&mut self, header: SpvHeader, now: u32) -> (r: Result<(), SpvError>)
        requires
            old(self).wf(),
        ensures
            final(self).wf(),
            does(received(old(self)@, header, now), old(self)@, final(self)@, r),
    {
        if header.is_pos() {
            return Err(
                SpvError::HeaderValidation(
                    "PoS headers require full-block stake validation".to_owned(),
                ),
            );
        }
        self.add_header_inner(header, false, now)
    }

    /// Adds a header that a full node has checked.
    pub fn add_trusted_header(&mut self, header: SpvHeader) -> (r: Result<(), SpvError>)
        requires
            old(self).wf(),
        ensures
            final(self).wf(),
            exists|now: u32|
                #[trigger] does(
                    admitted(old(self)@, header, true, now),
                    old(self)@,
                    final(self)@,
                    r,
                ),
    {
        let now: u32 = unix_seconds() as u32;
        let r: Result<(), SpvError> = self.add_header_inner(header, true, now);
        assert(does(admitted(old(self)@, header, true, now), old(self)@, self@, r));
        r
    }

    /// Checks a minted block's header against its stake proof, and refuses it in any case: such a
    /// proof says nothing of the outputs after the block.
    pub fn add_pos_header(&mut self, header: SpvHeader, stake: StakeProof) -> (r: Result<
        (),
        SpvError,
    >)
        requires
            old(self).wf(),
        ensures
            final(self).wf(),
            final(self)@ == old(self)@,
            r matches Err(e) && exists|now: u32|
                e@ == #[trigger] pos_fault(parent_of(old(self)@, header), header, stake, now),
    {
        let now: u32 = unix_seconds() as u32;
        self.add_pos_header_at(header, &stake, now)
    }

    /// Checks a minted block's header against its stake proof when the clock stands at `now`.
    pub fn add_pos_header_at(&mut self, header: SpvHeader, stake: &StakeProof, now: u32) -> (r:
        Result<(), SpvError>)
        requires
            old(self).wf(),
        ensures
            final(self).wf(),
            final(self)@ == old(self)@,
            r matches Err(e) && e@ == pos_fault(parent_of(old(self)@, header), header, *stake, now),
    {
        let parent: Option<SpvHeader> = match self.find(&header.prev_hash) {
            Some(i) => Some(self.entries[i].header),
            None => None,
        };
        Err(check_pos_header(parent, &header, stake, now))
    }

    /// Adds headers in sequence up to the first that is not acceptable, and says how many were.
    pub fn add_headers(&mut self, headers: Vec<SpvHeader>) -> (r: Result<usize, SpvError>)
        requires
            old(self).wf(),
        ensures
            final(self).wf(),
            exists|times: Seq<u32>|
                #[trigger] takes_prefix(old(self)@, final(self)@, headers@, times, r),
    {
        let ghost c = self@;
        let ghost mut times: Seq<u32> = Seq::new(headers@.len(), |i: int| 0u32);
        let mut added: usize = 0;
        while added < headers.len()
            invariant
                self.wf(),
                c == old(self)@,
                times.len() == headers@.len(),
                added <= headers@.len(),
                after_first(c, headers@, times, added as nat) == Ok::<Chain, SpvFault>(self@),
            decreases headers@.len() - added,
        {
            let now: u32 = unix_seconds() as u32;
            let ghost before = self@;
            proof {
                let later = times.update(added as int, now);
                lemma_times_before(c, headers@, times, later, added as nat);
                times = later;
            }
            match self.add_header_at(headers[added], now) {
                Ok(_) => {
                    added = added + 1;
                },
                Err(e) => {
                    if added == 0 {
                        let r: Result<usize, SpvError> = Err(e);
                        assert(takes_prefix(c, self@, headers@, times, r));
                        return r;
                    }
                    let r: Result<usize, SpvError> = Ok(added);
                    assert(takes_prefix(c, self@, headers@, times, r));
                    return r;
                },
            }
        }
        let r: Result<usize, SpvError> = Ok(added);
        assert(takes_prefix(c, self@, headers@, times, r));
        r
    }

    /// The height of the tip; zero without headers.
    pub fn best_height(&self) -> (r: u32)
        ensures
            r == self@.best_height,
    {
        self.best_height
    }

    /// The hash of the tip.
    pub fn best_hash(&self) -> (r: Option<[u8; 32]>)
        ensures
            match r {
                Some(h) => self@.best_hash == Some(h@),
                None => self@.best_hash is None,
            },
    {
        self.best_hash
    }

    /// The header with this hash.
    pub fn get_header(&self, hash: &[u8; 32]) -> (r: Option<&SpvHeader>)
        requires
            self.wf(),
        ensures
            match r {
                Some(h) => self@.headers.dom().contains(hash@) && *h == self@.headers[hash@],
                None => !self@.headers.dom().contains(hash@),
            },
    {
        match self.find(hash) {
            Some(i) => Some(&self.entries[i].header),
            None => None,
        }
    }

    /// The number of stored headers.
    pub fn len(&self) -> (r: usize)
        requires
            self.wf(),
        ensures
            r == self@.headers.dom().len(),
    {
        proof {
            lemma_maps(self.entries@);
        }
        self.entries.len()
    }

    /// Whether no header is stored.
    pub fn is_empty(&self) -> (r: bool)
        requires
            self.wf(),
        ensures
            r == self@.headers.dom().is_empty(),
    {
        proof {
            lemma_maps(self.entries@);
            if self.entries@.len() > 0 {
                assert(self@.headers.dom().contains(self.entries@[0].hash@));
            } else {
                assert(self@.headers.dom() =~= Set::empty());
            }
        }
        self.entries.len() == 0
    }

    /// Accepts a proof exactly when the block is stored and the proof leads to its root.
    pub fn verify_tx_inclusion(&self, block_hash: &[u8; 32], inclusion: &MerkleProof) -> (r: Result<
        (),
        SpvError,
    >)
        requires
            self.wf(),
        ensures
            match tx_inclusion_of(self@, block_hash@, *inclusion) {
                Ok(_) => r is Ok,
                Err(f) => r matches Err(e) && e@ == f,
            },
    {
        match self.find(block_hash) {
            None => Err(SpvError::UnknownParent(hex_encode(block_hash.as_slice()))),
            Some(i) => inclusion.verify(&self.entries[i].header.merkle_root),
        }
    }

    /// The hash before a hash, unless it is not stored or the zero hash is before it.
    fn before(&self, hash: &[u8; 32]) -> (r: Option<[u8; 32]>)
        requires
            self.wf(),
        ensures
            match r {
                Some(p) => self@.headers.dom().contains(hash@)
                    && self@.headers[hash@].prev_hash@ == p@ && p@ != zero_hash(),
                None => !self@.headers.dom().contains(hash@)
                    || self@.headers[hash@].prev_hash@ == zero_hash(),
            },
    {
        match self.find(hash) {
            None => None,
            Some(i) => {
                let p: [u8; 32] = self.entries[i].header.prev_hash;
                let zero: [u8; 32] = [0u8; 32];
                assert(zero@ =~= zero_hash());
                if same_bytes(p.as_slice(), zero.as_slice()) {
                    None
                } else {
                    Some(p)
                }
            },
        }
    }

    /// The hashes from the tip back, as many as there are stored headers and one more.
    fn walk(&self) -> (trail: Vec<[u8; 32]>)
        requires
            self.wf(),
        ensures
            forall|n: nat| #[trigger]
                walk_is(self@, n) ==> n == trail@.len() && forall|k: int|
                    0 <= k < n ==> ancestor(self@, k as nat) == Some((#[trigger] trail@[k])@),
    {
        let ghost c = self@;
        let size: usize = self.entries.len();
        proof {
            lemma_maps(self.entries@);
            assert forall|n: nat| #[trigger] walk_is(c, n) implies n <= size + 1 by {
                lemma_walk_bound(c, n);
            }
        }
        let mut trail: Vec<[u8; 32]> = Vec::new();
        let mut current: Option<[u8; 32]> = self.best_hash;
        while trail.len() <= size
            invariant
                self.wf(),
                c == self@,
                trail@.len() <= size + 1,
                forall|k: int|
                    0 <= k < trail@.len() ==> ancestor(c, k as nat) == Some((#[trigger] trail@[k])@),
                match current {
                    Some(h) => ancestor(c, trail@.len()) == Some(h@),
                    None => ancestor(c, trail@.len()) is None,
                },
            decreases size + 1 - trail@.len(),
        {
            match current {
                None => {
                    assert forall|n: nat| #[trigger] walk_is(c, n) implies n == trail@.len() by {
                        if n < trail@.len() {
                            assert(ancestor(c, n) == Some(trail@[n as int]@));
                        }
                        if n > trail@.len() {
                            assert(ancestor(c, trail@.len()) is Some);
                        }
                    }
                    return trail;
                },
                Some(h) => {
                    let ghost n = trail@.len();
                    current = self.before(&h);
                    trail.push(h);
                    assert(ancestor(c, n) == Some(h@));
                    assert(trail@.len() == n + 1);
                },
            }
        }
        assert forall|n: nat| #[trigger] walk_is(c, n) implies n == trail@.len() by {
            if n < trail@.len() {
                assert(ancestor(c, n) == Some(trail@[n as int]@));
            }
        }
        trail
    }

    /// The hashes to ask a peer with: the tip, the ten before it, and then ever sparser ones.
    /// What is returned is stated where the walk back from the tip ends, as it does unless the
    /// hashes of stored headers form a circle.
    pub fn get_locator(&self) -> (r: Vec<[u8; 32]>)
        requires
            self.wf(),
        ensures
            forall|n: nat| #[trigger]
                walk_is(self@, n) ==> nodes(r@) == locator_from(self@, 0, 0, n),
    {
        let ghost c = self@;
        let trail: Vec<[u8; 32]> = self.walk();
        let ghost end = trail@.len();
        let mut locator: Vec<[u8; 32]> = Vec::new();
        if trail.len() == 0 {
            assert(nodes(locator@) =~= locator_from(c, 0, 0, 0));
            return locator;
        }
        let mut at: usize = 0;
        let mut count: usize = 0;
        let mut step: usize = 1;
        assert(nodes(locator@) + locator_from(c, 0, 0, end) =~= locator_from(c, 0, 0, end));
        loop
            invariant
                c == self@,
                end == trail@.len(),
                at < trail.len(),
                count <= at,
                step == stride(count as nat),
                walk_is(c, end) ==> forall|k: int|
                    0 <= k < end ==> ancestor(c, k as nat) == Some((#[trigger] trail@[k])@),
                walk_is(c, end) ==> locator_from(c, 0, 0, end) == nodes(locator@) + locator_from(
                    c,
                    at as nat,
                    count as nat,
                    end,
                ),
                forall|n: nat| #[trigger] walk_is(c, n) ==> n == end,
            decreases trail.len() - at,
        {
            let ghost before = locator@;
            let ghost rest = locator_from(
                c,
                at as nat + stride(count as nat + 1),
                count as nat + 1,
                end,
            );
            locator.push(trail[at]);
            let left: usize = trail.len() - at;
            count = count + 1;
            proof {
                assert(nodes(locator@) =~= nodes(before).push(trail@[at as int]@));
                if walk_is(c, end) {
                    assert(ancestor(c, at as nat) == Some(trail@[at as int]@));
                    assert(locator_from(c, at as nat, (count - 1) as nat, end) == seq![
                        trail@[at as int]@,
                    ] + rest);
                    assert(nodes(before) + (seq![trail@[at as int]@] + rest) =~= nodes(locator@)
                        + rest);
                }
                if count > 11 {
                    vstd::arithmetic::power2::lemma_pow2_unfold((count - 10) as nat);
                } else if count == 11 {
                    vstd::arithmetic::power2::lemma2_to64();
                }
                vstd::arithmetic::power2::lemma_pow2_pos((count - 10) as nat);
            }
            if count > 10 {
                if step > left / 2 {
                    assert(stride(count as nat) >= left);
                    assert(nodes(locator@) + rest =~= nodes(locator@));
                    return locator;
                }
                step = 2 * step;
            }
            if step >= left {
                assert(nodes(locator@) + rest =~= nodes(locator@));
                return locator;
            }
            at = at + step;
        }
    }
}

/// What checking a proof against a stored block gives.
pub open spec fn tx_inclusion_of(c: Chain, block_hash: Seq<u8>, inclusion: MerkleProof) -> Result<
    (),
    SpvFault,
> {
    if !c.headers.dom().contains(block_hash) {
        Err(SpvFault::UnknownParent(hex_text(block_hash)))
    } else {
        let root = c.headers[block_hash].merkle_root@;
        let reached = climb(inclusion.txid@, steps(inclusion.siblings@));
        if reached == root {
            Ok(())
        } else {
            Err(SpvFault::InvalidMerkleProof(wrong_root_text(reached, root)))
        }
    }
}

proof fn lemma_times_before(
    c: Chain,
    headers: Seq<SpvHeader>,
    a: Seq<u32>,
    b: Seq<u32>,
    n: nat,
)
    requires
        n <= a.len() == b.len(),
        forall|i: int| 0 <= i < n ==> a[i] == b[i],
    ensures
        after_first(c, headers, a, n) == after_first(c, headers, b, n),
    decreases n,
{
    if n > 0 {
        lemma_times_before(c, headers, a, b, (n - 1) as nat);
    }
}

pub(crate) fn future_header(timestamp: u32) -> (e: SpvError)
    ensures
        e@ == SpvFault::HeaderValidation(future_text(timestamp)),
{
    let mut m: String = "header timestamp ".to_owned();
    push_decimal(&mut m, timestamp as u64);
    m.append(" too far in the future");
    SpvError::HeaderValidation(m)
}

pub(crate) fn next_height(h: u32) -> (r: u32)
    ensures
        r == height_after(h),
{
    if h == u32::MAX {
        0
    } else {
        h + 1
    }
}

impl Default for SpvChain {
    fn default() -> (c: Self)
        ensures
            c.wf(),
            c@ == (Chain {
                headers: Map::empty(),
                work: Map::empty(),
                best_hash: None,
                best_height: 0,
            }),
    {
        SpvChain::new()
    }
}

} // verus!
