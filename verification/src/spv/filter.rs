//! Compact block filters: which scripts a block may concern, without telling anyone who asks.
use crate::bytes::append_slice;
use crate::bytes::le_value;
use crate::bytes::read_u64_le;
use crate::bytes::same_bytes;
use crate::crypto::sha256d;
use crate::crypto::sha256d_of;
use crate::spv::golomb::code_all;
use crate::spv::golomb::gap;
use crate::spv::golomb::gcs_decode;
use crate::spv::golomb::gcs_encode;
use crate::spv::golomb::law_gcs_roundtrip;
use crate::spv::golomb::non_decreasing;
use crate::spv::golomb::numbers_at;
use crate::spv::golomb::packs;
use crate::spv::golomb::sums_fit;
use crate::spv::golomb::MAX_QUOTIENT;
use vstd::arithmetic::power2::pow2;
use vstd::prelude::*;

verus! {

/// The number of bits of a remainder: a stranger matches once in `2^19` times.
pub const GCS_P: u8 = 19;

/// `2^19`.
pub const GCS_SCALE: u64 = 524_288;

// ---- the keyed hash ----

/// The state of the keyed hash.
#[derive(Clone, Copy)]
pub struct SipState {
    pub v0: u64,
    pub v1: u64,
    pub v2: u64,
    pub v3: u64,
}

/// A 64-bit word turned to the left.
pub open spec fn turned_left(x: u64, n: u64) -> u64 {
    (x << n) | (x >> ((64 - n) as u64))
}

fn turn_left(x: u64, n: u64) -> (r: u64)
    requires
        0 < n < 64,
    ensures
        r == turned_left(x, n),
{
    (x << n) | (x >> (64 - n))
}

/// One round of the hash.
pub open spec fn sip_round_of(s: SipState) -> SipState {
    let a0 = s.v0.wrapping_add(s.v1);
    let a1 = turned_left(s.v1, 13) ^ a0;
    let a2 = s.v2.wrapping_add(s.v3);
    let a3 = turned_left(s.v3, 16) ^ a2;
    let b0 = turned_left(a0, 32).wrapping_add(a3);
    let b2 = a2.wrapping_add(a1);
    SipState {
        v0: b0,
        v1: turned_left(a1, 17) ^ b2,
        v2: turned_left(b2, 32),
        v3: turned_left(a3, 21) ^ b0,
    }
}

fn sip_round(s: SipState) -> (r: SipState)
    ensures
        r == sip_round_of(s),
{
    let a0: u64 = s.v0.wrapping_add(s.v1);
    let a1: u64 = turn_left(s.v1, 13) ^ a0;
    let a2: u64 = s.v2.wrapping_add(s.v3);
    let a3: u64 = turn_left(s.v3, 16) ^ a2;
    let b0: u64 = turn_left(a0, 32).wrapping_add(a3);
    let b2: u64 = a2.wrapping_add(a1);
    SipState {
        v0: b0,
        v1: turn_left(a1, 17) ^ b2,
        v2: turn_left(b2, 32),
        v3: turn_left(a3, 21) ^ b0,
    }
}

/// The state after one word of input.
pub open spec fn sip_absorbed(s: SipState, m: u64) -> SipState {
    let t = sip_round_of(sip_round_of(SipState { v3: s.v3 ^ m, ..s }));
    SipState { v0: t.v0 ^ m, ..t }
}

fn sip_absorb(s: SipState, m: u64) -> (r: SipState)
    ensures
        r == sip_absorbed(s, m),
{
    let start: SipState = SipState { v0: s.v0, v1: s.v1, v2: s.v2, v3: s.v3 ^ m };
    let t: SipState = sip_round(sip_round(start));
    SipState { v0: t.v0 ^ m, v1: t.v1, v2: t.v2, v3: t.v3 }
}

/// The state before any input.
pub open spec fn sip_start(key: Seq<u8>) -> SipState {
    let k0 = le_value(key.subrange(0, 8)) as u64;
    let k1 = le_value(key.subrange(8, 16)) as u64;
    SipState {
        v0: k0 ^ 0x736f6d6570736575u64,
        v1: k1 ^ 0x646f72616e646f6du64,
        v2: k0 ^ 0x6c7967656e657261u64,
        v3: k1 ^ 0x7465646279746573u64,
    }
}

/// The state after the first `n` words of eight bytes.
pub open spec fn sip_words(key: Seq<u8>, data: Seq<u8>, n: nat) -> SipState
    decreases n,
{
    if n == 0 {
        sip_start(key)
    } else {
        let m = n - 1;
        sip_absorbed(
            sip_words(key, data, m as nat),
            le_value(data.subrange(8 * m, 8 * m + 8)) as u64,
        )
    }
}

/// The keyed 64-bit hash SipHash-2-4 of a byte string.
pub open spec fn siphash_of(key: Seq<u8>, data: Seq<u8>) -> u64 {
    let words = data.len() / 8;
    let tail = data.skip(8 * words as int);
    let last = (le_value(tail) + (data.len() % 256) * 0x100_0000_0000_0000) as u64;
    let s = sip_absorbed(sip_words(key, data, words), last);
    let t = sip_round_of(
        sip_round_of(sip_round_of(sip_round_of(SipState { v2: s.v2 ^ 0xff, ..s }))),
    );
    t.v0 ^ t.v1 ^ t.v2 ^ t.v3
}

/// The keyed 64-bit hash SipHash-2-4 of a byte string.
pub fn siphash(key: &[u8; 16], data: &[u8]) -> (r: u64)
    ensures
        r == siphash_of(key@, data@),
{
    let k0: u64 = read_u64_le(key.as_slice(), 0);
    let k1: u64 = read_u64_le(key.as_slice(), 8);
    let mut s: SipState = SipState {
        v0: k0 ^ 0x736f6d6570736575u64,
        v1: k1 ^ 0x646f72616e646f6du64,
        v2: k0 ^ 0x6c7967656e657261u64,
        v3: k1 ^ 0x7465646279746573u64,
    };
    let words: usize = data.len() / 8;
    let mut i: usize = 0;
    while i < words
        invariant
            i <= words,
            words == data.len() / 8,
            s == sip_words(key@, data@, i as nat),
        decreases words - i,
    {
        s = sip_absorb(s, read_u64_le(data, 8 * i));
        i = i + 1;
    }
    let at: usize = 8 * words;
    let ghost tail = data@.skip(at as int);
    let mut m: u64 = 0;
    let mut left: usize = data.len();
    assert(tail.skip(left - at) =~= Seq::<u8>::empty());
    proof {
        crate::bytes::lemma_pow256_values();
    }
    while left > at
        invariant
            at <= left <= data.len(),
            data.len() - at < 8,
            tail == data@.skip(at as int),
            m == le_value(tail.skip(left - at)),
            crate::bytes::pow256(7) == 0x100_0000_0000_0000,
            crate::bytes::pow256(6) == 0x1_0000_0000_0000,
        decreases left,
    {
        left = left - 1;
        proof {
            let t = tail.skip(left - at);
            assert(t[0] == data@[left as int]);
            assert(t.skip(1) =~= tail.skip(left - at + 1));
            crate::bytes::lemma_le_value_bound(t.skip(1));
            lemma_pow256_monotone(t.skip(1).len(), 6);
        }
        m = data[left] as u64 + 256 * m;
    }
    proof {
        assert(tail.skip(0) =~= tail);
        crate::bytes::lemma_le_value_bound(tail);
        lemma_pow256_monotone(tail.len(), 7);
    }
    m = m + (data.len() % 256) as u64 * 0x100_0000_0000_0000;
    s = sip_absorb(s, m);
    let start: SipState = SipState { v0: s.v0, v1: s.v1, v2: s.v2 ^ 0xff, v3: s.v3 };
    let t: SipState = sip_round(sip_round(sip_round(sip_round(start))));
    t.v0 ^ t.v1 ^ t.v2 ^ t.v3
}

proof fn lemma_pow256_monotone(a: nat, b: nat)
    requires
        a <= b,
    ensures
        crate::bytes::pow256(a) <= crate::bytes::pow256(b),
    decreases b,
{
    if a < b {
        lemma_pow256_monotone(a, (b - 1) as nat);
    }
}

// ---- block filters ----

/// The range of hashes for `n` elements.
pub open spec fn hash_range(n: nat) -> nat {
    let least = if n == 0 {
        1
    } else {
        n
    };
    if least * GCS_SCALE > u64::MAX {
        u64::MAX as nat
    } else {
        least * GCS_SCALE as nat
    }
}

/// The number that stands for a script in a filter of this range.
pub open spec fn script_number(key: Seq<u8>, script: Seq<u8>, range: nat) -> u64 {
    (siphash_of(key, script) as nat % range) as u64
}

/// Whether the numbers increase strictly.
pub open spec fn increasing(values: Seq<u64>) -> bool {
    forall|i: int, j: int| 0 <= i < j < values.len() ==> values[i] < values[j]
}

/// Whether `hashes` are the hashes of the scripts, each once, in increasing order.
pub open spec fn lists_hashes(hashes: Seq<u64>, key: Seq<u8>, scripts: Seq<Vec<u8>>) -> bool {
    &&& increasing(hashes)
    &&& forall|x: u64|
        #[trigger] hashes.contains(x) <==> exists|i: int|
            0 <= i < scripts.len() && #[trigger] siphash_of(key, scripts[i]@) == x
}

/// The hashes reduced to the range for as many elements.
pub open spec fn reduced(hashes: Seq<u64>) -> Seq<u64> {
    hashes.map_values(|h: u64| (h as nat % hash_range(hashes.len())) as u64)
}

/// Whether `values` are the numbers of the scripts in order: one for each hash, so that equal
/// scripts count once.
pub open spec fn are_numbers_of(values: Seq<u64>, key: Seq<u8>, scripts: Seq<Vec<u8>>) -> bool {
    &&& non_decreasing(values)
    &&& exists|hashes: Seq<u64>| #[trigger]
        lists_hashes(hashes, key, scripts) && values.to_multiset() == reduced(hashes).to_multiset()
}

/// A compact filter for one block.
#[derive(Debug, Clone)]
pub struct BlockFilter {
    /// The hash of the block.
    pub block_hash: [u8; 32],
    /// The height of the block.
    pub height: u32,
    /// The coded numbers.
    pub filter_bytes: Vec<u8>,
    /// How many numbers are coded.
    pub n_elements: u32,
    key: [u8; 16],
}

/// What a filter holds.
#[verifier::ext_equal]
pub struct Filter {
    pub block_hash: Seq<u8>,
    pub height: u32,
    pub filter_bytes: Seq<u8>,
    pub n_elements: u32,
    pub key: Seq<u8>,
}

impl View for BlockFilter {
    type V = Filter;

    closed spec fn view(&self) -> Filter {
        Filter {
            block_hash: self.block_hash@,
            height: self.height,
            filter_bytes: self.filter_bytes@,
            n_elements: self.n_elements,
            key: self.key@,
        }
    }
}

/// Whether `f` is the filter of these scripts; its key is the first half of the block hash.
pub open spec fn is_filter_of(
    f: Filter,
    block_hash: Seq<u8>,
    height: u32,
    scripts: Seq<Vec<u8>>,
) -> bool {
    &&& f.block_hash == block_hash
    &&& f.height == height
    &&& f.key == block_hash.take(16)
    &&& exists|values: Seq<u64>|
        #[trigger] are_numbers_of(values, block_hash.take(16), scripts) && f.n_elements
            == values.len() as u32 && packs(f.filter_bytes, code_all(values, GCS_P as nat))
}

/// Whether one of the scripts is reported by the filter.
pub open spec fn reports_any(f: Filter, scripts: Seq<Vec<u8>>) -> bool {
    &&& f.filter_bytes.len() > 0
    &&& exists|i: int|
        0 <= i < scripts.len() && numbers_at(
            f.filter_bytes,
            0,
            f.n_elements as nat,
            0,
            GCS_P as nat,
        ).contains(
            #[trigger] script_number(f.key, scripts[i]@, hash_range(f.n_elements as nat)),
        )
}

fn range_for(n: u64) -> (r: u64)
    ensures
        r == hash_range(n as nat),
        r > 0,
{
    let least: u64 = if n == 0 {
        1
    } else {
        n
    };
    if least > u64::MAX / GCS_SCALE {
        u64::MAX
    } else {
        least * GCS_SCALE
    }
}

/// Where `x` stands or belongs: all before are smaller, all from there on are not.
fn place_of(values: &Vec<u64>, x: u64) -> (at: usize)
    requires
        non_decreasing(values@),
    ensures
        at <= values@.len(),
        forall|k: int| 0 <= k < at ==> #[trigger] values@[k] < x,
        forall|k: int| at <= k < values@.len() ==> #[trigger] values@[k] >= x,
{
    let mut lo: usize = 0;
    let mut hi: usize = values.len();
    while lo < hi
        invariant
            non_decreasing(values@),
            lo <= hi <= values@.len(),
            forall|k: int| 0 <= k < lo ==> #[trigger] values@[k] < x,
            forall|k: int| hi <= k < values@.len() ==> #[trigger] values@[k] >= x,
        decreases hi - lo,
    {
        let mid: usize = lo + (hi - lo) / 2;
        if values[mid] < x {
            lo = mid + 1;
        } else {
            hi = mid;
        }
    }
    lo
}

fn holds(values: &Vec<u64>, x: u64) -> (r: bool)
    requires
        non_decreasing(values@),
    ensures
        r == values@.contains(x),
{
    let at: usize = place_of(values, x);
    if at < values.len() && values[at] == x {
        assert(values@[at as int] == x);
        true
    } else {
        assert forall|k: int| 0 <= k < values@.len() implies values@[k] != x by {
            if k >= at {
                assert(values@[at as int] <= values@[k]);
                assert(values@[at as int] >= x);
            }
        }
        false
    }
}

fn add_number(values: &mut Vec<u64>, x: u64)
    requires
        increasing(old(values)@),
    ensures
        increasing(final(values)@),
        forall|y: u64|
            #[trigger] final(values)@.contains(y) <==> (old(values)@.contains(y) || y == x),
{
    let ghost before = values@;
    let at: usize = place_of(values, x);
    if at < values.len() && values[at] == x {
        assert(values@[at as int] == x);
        return ;
    }
    values.insert(at, x);
    proof {
        let after = values@;
        assert(after =~= before.insert(at as int, x));
        assert(after[at as int] == x);
        assert forall|i: int, j: int| 0 <= i < j < after.len() implies after[i] < after[j] by {
            let bi = if i < at { i } else { i - 1 };
            let bj = if j < at { j } else { j - 1 };
            if i != at {
                assert(after[i] == before[bi]);
            }
            if j != at {
                assert(after[j] == before[bj]);
            }
            if i == at {
                assert(before[bj] >= x && before[at as int] != x);
                assert(before[at as int] <= before[bj]);
            }
        }
        assert forall|y: u64| #[trigger] after.contains(y) <==> (before.contains(y) || y == x) by {
            if before.contains(y) {
                let k = choose|k: int| 0 <= k < before.len() && before[k] == y;
                if k < at {
                    assert(after[k] == y);
                } else {
                    assert(after[k + 1] == y);
                }
            }
            if after.contains(y) && y != x {
                let k = choose|k: int| 0 <= k < after.len() && after[k] == y;
                if k < at {
                    assert(before[k] == y);
                } else {
                    assert(before[k - 1] == y);
                }
            }
        }
    }
}

/// Adds a number, in order, also where it is there already.
fn add_repeated(values: &mut Vec<u64>, x: u64)
    requires
        non_decreasing(old(values)@),
    ensures
        non_decreasing(final(values)@),
        final(values)@.to_multiset() == old(values)@.to_multiset().insert(x),
{
    broadcast use vstd::seq_lib::group_to_multiset_ensures;

    let ghost before = values@;
    let at: usize = place_of(values, x);
    values.insert(at, x);
    proof {
        let after = values@;
        assert(after =~= before.insert(at as int, x));
        assert forall|i: int, j: int| 0 <= i < j < after.len() implies after[i] <= after[j] by {
            let bi = if i < at { i } else { i - 1 };
            let bj = if j < at { j } else { j - 1 };
            if i != at {
                assert(after[i] == before[bi]);
            }
            if j != at {
                assert(after[j] == before[bj]);
            }
        }
    }
}

proof fn lemma_scale()
    ensures
        pow2(GCS_P as nat) == GCS_SCALE,
{
    vstd::arithmetic::power2::lemma2_to64();
}

impl BlockFilter {
    /// Builds the filter of the scripts that a block spends or creates.
    pub fn build(block_hash: [u8; 32], height: u32, scripts: &[Vec<u8>]) -> (f: Self)
        ensures
            is_filter_of(f@, block_hash@, height, scripts@),
    {
        let key: [u8; 16] = [
            block_hash[0],
            block_hash[1],
            block_hash[2],
            block_hash[3],
            block_hash[4],
            block_hash[5],
            block_hash[6],
            block_hash[7],
            block_hash[8],
            block_hash[9],
            block_hash[10],
            block_hash[11],
            block_hash[12],
            block_hash[13],
            block_hash[14],
            block_hash[15],
        ];
        assert(key@ =~= block_hash@.take(16));
        let mut hashes: Vec<u64> = Vec::new();
        let mut i: usize = 0;
        while i < scripts.len()
            invariant
                i <= scripts@.len(),
                increasing(hashes@),
                forall|x: u64|
                    #[trigger] hashes@.contains(x) <==> exists|k: int|
                        0 <= k < i && #[trigger] siphash_of(key@, scripts@[k]@) == x,
            decreases scripts@.len() - i,
        {
            let ghost before = hashes@;
            let x: u64 = siphash(&key, scripts[i].as_slice());
            assert(x == siphash_of(key@, scripts@[i as int]@));
            add_number(&mut hashes, x);
            proof {
                assert forall|y: u64| #[trigger] hashes@.contains(y) <==> exists|k: int|
                    0 <= k < i + 1 && #[trigger] siphash_of(key@, scripts@[k]@) == y by {
                    if before.contains(y) {
                        let k = choose|k: int|
                            0 <= k < i && #[trigger] siphash_of(key@, scripts@[k]@) == y;
                        assert(0 <= k < i + 1 && siphash_of(key@, scripts@[k]@) == y);
                    }
                }
            }
            i = i + 1;
        }
        assert(lists_hashes(hashes@, key@, scripts@));
        let range: u64 = range_for(hashes.len() as u64);
        let mut values: Vec<u64> = Vec::new();
        let mut j: usize = 0;
        assert(reduced(hashes@).take(0) =~= values@);
        while j < hashes.len()
            invariant
                j <= hashes@.len(),
                range == hash_range(hashes@.len()),
                range > 0,
                non_decreasing(values@),
                values@.to_multiset() == reduced(hashes@).take(j as int).to_multiset(),
            decreases hashes@.len() - j,
        {
            let x: u64 = hashes[j] % range;
            add_repeated(&mut values, x);
            proof {
                broadcast use vstd::seq_lib::group_to_multiset_ensures;

                let r = reduced(hashes@);
                assert(r[j as int] == x);
                assert(r.take(j + 1) =~= r.take(j as int).push(x));
            }
            j = j + 1;
        }
        assert(reduced(hashes@).take(j as int) =~= reduced(hashes@));
        assert(are_numbers_of(values@, key@, scripts@));
        let n_elements: u32 = values.len() as u32;
        let filter_bytes: Vec<u8> = gcs_encode(values.as_slice(), GCS_P);
        BlockFilter { block_hash, height, filter_bytes, n_elements, key }
    }

    /// Whether one of the scripts is reported by the filter.
    pub fn match_any(&self, scripts: &[Vec<u8>]) -> (r: bool)
        requires
            sums_fit(self@.filter_bytes.len(), self@.n_elements as nat, GCS_P as nat),
        ensures
            r == reports_any(self@, scripts@),
    {
        if scripts.len() == 0 || self.filter_bytes.len() == 0 {
            return false;
        }
        let decoded: Vec<u64> = gcs_decode(
            self.filter_bytes.as_slice(),
            self.n_elements as usize,
            GCS_P,
        );
        let range: u64 = range_for(self.n_elements as u64);
        let mut i: usize = 0;
        while i < scripts.len()
            invariant
                i <= scripts@.len(),
                non_decreasing(decoded@),
                decoded@ == numbers_at(
                    self@.filter_bytes,
                    0,
                    self@.n_elements as nat,
                    0,
                    GCS_P as nat,
                ),
                self@.filter_bytes.len() > 0,
                range == hash_range(self@.n_elements as nat),
                range > 0,
                forall|k: int|
                    0 <= k < i ==> !decoded@.contains(
                        #[trigger] script_number(self@.key, scripts@[k]@, range as nat),
                    ),
            decreases scripts@.len() - i,
        {
            let x: u64 = siphash(&self.key, scripts[i].as_slice()) % range;
            assert(x == script_number(self@.key, scripts@[i as int]@, range as nat));
            if holds(&decoded, x) {
                return true;
            }
            i = i + 1;
        }
        false
    }

    /// The size of the coded numbers.
    pub fn size_bytes(&self) -> (r: usize)
        ensures
            r == self@.filter_bytes.len(),
    {
        self.filter_bytes.len()
    }

    /// The hash by which filter headers are chained.
    pub fn filter_hash(&self) -> (r: [u8; 32])
        ensures
            r@ == sha256d_of(self@.filter_bytes),
    {
        sha256d(self.filter_bytes.as_slice())
    }
}

/// Scripts to look out for.
#[derive(Debug)]
pub struct FilterMatcher {
    scripts: Vec<Vec<u8>>,
}

/// The scripts as byte sequences.
pub open spec fn script_views(s: Seq<Vec<u8>>) -> Seq<Seq<u8>> {
    s.map_values(|v: Vec<u8>| v@)
}

/// The script that pays to a public key's hash.
pub open spec fn p2pkh_script(hash: Seq<u8>) -> Seq<u8> {
    seq![0x76u8, 0xa9u8, 0x14u8] + hash + seq![0x88u8, 0xacu8]
}

impl View for FilterMatcher {
    type V = Seq<Seq<u8>>;

    closed spec fn view(&self) -> Seq<Seq<u8>> {
        script_views(self.scripts@)
    }
}

impl FilterMatcher {
    /// The watched scripts.
    pub closed spec fn watched(&self) -> Seq<Vec<u8>> {
        self.scripts@
    }

    /// A matcher without scripts.
    pub fn new() -> (m: Self)
        ensures
            m@ == Seq::<Seq<u8>>::empty(),
    {
        let m: FilterMatcher = FilterMatcher { scripts: Vec::new() };
        assert(m@ =~= Seq::<Seq<u8>>::empty());
        m
    }

    /// Adds a script, unless it is watched already.
    pub fn add_script(&mut self, script: Vec<u8>)
        ensures
            final(self)@ == if old(self)@.contains(script@) {
                old(self)@
            } else {
                old(self)@.push(script@)
            },
    {
        let mut i: usize = 0;
        while i < self.scripts.len()
            invariant
                self.scripts == old(self).scripts,
                i <= self.scripts@.len(),
                forall|k: int| 0 <= k < i ==> #[trigger] self@[k] != script@,
            decreases self.scripts@.len() - i,
        {
            if same_bytes(self.scripts[i].as_slice(), script.as_slice()) {
                assert(old(self)@[i as int] == script@);
                return ;
            }
            assert(self@[i as int] != script@);
            i = i + 1;
        }
        self.scripts.push(script);
        assert(self@ =~= old(self)@.push(script@));
    }

    /// Adds the script that pays to a public key's hash.
    pub fn add_p2pkh(&mut self, pubkey_hash: &[u8; 20])
        ensures
            final(self)@ == if old(self)@.contains(p2pkh_script(pubkey_hash@)) {
                old(self)@
            } else {
                old(self)@.push(p2pkh_script(pubkey_hash@))
            },
    {
        let mut script: Vec<u8> = Vec::new();
        script.push(0x76);
        script.push(0xa9);
        script.push(0x14);
        append_slice(&mut script, pubkey_hash.as_slice());
        script.push(0x88);
        script.push(0xac);
        assert(script@ =~= p2pkh_script(pubkey_hash@));
        self.add_script(script);
    }

    /// Whether the filter reports a watched script.
    pub fn matches(&self, filter: &BlockFilter) -> (r: bool)
        requires
            sums_fit(filter@.filter_bytes.len(), filter@.n_elements as nat, GCS_P as nat),
        ensures
            r == reports_any(filter@, self.watched()),
            script_views(self.watched()) == self@,
    {
        filter.match_any(self.scripts.as_slice())
    }

    /// The number of watched scripts.
    pub fn len(&self) -> (r: usize)
        ensures
            r == self@.len(),
    {
        self.scripts.len()
    }

    /// Whether no script is watched.
    pub fn is_empty(&self) -> (r: bool)
        ensures
            r == (self@.len() == 0),
    {
        self.scripts.len() == 0
    }
}

impl Default for FilterMatcher {
    fn default() -> (m: Self)
        ensures
            m@ == Seq::<Seq<u8>>::empty(),
    {
        FilterMatcher::new()
    }
}

proof fn lemma_gap_bound(values: Seq<u64>, n: nat, k: int)
    requires
        non_decreasing(values),
        0 <= k < values.len(),
        0 < n <= MAX_QUOTIENT,
        forall|j: int| 0 <= j < values.len() ==> #[trigger] values[j] < n * GCS_SCALE,
    ensures
        gap(values, k) / pow2(GCS_P as nat) <= MAX_QUOTIENT,
{
    lemma_scale();
    if k > 0 {
        assert(values[k - 1] <= values[k]);
    }
    assert(gap(values, k) <= values[k]);
    assert(gap(values, k) < n * GCS_SCALE);
}

/// Whether the numbers of the scripts can be counted and no two neighbours lie further apart than
/// is read back.
pub open spec fn gaps_fit(key: Seq<u8>, scripts: Seq<Vec<u8>>) -> bool {
    forall|values: Seq<u64>| #[trigger]
        are_numbers_of(values, key, scripts) ==> values.len() <= u32::MAX && forall|k: int|
            0 <= k < values.len() ==> #[trigger] gap(values, k) / pow2(GCS_P as nat)
                <= MAX_QUOTIENT
}

/// Up to a million scripts can be counted, and their numbers lie close enough.
proof fn lemma_gaps_fit(key: Seq<u8>, scripts: Seq<Vec<u8>>)
    requires
        scripts.len() <= MAX_QUOTIENT,
    ensures
        gaps_fit(key, scripts),
{
    broadcast use vstd::seq_lib::group_to_multiset_ensures;

    assert forall|values: Seq<u64>| #[trigger] are_numbers_of(values, key, scripts) implies values.len()
        <= u32::MAX && forall|k: int|
        0 <= k < values.len() ==> #[trigger] gap(values, k) / pow2(GCS_P as nat) <= MAX_QUOTIENT by {
        let hashes = choose|hashes: Seq<u64>| #[trigger]
            lists_hashes(hashes, key, scripts) && values.to_multiset() == reduced(
                hashes,
            ).to_multiset();
        let r = reduced(hashes);
        let n = hashes.len();
        lemma_hash_count(hashes, key, scripts);
        assert(values.len() == values.to_multiset().len() && r.len() == r.to_multiset().len());
        assert forall|k: int| 0 <= k < values.len() implies #[trigger] values[k] < n * GCS_SCALE by {
            assert(values.contains(values[k]));
            assert(values.to_multiset().count(values[k]) > 0);
            assert(r.contains(values[k]));
            let i = choose|i: int| 0 <= i < r.len() && r[i] == values[k];
            assert(hash_range(n) == n * GCS_SCALE);
            assert(r[i] == (hashes[i] as nat % hash_range(n)) as u64);
        }
        assert forall|k: int| 0 <= k < values.len() implies #[trigger] gap(values, k) / pow2(
            GCS_P as nat,
        ) <= MAX_QUOTIENT by {
            lemma_gap_bound(values, n, k);
        }
    }
}

/// A filter reports each of its scripts, also where some are equal. It does for up to a million
/// scripts, and for more where their numbers lie close enough to be read back.
pub proof fn law_scripts_are_reported(
    f: Filter,
    block_hash: Seq<u8>,
    height: u32,
    scripts: Seq<Vec<u8>>,
    wanted: Seq<Vec<u8>>,
    i: int,
    j: int,
)
    requires
        is_filter_of(f, block_hash, height, scripts),
        scripts.len() <= MAX_QUOTIENT || gaps_fit(block_hash.take(16), scripts),
        0 <= i < scripts.len(),
        0 <= j < wanted.len(),
        wanted[j]@ == scripts[i]@,
    ensures
        reports_any(f, wanted),
{
    broadcast use vstd::seq_lib::group_to_multiset_ensures;

    let key = block_hash.take(16);
    if scripts.len() <= MAX_QUOTIENT {
        lemma_gaps_fit(key, scripts);
    }
    let values = choose|values: Seq<u64>|
        #[trigger] are_numbers_of(values, key, scripts) && f.n_elements == values.len() as u32
            && packs(f.filter_bytes, code_all(values, GCS_P as nat));
    let hashes = choose|hashes: Seq<u64>| #[trigger]
        lists_hashes(hashes, key, scripts) && values.to_multiset() == reduced(
            hashes,
        ).to_multiset();
    let r = reduced(hashes);
    assert(values.len() == values.to_multiset().len() && r.len() == r.to_multiset().len());
    assert(f.n_elements as nat == hashes.len());
    law_gcs_roundtrip(f.filter_bytes, values, GCS_P as nat);
    let h = siphash_of(key, scripts[i]@);
    assert(hashes.contains(h));
    let at = choose|at: int| 0 <= at < hashes.len() && hashes[at] == h;
    let x = script_number(key, scripts[i]@, hash_range(hashes.len()));
    assert(r[at] == x);
    assert(r.contains(x));
    assert(r.to_multiset().count(x) > 0);
    assert(values.contains(x));
    assert(script_number(f.key, wanted[j]@, hash_range(f.n_elements as nat)) == x);
    lemma_code_not_empty(values, GCS_P as nat);
}

proof fn lemma_code_not_empty(values: Seq<u64>, p: nat)
    requires
        values.len() > 0,
    ensures
        code_all(values, p).len() > 0,
{
}

/// There are no more hashes than scripts.
proof fn lemma_hash_count(hashes: Seq<u64>, key: Seq<u8>, scripts: Seq<Vec<u8>>)
    requires
        lists_hashes(hashes, key, scripts),
    ensures
        hashes.len() <= scripts.len(),
{
    let images = Seq::new(scripts.len(), |i: int| siphash_of(key, scripts[i]@));
    assert(hashes.no_duplicates());
    assert(hashes.to_set().subset_of(images.to_set())) by {
        assert forall|x: u64| hashes.to_set().contains(x) implies images.to_set().contains(x) by {
            assert(hashes.contains(x));
            let s = choose|s: int|
                0 <= s < scripts.len() && #[trigger] siphash_of(key, scripts[s]@) == x;
            assert(images[s] == x);
        }
    }
    hashes.unique_seq_to_set();
    vstd::seq_lib::seq_to_set_is_finite(images);
    vstd::set_lib::lemma_len_subset(hashes.to_set(), images.to_set());
    images.lemma_cardinality_of_set();
}

// ---- the keyed hash can be undone ----

/// The state before a round, found again from the state after it.
pub open spec fn round_undone(s: SipState) -> SipState {
    let a3 = turned_left(s.v3 ^ s.v0, 43);
    let b2 = turned_left(s.v2, 32);
    let a1 = turned_left(s.v1 ^ b2, 47);
    let a0 = turned_left(s.v0.wrapping_sub(a3), 32);
    let a2 = b2.wrapping_sub(a1);
    let v3 = turned_left(a3 ^ a2, 48);
    let v1 = turned_left(a1 ^ a0, 51);
    SipState { v0: a0.wrapping_sub(v1), v1, v2: a2.wrapping_sub(v3), v3 }
}

proof fn lemma_turned_back(x: u64)
    ensures
        turned_left(turned_left(x, 13), 51) == x,
        turned_left(turned_left(x, 16), 48) == x,
        turned_left(turned_left(x, 17), 47) == x,
        turned_left(turned_left(x, 21), 43) == x,
        turned_left(turned_left(x, 32), 32) == x,
{
    assert(turned_left(turned_left(x, 13), 51) == x && turned_left(turned_left(x, 16), 48) == x
        && turned_left(turned_left(x, 17), 47) == x && turned_left(turned_left(x, 21), 43) == x
        && turned_left(turned_left(x, 32), 32) == x) by (bit_vector);
}

proof fn lemma_turned_forth(x: u64)
    ensures
        turned_left(turned_left(x, 51), 13) == x,
        turned_left(turned_left(x, 48), 16) == x,
        turned_left(turned_left(x, 47), 17) == x,
        turned_left(turned_left(x, 43), 21) == x,
        turned_left(turned_left(x, 32), 32) == x,
{
    assert(turned_left(turned_left(x, 51), 13) == x && turned_left(turned_left(x, 48), 16) == x
        && turned_left(turned_left(x, 47), 17) == x && turned_left(turned_left(x, 43), 21) == x
        && turned_left(turned_left(x, 32), 32) == x) by (bit_vector);
}

proof fn lemma_xor_back(x: u64, y: u64)
    ensures
        (x ^ y) ^ y == x,
{
    assert((x ^ y) ^ y == x) by (bit_vector);
}

/// A round can be undone, and what was undone can be done again.
pub proof fn law_rounds_lose_nothing(s: SipState)
    ensures
        round_undone(sip_round_of(s)) == s,
        sip_round_of(round_undone(s)) == s,
{
    let a0 = s.v0.wrapping_add(s.v1);
    let a1 = turned_left(s.v1, 13) ^ a0;
    let a2 = s.v2.wrapping_add(s.v3);
    let a3 = turned_left(s.v3, 16) ^ a2;
    let b0 = turned_left(a0, 32).wrapping_add(a3);
    let b2 = a2.wrapping_add(a1);
    lemma_xor_back(turned_left(a3, 21), b0);
    lemma_turned_back(a3);
    lemma_turned_back(b2);
    lemma_xor_back(turned_left(a1, 17), b2);
    lemma_turned_back(a1);
    lemma_turned_back(a0);
    lemma_xor_back(turned_left(s.v3, 16), a2);
    lemma_turned_back(s.v3);
    lemma_xor_back(turned_left(s.v1, 13), a0);
    lemma_turned_back(s.v1);
    let c3 = turned_left(s.v3 ^ s.v0, 43);
    let d2 = turned_left(s.v2, 32);
    let c1 = turned_left(s.v1 ^ d2, 47);
    let c0 = turned_left(s.v0.wrapping_sub(c3), 32);
    let c2 = d2.wrapping_sub(c1);
    lemma_turned_forth(s.v3 ^ s.v0);
    lemma_xor_back(s.v3, s.v0);
    lemma_turned_forth(s.v2);
    lemma_turned_forth(s.v1 ^ d2);
    lemma_xor_back(s.v1, d2);
    lemma_turned_forth(s.v0.wrapping_sub(c3));
    lemma_turned_forth(c3 ^ c2);
    lemma_xor_back(c3, c2);
    lemma_turned_forth(c1 ^ c0);
    lemma_xor_back(c1, c0);
}

/// A word enters the state by two rounds, before which it is mixed into the last part of the state
/// and after which into the first: the state before is found again from the state after.
pub proof fn law_words_enter_the_state_without_loss(s: SipState, m: u64)
    ensures
        ({
            let t = sip_absorbed(s, m);
            let u = round_undone(round_undone(SipState { v0: t.v0 ^ m, ..t }));
            SipState { v3: u.v3 ^ m, ..u } == s
        }),
{
    let start = SipState { v3: s.v3 ^ m, ..s };
    let one = sip_round_of(start);
    let two = sip_round_of(one);
    lemma_xor_back(two.v0, m);
    lemma_xor_back(s.v3, m);
    law_rounds_lose_nothing(start);
    law_rounds_lose_nothing(one);
}

/// The state starts from the two halves of the key, each mixed with two words of text.
pub proof fn law_state_starts_from_the_key(key: Seq<u8>)
    ensures
        ({
            let s = sip_start(key);
            let k0 = le_value(key.subrange(0, 8)) as u64;
            let k1 = le_value(key.subrange(8, 16)) as u64;
            &&& s.v0 ^ 0x736f_6d65_7073_6575u64 == k0
            &&& s.v1 ^ 0x646f_7261_6e64_6f6du64 == k1
            &&& s.v2 ^ 0x6c79_6765_6e65_7261u64 == k0
            &&& s.v3 ^ 0x7465_6462_7974_6573u64 == k1
        }),
{
    let k0 = le_value(key.subrange(0, 8)) as u64;
    let k1 = le_value(key.subrange(8, 16)) as u64;
    lemma_xor_back(k0, 0x736f_6d65_7073_6575u64);
    lemma_xor_back(k1, 0x646f_7261_6e64_6f6du64);
    lemma_xor_back(k0, 0x6c79_6765_6e65_7261u64);
    lemma_xor_back(k1, 0x7465_6462_7974_6573u64);
}

/// Words of eight bytes enter the state one after the other, from the first on.
pub proof fn law_words_enter_in_their_order(key: Seq<u8>, data: Seq<u8>, n: nat)
    requires
        8 * (n + 1) <= data.len(),
    ensures
        sip_words(key, data, 0) == sip_start(key),
        sip_words(key, data, n + 1) == sip_absorbed(
            sip_words(key, data, n),
            le_value(data.skip(8 * n as int).take(8)) as u64,
        ),
{
    assert(data.skip(8 * n as int).take(8) =~= data.subrange(8 * n as int, 8 * n as int + 8));
}

/// The hash is over the four parts of the state from which four rounds back lead to the state after
/// the last word, which holds the bytes that are left over and, as its highest byte, the number of
/// all bytes.
pub proof fn law_hash_ends_with_four_rounds(
    key: Seq<u8>,
    words: Seq<u8>,
    tail: Seq<u8>,
    last: u64,
    t: SipState,
)
    requires
        words.len() % 8 == 0,
        tail.len() < 8,
        last as int == le_value(tail) + 0x100_0000_0000_0000 * ((words.len() + tail.len()) % 256),
        ({
            let s = sip_absorbed(sip_words(key, words + tail, words.len() / 8), last);
            round_undone(round_undone(round_undone(round_undone(t)))) == (SipState {
                v2: s.v2 ^ 0xff,
                ..s
            })
        }),
    ensures
        siphash_of(key, words + tail) == t.v0 ^ t.v1 ^ t.v2 ^ t.v3,
{
    let data = words + tail;
    assert(data.len() / 8 == words.len() / 8);
    assert(8 * (words.len() / 8) == words.len());
    assert(data.skip(words.len() as int) =~= tail);
    let a = round_undone(t);
    let b = round_undone(a);
    let c = round_undone(b);
    law_rounds_lose_nothing(t);
    law_rounds_lose_nothing(a);
    law_rounds_lose_nothing(b);
    law_rounds_lose_nothing(c);
}

/// A filter reports a script only where its number is that of one of the block's scripts. So it is
/// for up to a million scripts, and for more where their numbers lie close enough to be read back.
pub proof fn law_only_numbers_of_the_block_are_reported(
    f: Filter,
    block_hash: Seq<u8>,
    height: u32,
    scripts: Seq<Vec<u8>>,
    wanted: Seq<Vec<u8>>,
)
    requires
        is_filter_of(f, block_hash, height, scripts),
        scripts.len() <= MAX_QUOTIENT || gaps_fit(block_hash.take(16), scripts),
        reports_any(f, wanted),
    ensures
        exists|i: int, j: int|
            0 <= i < scripts.len() && 0 <= j < wanted.len() && #[trigger] siphash_of(
                block_hash.take(16),
                scripts[i]@,
            ) as nat % hash_range(f.n_elements as nat) == #[trigger] siphash_of(
                block_hash.take(16),
                wanted[j]@,
            ) as nat % hash_range(f.n_elements as nat),
        f.n_elements <= scripts.len(),
        f.block_hash == block_hash,
        f.height == height,
{
    broadcast use vstd::seq_lib::group_to_multiset_ensures;

    let key = block_hash.take(16);
    if scripts.len() <= MAX_QUOTIENT {
        lemma_gaps_fit(key, scripts);
    }
    let values = choose|values: Seq<u64>|
        #[trigger] are_numbers_of(values, key, scripts) && f.n_elements == values.len() as u32
            && packs(f.filter_bytes, code_all(values, GCS_P as nat));
    let hashes = choose|hashes: Seq<u64>| #[trigger]
        lists_hashes(hashes, key, scripts) && values.to_multiset() == reduced(
            hashes,
        ).to_multiset();
    let r = reduced(hashes);
    assert(values.len() == values.to_multiset().len() && r.len() == r.to_multiset().len());
    assert(f.n_elements as nat == hashes.len());
    law_gcs_roundtrip(f.filter_bytes, values, GCS_P as nat);
    lemma_hash_count(hashes, key, scripts);
    let n = f.n_elements as nat;
    let j = choose|j: int|
        0 <= j < wanted.len() && numbers_at(f.filter_bytes, 0, n, 0, GCS_P as nat).contains(
            #[trigger] script_number(f.key, wanted[j]@, hash_range(n)),
        );
    let x = script_number(f.key, wanted[j]@, hash_range(n));
    assert(values.contains(x));
    assert(values.to_multiset().count(x) > 0);
    assert(r.contains(x));
    let at = choose|at: int| 0 <= at < r.len() && r[at] == x;
    assert(hashes.contains(hashes[at]));
    let i = choose|i: int| 0 <= i < scripts.len() && #[trigger] siphash_of(key, scripts[i]@) == hashes[at];
    assert(x == (hashes[at] as nat % hash_range(n)) as u64);
    let a = siphash_of(key, scripts[i]@) as nat % hash_range(n);
    let b = siphash_of(key, wanted[j]@) as nat % hash_range(n);
    assert(hash_range(n) <= u64::MAX && hash_range(n) > 0);
    assert(a < hash_range(n)) by {
        vstd::arithmetic::div_mod::lemma_mod_bound(
            siphash_of(key, scripts[i]@) as int,
            hash_range(n) as int,
        );
    }
    assert(b < hash_range(n)) by {
        vstd::arithmetic::div_mod::lemma_mod_bound(
            siphash_of(key, wanted[j]@) as int,
            hash_range(n) as int,
        );
    }
    assert(a == b);
}

} // verus!
