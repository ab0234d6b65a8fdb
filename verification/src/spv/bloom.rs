//! Bloom filters: sets of byte strings that never deny a member.
use crate::bytes::copy_all;
use crate::bytes::le_value;
use crate::bytes::read_u32_le;
use vstd::prelude::*;

verus! {

/// The largest filter, in bytes.
pub const MAX_BLOOM_FILTER_SIZE: usize = 36_000;

/// The largest number of hash functions.
pub const MAX_HASH_FUNCS: u32 = 50;

const C1: u32 = 0xcc9e2d51;

const C2: u32 = 0x1b873593;

/// Which outputs of matched transactions a node adds to a filter.
#[derive(Debug, Clone, Copy, PartialEq, Eq, Structural)]
pub enum BloomFlags {
    /// None of them.
    Nothing,
    /// All of them.
    All,
    /// Those that pay to a public key.
    PubKeyOnly,
}

/// A 32-bit word turned to the left.
pub open spec fn rotated_left(x: u32, n: u32) -> u32 {
    (x << n) | (x >> ((32 - n) as u32))
}

fn rotate_left(x: u32, n: u32) -> (r: u32)
    requires
        0 < n < 32,
    ensures
        r == rotated_left(x, n),
{
    (x << n) | (x >> (32 - n))
}

/// A word of input as it enters the hash.
pub closed spec fn scrambled(k: u32) -> u32 {
    rotated_left(k.wrapping_mul(C1), 15).wrapping_mul(C2)
}

fn scramble(k: u32) -> (r: u32)
    ensures
        r == scrambled(k),
{
    rotate_left(k.wrapping_mul(C1), 15).wrapping_mul(C2)
}

/// The hash after the first `n` words of four bytes.
pub open spec fn murmur3_words(data: Seq<u8>, seed: u32, n: nat) -> u32
    decreases n,
{
    if n == 0 {
        seed
    } else {
        let m = (n - 1) as nat;
        let k = le_value(data.subrange(4 * m as int, 4 * m as int + 4)) as u32;
        rotated_left(murmur3_words(data, seed, m) ^ scrambled(k), 13).wrapping_mul(5).wrapping_add(
            0xe6546b64,
        )
    }
}

/// The last step of the hash.
pub open spec fn murmur3_final(h: u32) -> u32 {
    let a = (h ^ (h >> 16u32)).wrapping_mul(0x85ebca6b);
    let b = (a ^ (a >> 13u32)).wrapping_mul(0xc2b2ae35);
    b ^ (b >> 16u32)
}

/// The 32-bit murmur hash, third version, of a byte string.
pub open spec fn murmur3_of(data: Seq<u8>, seed: u32) -> u32 {
    let words = data.len() / 4;
    let body = murmur3_words(data, seed, words);
    let tail = data.skip(4 * words as int);
    let mixed = if tail.len() == 0 {
        body
    } else {
        body ^ scrambled(le_value(tail) as u32)
    };
    murmur3_final(mixed ^ (data.len() as u32))
}

/// The 32-bit murmur hash, third version, of a byte string.
pub fn murmur3(data: &[u8], seed: u32) -> (r: u32)
    ensures
        r == murmur3_of(data@, seed),
{
    let mut h: u32 = seed;
    let words: usize = data.len() / 4;
    let mut i: usize = 0;
    while i < words
        invariant
            i <= words,
            words == data.len() / 4,
            h == murmur3_words(data@, seed, i as nat),
        decreases words - i,
    {
        let k: u32 = read_u32_le(data, 4 * i);
        h = rotate_left(h ^ scramble(k), 13).wrapping_mul(5).wrapping_add(0xe6546b64);
        i = i + 1;
    }
    let at: usize = 4 * words;
    let rest: usize = data.len() - at;
    if rest > 0 {
        let ghost tail = data@.skip(at as int);
        let mut k: u32 = data[at] as u32;
        if rest > 1 {
            k = k + 256 * (data[at + 1] as u32);
        }
        if rest > 2 {
            k = k + 65536 * (data[at + 2] as u32);
        }
        proof {
            reveal_with_fuel(le_value, 4);
            assert(le_value(tail) == k);
        }
        h = h ^ scramble(k);
    }
    h = h ^ (data.len() as u32);
    h = (h ^ (h >> 16u32)).wrapping_mul(0x85ebca6b);
    h = (h ^ (h >> 13u32)).wrapping_mul(0xc2b2ae35);
    h ^ (h >> 16u32)
}

/// What a filter holds.
#[verifier::ext_equal]
pub struct Bloom {
    pub data: Seq<u8>,
    pub hash_funcs: u32,
    pub tweak: u32,
    pub flags: BloomFlags,
}

/// Whether a bit is set.
pub open spec fn bit_set(data: Seq<u8>, bit: int) -> bool {
    data[bit / 8] & (1u8 << ((bit % 8) as u8)) != 0
}

/// The number of bits that are used.
pub open spec fn bit_count(data: Seq<u8>) -> nat {
    if 8 * data.len() > usize::MAX {
        usize::MAX as nat
    } else {
        8 * data.len()
    }
}

/// The bit that hash function `i` gives for an item.
pub open spec fn probe(f: Bloom, item: Seq<u8>, i: u32) -> int {
    murmur3_of(item, i.wrapping_mul(0xfba4c795).wrapping_add(f.tweak)) as int % bit_count(
        f.data,
    ) as int
}

/// Whether an item is reported as a member.
pub open spec fn reports(f: Bloom, item: Seq<u8>) -> bool {
    &&& f.data.len() > 0
    &&& forall|i: u32| i < f.hash_funcs ==> bit_set(f.data, #[trigger] probe(f, item, i))
}

/// Whether `after` is `before` with an item put in: the bits of the item are set and the others
/// are as they were.
pub open spec fn inserted(before: Bloom, after: Bloom, item: Seq<u8>) -> bool {
    &&& after.data.len() == before.data.len()
    &&& after.hash_funcs == before.hash_funcs
    &&& after.tweak == before.tweak
    &&& after.flags == before.flags
    &&& forall|bit: int|
        0 <= bit < 8 * before.data.len() ==> (#[trigger] bit_set(after.data, bit) <==> (bit_set(
            before.data,
            bit,
        ) || exists|i: u32| i < before.hash_funcs && #[trigger] probe(before, item, i) == bit))
}

/// A set of byte strings that may report strangers but never denies a member.
#[derive(Debug, Clone)]
pub struct BloomFilter {
    data: Vec<u8>,
    hash_funcs: u32,
    tweak: u32,
    /// What a node adds to the filter.
    pub flags: BloomFlags,
}

impl View for BloomFilter {
    type V = Bloom;

    closed spec fn view(&self) -> Bloom {
        Bloom {
            data: self.data@,
            hash_funcs: self.hash_funcs,
            tweak: self.tweak,
            flags: self.flags,
        }
    }
}

proof fn lemma_bit_or(b: u8, m: u8, n: u8)
    requires
        m < 8,
        n < 8,
    ensures
        (b | (1u8 << m)) & (1u8 << n) != 0 <==> (b & (1u8 << n) != 0 || m == n),
{
    assert((b | (1u8 << m)) & (1u8 << n) != 0 <==> (b & (1u8 << n) != 0 || m == n)) by (bit_vector)
        requires
            m < 8,
            n < 8,
    ;
}

/// The size in bytes for this many bits, at most the largest.
pub fn bytes_for_bits(size_bits: usize) -> (r: usize)
    ensures
        r == if (size_bits + 7) / 8 > MAX_BLOOM_FILTER_SIZE {
            MAX_BLOOM_FILTER_SIZE as int
        } else {
            (size_bits + 7) / 8
        },
{
    let whole: usize = size_bits / 8;
    let bytes: usize = if size_bits % 8 == 0 {
        whole
    } else {
        whole + 1
    };
    if bytes > MAX_BLOOM_FILTER_SIZE {
        MAX_BLOOM_FILTER_SIZE
    } else {
        bytes
    }
}

fn zero_bytes(n: usize) -> (v: Vec<u8>)
    ensures
        v@ == Seq::new(n as nat, |i: int| 0u8),
{
    let mut v: Vec<u8> = Vec::new();
    while v.len() < n
        invariant
            v.len() <= n,
            v@ == Seq::new(v@.len(), |i: int| 0u8),
        decreases n - v.len(),
    {
        v.push(0);
        assert(v@ =~= Seq::new(v@.len(), |i: int| 0u8));
    }
    v
}

impl BloomFilter {
    /// A filter without members, of this many bytes and hash functions; at least one function and
    /// at most the largest number.
    pub fn with_size(size_bytes: usize, hash_funcs: u32, tweak: u32) -> (f: Self)
        ensures
            f@.data == Seq::new(size_bytes as nat, |i: int| 0u8),
            f@.hash_funcs == if hash_funcs < 1 {
                1
            } else if hash_funcs > MAX_HASH_FUNCS {
                MAX_HASH_FUNCS
            } else {
                hash_funcs
            },
            f@.tweak == tweak,
            f@.flags == BloomFlags::All,
    {
        let funcs: u32 = if hash_funcs < 1 {
            1
        } else if hash_funcs > MAX_HASH_FUNCS {
            MAX_HASH_FUNCS
        } else {
            hash_funcs
        };
        BloomFilter { data: zero_bytes(size_bytes), hash_funcs: funcs, tweak, flags: BloomFlags::All }
    }

    /// A filter from its parts as they travel.
    pub fn from_bytes(data: Vec<u8>, hash_funcs: u32, tweak: u32, flags: u8) -> (f: Self)
        ensures
            f@.data == data@,
            f@.hash_funcs == hash_funcs,
            f@.tweak == tweak,
            f@.flags == flags_of(flags),
    {
        let flags: BloomFlags = match flags {
            1 => BloomFlags::All,
            2 => BloomFlags::PubKeyOnly,
            _ => BloomFlags::Nothing,
        };
        BloomFilter { data, hash_funcs, tweak, flags }
    }

    fn bits(&self) -> (r: usize)
        ensures
            r == bit_count(self@.data),
    {
        if self.data.len() > usize::MAX / 8 {
            usize::MAX
        } else {
            8 * self.data.len()
        }
    }

    fn hash(&self, item: &[u8], i: u32) -> (r: u32)
        ensures
            r == murmur3_of(item@, i.wrapping_mul(0xfba4c795).wrapping_add(self@.tweak)),
    {
        murmur3(item, i.wrapping_mul(0xfba4c795).wrapping_add(self.tweak))
    }

    /// Puts an item in. A filter without bytes stays as it is.
    pub fn insert(&mut self, item: &[u8])
        ensures
            old(self)@.data.len() > 0 ==> inserted(old(self)@, final(self)@, item@),
            old(self)@.data.len() == 0 ==> final(self)@ == old(self)@,
    {
        let bits: usize = self.bits();
        if bits == 0 {
            return ;
        }
        let ghost f = self@;
        let mut i: u32 = 0;
        while i < self.hash_funcs
            invariant
                f == old(self)@,
                i <= self.hash_funcs,
                bits == bit_count(f.data),
                bits > 0,
                self.data@.len() == f.data.len(),
                self.hash_funcs == f.hash_funcs,
                self.tweak == f.tweak,
                self.flags == f.flags,
                forall|bit: int|
                    0 <= bit < 8 * f.data.len() ==> (#[trigger] bit_set(self.data@, bit) <==> (bit_set(
                        f.data,
                        bit,
                    ) || exists|k: u32| k < i && #[trigger] probe(f, item@, k) == bit)),
            decreases self.hash_funcs - i,
        {
            let bit: usize = self.hash(item, i) as usize % bits;
            assert(bit == probe(f, item@, i));
            let ghost before = self.data@;
            let at: usize = bit / 8;
            let m: u8 = (bit % 8) as u8;
            let b: u8 = self.data[at] | (1u8 << m);
            self.data.set(at, b);
            proof {
                assert forall|k: int| 0 <= k < 8 * f.data.len() implies (#[trigger] bit_set(
                    self.data@,
                    k,
                ) <==> (bit_set(f.data, k) || exists|j: u32| j < i + 1 && #[trigger] probe(f, item@, j) == k))
                    by {
                    if k / 8 == at {
                        lemma_bit_or(before[at as int], m, (k % 8) as u8);
                    }
                    assert(bit_set(self.data@, k) <==> (bit_set(before, k) || k == bit));
                    if bit_set(before, k) && !bit_set(f.data, k) {
                        let j = choose|j: u32| j < i && #[trigger] probe(f, item@, j) == k;
                        assert(j < i + 1 && probe(f, item@, j) == k);
                    }
                }
            }
            i = i + 1;
        }
    }

    /// Puts a hash in.
    pub fn insert_hash(&mut self, hash: &[u8; 32])
        ensures
            old(self)@.data.len() > 0 ==> inserted(old(self)@, final(self)@, hash@),
            old(self)@.data.len() == 0 ==> final(self)@ == old(self)@,
    {
        self.insert(hash.as_slice());
    }

    /// Puts a script in.
    pub fn insert_script(&mut self, script: &[u8])
        ensures
            old(self)@.data.len() > 0 ==> inserted(old(self)@, final(self)@, script@),
            old(self)@.data.len() == 0 ==> final(self)@ == old(self)@,
    {
        self.insert(script);
    }

    /// Whether an item is reported as a member.
    pub fn contains(&self, item: &[u8]) -> (r: bool)
        ensures
            r == reports(self@, item@),
    {
        let bits: usize = self.bits();
        if bits == 0 {
            return false;
        }
        let mut i: u32 = 0;
        while i < self.hash_funcs
            invariant
                i <= self.hash_funcs,
                bits == bit_count(self@.data),
                bits > 0,
                forall|k: u32| k < i ==> bit_set(self@.data, #[trigger] probe(self@, item@, k)),
            decreases self.hash_funcs - i,
        {
            let bit: usize = self.hash(item, i) as usize % bits;
            assert(bit == probe(self@, item@, i));
            if self.data[bit / 8] & (1u8 << ((bit % 8) as u8)) == 0 {
                assert(!bit_set(self@.data, probe(self@, item@, i)));
                return false;
            }
            i = i + 1;
        }
        true
    }

    /// Whether a hash is reported as a member.
    pub fn contains_hash(&self, hash: &[u8; 32]) -> (r: bool)
        ensures
            r == reports(self@, hash@),
    {
        self.contains(hash.as_slice())
    }

    fn all_bytes(&self, b: u8) -> (r: bool)
        ensures
            r == (forall|i: int| 0 <= i < self@.data.len() ==> #[trigger] self@.data[i] == b),
    {
        let mut i: usize = 0;
        while i < self.data.len()
            invariant
                i <= self.data.len(),
                forall|k: int| 0 <= k < i ==> #[trigger] self@.data[k] == b,
            decreases self.data.len() - i,
        {
            if self.data[i] != b {
                assert(self@.data[i as int] != b);
                return false;
            }
            i = i + 1;
        }
        true
    }

    /// Whether no bit is set.
    pub fn is_empty(&self) -> (r: bool)
        ensures
            r == (forall|i: int| 0 <= i < self@.data.len() ==> #[trigger] self@.data[i] == 0),
    {
        self.all_bytes(0)
    }

    /// Whether all bits are set.
    pub fn is_full(&self) -> (r: bool)
        ensures
            r == (forall|i: int| 0 <= i < self@.data.len() ==> #[trigger] self@.data[i] == 0xff),
    {
        self.all_bytes(0xff)
    }

    /// The parts of the filter as they travel.
    pub fn to_wire(&self) -> (r: (Vec<u8>, u32, u32, u8))
        ensures
            r.0@ == self@.data,
            r.1 == self@.hash_funcs,
            r.2 == self@.tweak,
            r.3 == flags_byte(self@.flags),
    {
        let flags: u8 = match self.flags {
            BloomFlags::Nothing => 0,
            BloomFlags::All => 1,
            BloomFlags::PubKeyOnly => 2,
        };
        (copy_all(self.data.as_slice()), self.hash_funcs, self.tweak, flags)
    }

    /// The size in bytes.
    pub fn size_bytes(&self) -> (r: usize)
        ensures
            r == self@.data.len(),
    {
        self.data.len()
    }

    /// The number of hash functions.
    pub fn hash_funcs(&self) -> (r: u32)
        ensures
            r == self@.hash_funcs,
    {
        self.hash_funcs
    }
}

/// The byte of a flag as it travels.
pub open spec fn flags_byte(f: BloomFlags) -> u8 {
    match f {
        BloomFlags::Nothing => 0,
        BloomFlags::All => 1,
        BloomFlags::PubKeyOnly => 2,
    }
}

/// The flag that a byte stands for.
pub open spec fn flags_of(b: u8) -> BloomFlags {
    if b == 1 {
        BloomFlags::All
    } else if b == 2 {
        BloomFlags::PubKeyOnly
    } else {
        BloomFlags::Nothing
    }
}

proof fn lemma_probe_in_range(f: Bloom, item: Seq<u8>, i: u32)
    requires
        f.data.len() > 0,
    ensures
        0 <= probe(f, item, i) < bit_count(f.data),
{
}

/// An item that was put in is reported, and what was reported before still is.
pub proof fn law_members_are_reported(before: Bloom, after: Bloom, item: Seq<u8>, other: Seq<u8>)
    requires
        before.data.len() > 0,
        inserted(before, after, item),
    ensures
        reports(after, item),
        reports(before, other) ==> reports(after, other),
{
    assert forall|i: u32| i < after.hash_funcs implies bit_set(
        after.data,
        #[trigger] probe(after, item, i),
    ) by {
        lemma_probe_in_range(before, item, i);
        assert(probe(after, item, i) == probe(before, item, i));
        let bit = probe(before, item, i);
        assert(i < before.hash_funcs && probe(before, item, i) == bit);
    }
    if reports(before, other) {
        assert forall|i: u32| i < after.hash_funcs implies bit_set(
            after.data,
            #[trigger] probe(after, other, i),
        ) by {
            lemma_probe_in_range(before, other, i);
            assert(probe(after, other, i) == probe(before, other, i));
            assert(bit_set(before.data, probe(before, other, i)));
        }
    }
}

proof fn lemma_same_bits(a: u8, b: u8)
    requires
        a & (1u8 << 0u8) != 0 <==> b & (1u8 << 0u8) != 0,
        a & (1u8 << 1u8) != 0 <==> b & (1u8 << 1u8) != 0,
        a & (1u8 << 2u8) != 0 <==> b & (1u8 << 2u8) != 0,
        a & (1u8 << 3u8) != 0 <==> b & (1u8 << 3u8) != 0,
        a & (1u8 << 4u8) != 0 <==> b & (1u8 << 4u8) != 0,
        a & (1u8 << 5u8) != 0 <==> b & (1u8 << 5u8) != 0,
        a & (1u8 << 6u8) != 0 <==> b & (1u8 << 6u8) != 0,
        a & (1u8 << 7u8) != 0 <==> b & (1u8 << 7u8) != 0,
    ensures
        a == b,
{
    assert(a == b) by (bit_vector)
        requires
            a & (1u8 << 0u8) != 0 <==> b & (1u8 << 0u8) != 0,
            a & (1u8 << 1u8) != 0 <==> b & (1u8 << 1u8) != 0,
            a & (1u8 << 2u8) != 0 <==> b & (1u8 << 2u8) != 0,
            a & (1u8 << 3u8) != 0 <==> b & (1u8 << 3u8) != 0,
            a & (1u8 << 4u8) != 0 <==> b & (1u8 << 4u8) != 0,
            a & (1u8 << 5u8) != 0 <==> b & (1u8 << 5u8) != 0,
            a & (1u8 << 6u8) != 0 <==> b & (1u8 << 6u8) != 0,
            a & (1u8 << 7u8) != 0 <==> b & (1u8 << 7u8) != 0,
    ;
}

/// Putting an item in a second time leaves the filter as it is.
pub proof fn law_inserting_twice_is_inserting_once(
    before: Bloom,
    once: Bloom,
    twice: Bloom,
    item: Seq<u8>,
)
    requires
        inserted(before, once, item),
        inserted(once, twice, item),
    ensures
        twice == once,
{
    assert forall|bit: int| 0 <= bit < 8 * once.data.len() implies (#[trigger] bit_set(
        twice.data,
        bit,
    ) <==> bit_set(once.data, bit)) by {
        if exists|i: u32| i < once.hash_funcs && #[trigger] probe(once, item, i) == bit {
            let i = choose|i: u32| i < once.hash_funcs && #[trigger] probe(once, item, i) == bit;
            assert(i < before.hash_funcs && probe(before, item, i) == bit);
            assert(bit_set(once.data, bit));
        }
    }
    assert forall|n: int| 0 <= n < once.data.len() implies twice.data[n] == once.data[n] by {
        assert forall|k: int| 0 <= k < 8 implies #[trigger] bit_set(twice.data, 8 * n + k)
            == bit_set(once.data, 8 * n + k) by {}
        assert(bit_set(twice.data, 8 * n + 0) == bit_set(once.data, 8 * n + 0));
        assert(bit_set(twice.data, 8 * n + 1) == bit_set(once.data, 8 * n + 1));
        assert(bit_set(twice.data, 8 * n + 2) == bit_set(once.data, 8 * n + 2));
        assert(bit_set(twice.data, 8 * n + 3) == bit_set(once.data, 8 * n + 3));
        assert(bit_set(twice.data, 8 * n + 4) == bit_set(once.data, 8 * n + 4));
        assert(bit_set(twice.data, 8 * n + 5) == bit_set(once.data, 8 * n + 5));
        assert(bit_set(twice.data, 8 * n + 6) == bit_set(once.data, 8 * n + 6));
        assert(bit_set(twice.data, 8 * n + 7) == bit_set(once.data, 8 * n + 7));
        lemma_same_bits(twice.data[n], once.data[n]);
    }
    assert(twice.data =~= once.data);
}

/// Reading back a flag gives the flag that was sent.
pub proof fn law_flags_roundtrip(f: BloomFlags)
    ensures
        flags_of(flags_byte(f)) == f,
{
}

// ---- the hash can be undone ----

proof fn lemma_turned_back(x: u32)
    ensures
        rotated_left(rotated_left(x, 15), 17) == x,
        rotated_left(rotated_left(x, 13), 19) == x,
{
    assert(rotated_left(rotated_left(x, 15), 17) == x && rotated_left(rotated_left(x, 13), 19) == x)
        by (bit_vector);
}

proof fn lemma_multiplied_back(x: u32, c: u32, d: u32)
    requires
        (c as int * d as int) % 0x1_0000_0000 == 1,
    ensures
        x.wrapping_mul(c).wrapping_mul(d) == x,
{
    let m: int = 0x1_0000_0000;
    let xi = x as int;
    let ci = c as int;
    let di = d as int;
    vstd::arithmetic::div_mod::lemma_mul_mod_noop_left(xi * ci, di, m);
    assert((xi * ci) * di == xi * (ci * di)) by (nonlinear_arith);
    vstd::arithmetic::div_mod::lemma_mul_mod_noop_right(xi, ci * di, m);
    assert(xi * 1 == xi);
    vstd::arithmetic::div_mod::lemma_small_mod(x as nat, 0x1_0000_0000);
    assert(x.wrapping_mul(c) as int == (xi * ci) % m);
    assert(x.wrapping_mul(c).wrapping_mul(d) as int == ((xi * ci) % m * di) % m);
}

/// A word of input is found again from what enters the hash: multiplied by one odd number, turned
/// to the left by 15 and multiplied by another it was.
pub proof fn law_words_enter_without_loss(k: u32)
    ensures
        rotated_left(scrambled(k).wrapping_mul(0x56ed_309b), 17).wrapping_mul(0xdee1_3bb1) == k,
{
    let a = k.wrapping_mul(C1);
    lemma_multiplied_back(rotated_left(a, 15), C2, 0x56ed_309b);
    lemma_turned_back(a);
    lemma_multiplied_back(k, C1, 0xdee1_3bb1);
}

/// The hash before a word is found again from the hash after it.
pub proof fn law_words_are_mixed_without_loss(data: Seq<u8>, seed: u32, n: nat)
    requires
        4 * (n + 1) <= data.len(),
    ensures
        murmur3_words(data, seed, 0) == seed,
        ({
            let k = le_value(data.subrange(4 * n as int, 4 * n as int + 4)) as u32;
            let after = murmur3_words(data, seed, n + 1);
            rotated_left(after.wrapping_sub(0xe654_6b64).wrapping_mul(0xcccc_cccd), 19) ^ scrambled(k)
                == murmur3_words(data, seed, n)
        }),
{
    let k = le_value(data.subrange(4 * n as int, 4 * n as int + 4)) as u32;
    let before = murmur3_words(data, seed, n);
    let s = scrambled(k);
    let x = before ^ s;
    let y = rotated_left(x, 13);
    lemma_multiplied_back(y, 5, 0xcccc_cccd);
    assert(y.wrapping_mul(5).wrapping_add(0xe654_6b64).wrapping_sub(0xe654_6b64) == y.wrapping_mul(5));
    lemma_turned_back(x);
    assert((before ^ s) ^ s == before) by (bit_vector);
}

/// What enters the last step is found again from what it gives.
pub proof fn law_last_step_loses_nothing(h: u32)
    ensures
        ({
            let r = murmur3_final(h);
            let b = (r ^ (r >> 16u32)).wrapping_mul(0x7ed1_b41d);
            let a = (b ^ (b >> 13u32) ^ (b >> 26u32)).wrapping_mul(0xa5cb_9243);
            a ^ (a >> 16u32) == h
        }),
{
    let h1 = h ^ (h >> 16u32);
    let a = h1.wrapping_mul(0x85ebca6b);
    let a1 = a ^ (a >> 13u32);
    let b = a1.wrapping_mul(0xc2b2ae35);
    let r = b ^ (b >> 16u32);
    assert(r ^ (r >> 16u32) == b) by (bit_vector)
        requires
            r == b ^ (b >> 16u32),
    ;
    lemma_multiplied_back(a1, 0xc2b2ae35, 0x7ed1_b41d);
    assert(a1 ^ (a1 >> 13u32) ^ (a1 >> 26u32) == a) by (bit_vector)
        requires
            a1 == a ^ (a >> 13u32),
    ;
    lemma_multiplied_back(h1, 0x85ebca6b, 0xa5cb_9243);
    assert(h1 ^ (h1 >> 16u32) == h) by (bit_vector)
        requires
            h1 == h ^ (h >> 16u32),
    ;
}

/// The last step takes the hash of all whole words, with the bytes that are left over as one more
/// word and with the number of bytes.
pub proof fn law_what_enters_the_last_step(words: Seq<u8>, tail: Seq<u8>, seed: u32)
    requires
        words.len() % 4 == 0,
        tail.len() < 4,
    ensures
        ({
            let data = words + tail;
            let body = murmur3_words(data, seed, words.len() / 4);
            &&& tail.len() == 0 ==> murmur3_of(data, seed) == murmur3_final(body ^ (data.len() as u32))
            &&& tail.len() > 0 ==> murmur3_of(data, seed) == murmur3_final(
                body ^ scrambled(le_value(tail) as u32) ^ (data.len() as u32),
            )
        }),
{
    let data = words + tail;
    assert(data.len() / 4 == words.len() / 4);
    assert(4 * (words.len() / 4) == words.len());
    assert(data.skip(words.len() as int) =~= tail);
}

} // verus!
