//! What holds of headers, targets, trees of hashes, filters and stakes.
use crate::bytes::le_digits;
use crate::bytes::le_value;
use crate::bytes::lemma_le_digits_len;
use crate::bytes::lemma_le_roundtrip;
use crate::bytes::lemma_pow256_values;
use crate::bytes::pow256;
use crate::crypto::ecdsa_check;
use crate::crypto::ripemd160_of;
use crate::crypto::sha256_of;
use crate::spv::bloom::bit_set;
use crate::spv::bloom::flags_byte;
use crate::spv::bloom::flags_of;
use crate::spv::bloom::inserted;
use crate::spv::bloom::murmur3_of;
use crate::spv::bloom::probe;
use crate::spv::bloom::Bloom;
use crate::spv::bloom::BloomFlags;
use crate::spv::bloom::MAX_BLOOM_FILTER_SIZE;
use crate::spv::bloom::MAX_HASH_FUNCS;
use crate::spv::bloom::reports;
use crate::spv::chain::admitted;
use crate::spv::chain::after_first;
use crate::spv::chain::ancestor;
use crate::spv::chain::hash_of;
use crate::spv::chain::header_bytes;
use crate::spv::chain::locator_from;
use crate::spv::chain::received;
use crate::spv::chain::stride;
use crate::spv::chain::takes_prefix;
use crate::spv::chain::tx_inclusion_of;
use crate::spv::chain::Chain;
use crate::spv::chain::SpvHeader;
use crate::spv::error::SpvError;
use crate::spv::error::SpvFault;
use crate::spv::filter::hash_range;
use crate::spv::filter::script_number;
use crate::spv::filter::siphash_of;
use crate::spv::filter::GCS_P;
use crate::spv::golomb::code_of;
use crate::spv::golomb::low_bits;
use crate::spv::golomb::ones;
use crate::spv::golomb::stream_bit;
use crate::spv::golomb::MAX_QUOTIENT;
use crate::spv::merkle::climb;
use crate::spv::merkle::level_above;
use crate::spv::merkle::root_over;
use crate::spv::merkle::steps;
use crate::spv::merkle::MerkleProof;
use crate::spv::merkle::Step;
use crate::spv::stake::capped_total;
use crate::spv::stake::compact_size;
use crate::spv::stake::inclusion_of;
use crate::spv::stake::input_bytes;
use crate::spv::stake::inputs_bytes;
use crate::spv::stake::kernel_of;
use crate::spv::stake::next_modifier;
use crate::spv::stake::optional;
use crate::spv::stake::output_bytes;
use crate::spv::stake::outputs_bytes;
use crate::spv::stake::reward_of;
use crate::spv::stake::sighash_of;
use crate::spv::stake::signing_form;
use crate::spv::stake::tx_bytes;
use crate::spv::stake::txid_of;
use crate::spv::stake::utxo_bytes;
use crate::spv::stake::Input;
use crate::spv::stake::Output;
use crate::spv::stake::SpvUtxo;
use crate::spv::stake::StakeProof;
use crate::spv::stake::Tx;
use crate::spv::stake::TxType;
use crate::spv::stake_rules::inclusion_fault;
use crate::spv::stake_rules::kernel_fault;
use crate::spv::stake_rules::mint_fault;
use crate::spv::stake_rules::modifier_fault;
use crate::spv::stake_rules::place_fault;
use crate::spv::stake_rules::pos_fault;
use crate::spv::stake_rules::refused;
use crate::spv::stake_rules::shape_fault;
use crate::spv::stake_rules::stake_signature;
use crate::spv::target::meets_target;
use crate::spv::target::work_of;
use vstd::arithmetic::power2::pow2;
use vstd::prelude::*;
use vstd::utf8::encode_utf8;

verus! {

// ---- headers and targets ----

/// The bytes that a header's hash is over hold each of its fields at its place, but for the
/// height.
pub proof fn law_header_layout(h: SpvHeader)
    ensures
        ({
            let b = header_bytes(h);
            &&& b.len() == 120
            &&& le_value(b.take(4)) == h.version
            &&& b.subrange(4, 36) == h.prev_hash@
            &&& b.subrange(36, 68) == h.merkle_root@
            &&& b.subrange(68, 100) == h.utxo_root@
            &&& le_value(b.subrange(100, 104)) == h.timestamp
            &&& le_value(b.subrange(104, 108)) == h.bits
            &&& le_value(b.subrange(108, 112)) == h.nonce
            &&& le_value(b.subrange(112, 120)) == h.stake_modifier
        }),
        hash_of(h) == sha256_of(sha256_of(header_bytes(h))),
{
    let b = header_bytes(h);
    lemma_pow256_values();
    lemma_le_roundtrip(h.version as nat, 4);
    lemma_le_roundtrip(h.timestamp as nat, 4);
    lemma_le_roundtrip(h.bits as nat, 4);
    lemma_le_roundtrip(h.nonce as nat, 4);
    lemma_le_roundtrip(h.stake_modifier as nat, 8);
    assert(b.take(4) =~= le_digits(h.version as nat, 4));
    assert(b.subrange(4, 36) =~= h.prev_hash@);
    assert(b.subrange(36, 68) =~= h.merkle_root@);
    assert(b.subrange(68, 100) =~= h.utxo_root@);
    assert(b.subrange(100, 104) =~= le_digits(h.timestamp as nat, 4));
    assert(b.subrange(104, 108) =~= le_digits(h.bits as nat, 4));
    assert(b.subrange(108, 112) =~= le_digits(h.nonce as nat, 4));
    assert(b.subrange(112, 120) =~= le_digits(h.stake_modifier as nat, 8));
}

/// A hash, read with its least significant byte first, meets compact bits exactly where it is at
/// most their low three bytes, with as many bytes after them as their highest byte is above three,
/// or without as many as it is below; and no hash meets bits that stand for nothing.
pub proof fn law_target(hash: Seq<u8>, bits: u32, e: nat, m: nat)
    requires
        bits == 0x100_0000 * e + m,
        m < 0x100_0000,
    ensures
        e >= 3 ==> (meets_target(hash, bits) <==> m > 0 && le_value(hash) <= m * pow256(
            (e - 3) as nat,
        )),
        e == 2 ==> (meets_target(hash, bits) <==> m >= 256 && 256 * le_value(hash) <= m),
        e == 1 ==> (meets_target(hash, bits) <==> m >= 65_536 && 65_536 * le_value(hash) <= m),
        e == 0 ==> !meets_target(hash, bits),
{
    lemma_pow256_values();
    assert(bits as nat / 0x100_0000 == e);
    assert(bits as nat % 0x100_0000 == m);
    if e == 3 {
        assert(m / pow256(0) == m);
        assert(m * pow256(0) == m);
    } else if e == 2 {
        assert(pow256((3 - e) as nat) == 256);
    } else if e == 1 {
        assert(pow256((3 - e) as nat) == 65_536);
    }
}

/// The work that bits stand for times their target is at most `2^256`, and no more work is: the
/// target is the low three bytes, with as many bytes after them as the highest byte is above
/// three. Work that 128 bits do not hold counts as the most that they do.
pub proof fn law_work_by_target(bits: u32, e: nat, m: nat)
    requires
        bits == 0x100_0000 * e + m,
        0 < m < 0x100_0000,
    ensures
        ({
            let w = work_of(bits);
            let t = m * pow2(8 * e);
            &&& w <= u128::MAX
            &&& w * t <= pow2(256) * pow2(24)
            &&& w < u128::MAX ==> pow2(256) * pow2(24) < (w + 1) * t
        }),
        work_of((0x100_0000 * e) as u32) == 0,
{
    assert(bits as nat / 0x100_0000 == e);
    assert(bits as nat % 0x100_0000 == m);
    vstd::arithmetic::power2::lemma_pow2_adds(256, 24);
    vstd::arithmetic::power2::lemma_pow2_pos(8 * e);
    let p = pow2(280) as int;
    let t = (m * pow2(8 * e)) as int;
    assert(t > 0) by (nonlinear_arith)
        requires
            m > 0,
            pow2(8 * e) > 0,
            t == m * pow2(8 * e),
    ;
    vstd::arithmetic::div_mod::lemma_fundamental_div_mod(p, t);
    vstd::arithmetic::div_mod::lemma_mod_bound(p, t);
    let q = p / t;
    assert(q * t <= p && p < (q + 1) * t) by (nonlinear_arith)
        requires
            p == t * q + p % t,
            0 <= p % t < t,
    ;
    let w = work_of(bits) as int;
    assert(w <= q);
    assert(w * t <= q * t) by (nonlinear_arith)
        requires
            w <= q,
            t > 0,
    ;
    assert((0x100_0000 * e) as u32 % 0x100_0000 == 0);
}

// ---- the chain of headers ----

/// A header is taken exactly where it is stored already, or its parent is stored and is one lower
/// and earlier, or it needs none: it has height zero, or it is trusted and the first of all. It
/// must have work unless it is trusted, and be no more than two hours ahead of the clock.
pub proof fn law_admission(c: Chain, h: SpvHeader, trusted: bool, now: u32)
    ensures
        admitted(c, h, trusted, now) is Ok <==> {
            ||| c.headers.dom().contains(hash_of(h))
            ||| {
                &&& trusted || meets_target(hash_of(h), h.bits)
                &&& h.timestamp <= now + 7200
                &&& {
                    ||| h.height == 0
                    ||| trusted && c.headers.dom().is_empty()
                    ||| c.headers.dom().contains(h.prev_hash@) && c.headers[h.prev_hash@].height + 1
                        == h.height && c.headers[h.prev_hash@].timestamp < h.timestamp
                }
            }
        },
        received(c, h, now) is Ok <==> h.nonce > 0 && admitted(c, h, false, now) is Ok,
        received(c, h, now) is Ok ==> received(c, h, now) == admitted(c, h, false, now),
{
}

/// A header that is stored carries the work of its parent and its own, as far as 128 bits hold it;
/// one without a parent carries its own.
pub proof fn law_work_adds_up(c: Chain, h: SpvHeader, trusted: bool, now: u32)
    requires
        admitted(c, h, trusted, now) is Ok,
        !c.headers.dom().contains(hash_of(h)),
    ensures
        ({
            let d = admitted(c, h, trusted, now)->Ok_0;
            let before = if h.height > 0 && c.headers.dom().contains(h.prev_hash@) {
                c.work[h.prev_hash@]
            } else {
                0
            };
            let all = before + work_of(h.bits);
            &&& d.headers[hash_of(h)] == h
            &&& all <= u128::MAX ==> d.work[hash_of(h)] == all
            &&& all > u128::MAX ==> d.work[hash_of(h)] == u128::MAX
        }),
{
}

/// The walk back from the tip begins with the tip and goes from each header to the one that it
/// names as its parent, up to one whose parent is the hash of nothing.
pub proof fn law_walk_goes_to_parents(c: Chain, n: nat)
    ensures
        ancestor(c, 0) == c.best_hash,
        ancestor(c, n + 1) is Some <==> {
            &&& ancestor(c, n) is Some
            &&& c.headers.dom().contains(ancestor(c, n)->0)
            &&& exists|i: int|
                0 <= i < 32 && #[trigger] c.headers[ancestor(c, n)->0].prev_hash@[i] != 0
        },
        ancestor(c, n + 1) is Some ==> ancestor(c, n + 1)->0 == c.headers[ancestor(
            c,
            n,
        )->0].prev_hash@,
{
    if ancestor(c, n) is Some && c.headers.dom().contains(ancestor(c, n)->0) {
        let p = c.headers[ancestor(c, n)->0].prev_hash@;
        let z = crate::spv::merkle::zero_hash();
        if p != z {
            if forall|i: int| 0 <= i < 32 ==> #[trigger] p[i] == 0 {
                assert(p =~= z);
            }
        }
    }
}

/// How far before the tip the hash at place `i` of a locator lies: the first eleven are
/// consecutive, and then the distance between neighbours doubles each time.
pub open spec fn locator_place(i: nat) -> nat {
    if i <= 10 {
        i
    } else {
        8 + pow2((i - 9) as nat)
    }
}

proof fn lemma_locator_place(i: nat)
    ensures
        locator_place(i + 1) == locator_place(i) + stride(i + 1),
        locator_place(i) < locator_place(i + 1),
{
    vstd::arithmetic::power2::lemma2_to64();
    if i >= 10 {
        vstd::arithmetic::power2::lemma_pow2_unfold((i - 8) as nat);
        vstd::arithmetic::power2::lemma_pow2_pos((i - 9) as nat);
        if i == 10 {
            assert(pow2((i - 9) as nat) == 2);
        }
    }
}

proof fn lemma_locator(c: Chain, k: nat, n: nat, i: int)
    requires
        0 <= i,
    ensures
        ({
            let l = locator_from(c, locator_place(k), k, n);
            &&& i < l.len() <==> locator_place((k + i) as nat) < n
            &&& i < l.len() ==> l[i] == ancestor(c, locator_place((k + i) as nat))->0
        }),
    decreases i,
{
    lemma_locator_place(k);
    let l = locator_from(c, locator_place(k), k, n);
    if locator_place(k) < n {
        let rest = locator_from(c, locator_place(k + 1), k + 1, n);
        assert(l == seq![ancestor(c, locator_place(k))->0] + rest);
        if i > 0 {
            lemma_locator(c, k + 1, n, i - 1);
        }
    } else {
        lemma_places_grow(k, (k + i) as nat);
    }
}

proof fn lemma_places_grow(a: nat, b: nat)
    requires
        a <= b,
    ensures
        locator_place(a) <= locator_place(b),
    decreases b,
{
    if a < b {
        lemma_places_grow(a, (b - 1) as nat);
        lemma_locator_place((b - 1) as nat);
    }
}

/// A locator names the hashes at these distances before the tip, as far as the walk goes.
pub proof fn law_locator_places(c: Chain, n: nat, i: int)
    requires
        0 <= i,
    ensures
        i < locator_from(c, 0, 0, n).len() <==> locator_place(i as nat) < n,
        i < locator_from(c, 0, 0, n).len() ==> locator_from(c, 0, 0, n)[i] == ancestor(
            c,
            locator_place(i as nat),
        )->0,
{
    lemma_locator(c, 0, n, i);
}

/// A transaction counts as part of a block exactly where the block is stored and the proof leads
/// from the transaction to the root in its header.
pub proof fn law_inclusion_needs_the_stored_root(c: Chain, block: Seq<u8>, p: MerkleProof)
    ensures
        tx_inclusion_of(c, block, p) is Ok <==> c.headers.dom().contains(block)
            && c.headers[block].merkle_root@ == climb(p.txid@, steps(p.siblings@)),
{
}

// ---- trees of hashes ----

/// The root over nothing is all zeros, a single leaf is its own root, and the root over two is the
/// double digest of the first followed by the second.
pub proof fn law_small_roots(a: Seq<u8>, b: Seq<u8>, i: int)
    requires
        0 <= i < 32,
    ensures
        root_over(Seq::empty()).len() == 32,
        root_over(Seq::empty())[i] == 0,
        root_over(seq![a]) == a,
        root_over(seq![a, b]) == sha256_of(sha256_of(a + b)),
{
    let l = seq![a, b];
    reveal_with_fuel(root_over, 3);
    assert(level_above(l).len() == 1);
    assert(level_above(l)[0] == sha256_of(sha256_of(a + b)));
}

/// The root over two halves, each with a power of two of leaves, is the root over the roots of the
/// halves.
pub proof fn law_root_over_halves(left: Seq<Seq<u8>>, right: Seq<Seq<u8>>, k: nat)
    requires
        left.len() == pow2(k),
        right.len() == pow2(k),
    ensures
        root_over(left + right) == root_over(seq![root_over(left), root_over(right)]),
    decreases k,
{
    vstd::arithmetic::power2::lemma2_to64();
    let all = left + right;
    if k == 0 {
        assert(left =~= seq![left[0]]);
        assert(right =~= seq![right[0]]);
        assert(all =~= seq![root_over(left), root_over(right)]);
    } else {
        vstd::arithmetic::power2::lemma_pow2_unfold(k);
        vstd::arithmetic::power2::lemma_pow2_pos((k - 1) as nat);
        let a = level_above(left);
        let b = level_above(right);
        assert(level_above(all) =~= a + b) by {
            assert forall|i: int| 0 <= i < level_above(all).len() implies level_above(all)[i] == (a
                + b)[i] by {
                if i < a.len() {
                    assert(all[2 * i] == left[2 * i] && all[2 * i + 1] == left[2 * i + 1]);
                } else {
                    let j = i - a.len();
                    assert(all[2 * i] == right[2 * j] && all[2 * i + 1] == right[2 * j + 1]);
                }
            }
        }
        law_root_over_halves(a, b, (k - 1) as nat);
    }
}

/// A proof goes up sibling by sibling: one on the left is put before the hash, one on the right
/// after it.
pub proof fn law_climbing(node: Seq<u8>, path: Seq<Step>, s: Step)
    ensures
        climb(node, Seq::empty()) == node,
        climb(node, path.push(s)) == sha256_of(
            sha256_of(
                if s.is_left {
                    s.hash + climb(node, path)
                } else {
                    climb(node, path) + s.hash
                },
            ),
        ),
    decreases path.len(),
{
    let more = path.push(s);
    if path.len() == 0 {
        assert(more.skip(1) =~= Seq::<Step>::empty());
        reveal_with_fuel(climb, 2);
    } else {
        assert(more.skip(1) =~= path.skip(1).push(s));
        law_climbing(crate::spv::merkle::step_up(node, path[0]), path.skip(1), s);
    }
}

// ---- filters ----

/// The bits of a filter are counted from the lowest of the first byte on.
pub proof fn law_bits_are_counted_from_the_lowest(data: Seq<u8>, n: int, k: int)
    requires
        0 <= n < data.len(),
        0 <= k < 8,
    ensures
        bit_set(data, 8 * n + k) <==> (data[n] as int / pow2(k as nat) as int) % 2 == 1,
{
    vstd::arithmetic::power2::lemma2_to64();
    let b = data[n];
    assert((8 * n + k) / 8 == n && (8 * n + k) % 8 == k);
    assert(b & (1u8 << 0u8) != 0 <==> b / 1 % 2 == 1) by (bit_vector);
    assert(b & (1u8 << 1u8) != 0 <==> b / 2 % 2 == 1) by (bit_vector);
    assert(b & (1u8 << 2u8) != 0 <==> b / 4 % 2 == 1) by (bit_vector);
    assert(b & (1u8 << 3u8) != 0 <==> b / 8 % 2 == 1) by (bit_vector);
    assert(b & (1u8 << 4u8) != 0 <==> b / 16 % 2 == 1) by (bit_vector);
    assert(b & (1u8 << 5u8) != 0 <==> b / 32 % 2 == 1) by (bit_vector);
    assert(b & (1u8 << 6u8) != 0 <==> b / 64 % 2 == 1) by (bit_vector);
    assert(b & (1u8 << 7u8) != 0 <==> b / 128 % 2 == 1) by (bit_vector);
}

#[verifier::spinoff_prover]
proof fn lemma_seed(i: u32, tweak: u32)
    ensures
        i.wrapping_mul(0xfba4c795).wrapping_add(tweak) as int == (i as int * 0xfba4_c795 + tweak)
            % 0x1_0000_0000,
{
    let x = i as int * 0xfba4_c795;
    let w = i.wrapping_mul(0xfba4c795) as int;
    assert(w == x % 0x1_0000_0000);
    vstd::arithmetic::div_mod::lemma_add_mod_noop(x, tweak as int, 0x1_0000_0000);
    vstd::arithmetic::div_mod::lemma_add_mod_noop(w, tweak as int, 0x1_0000_0000);
}

/// Every hash function of a filter is the murmur hash with a seed of its own, taken by the number
/// of bits.
pub proof fn law_probes(f: Bloom, item: Seq<u8>, i: u32)
    requires
        0 < f.data.len() <= 36_000,
    ensures
        0 <= probe(f, item, i) < 8 * f.data.len(),
        exists|seed: u32|
            #[trigger] murmur3_of(item, seed) as int % (8 * f.data.len() as int) == probe(f, item, i)
                && seed as int == (i as int * 0xfba4_c795 + f.tweak) % 0x1_0000_0000,
{
    let seed = i.wrapping_mul(0xfba4c795).wrapping_add(f.tweak);
    lemma_seed(i, f.tweak);
    let m = 8 * f.data.len() as int;
    vstd::arithmetic::div_mod::lemma_mod_bound(murmur3_of(item, seed) as int, m);
    assert(murmur3_of(item, seed) as int % m == probe(f, item, i));
}

/// The bytes that say which outputs a node adds, and the largest filter and number of functions.
pub proof fn law_flags_and_limits(b: u8)
    ensures
        flags_byte(BloomFlags::Nothing) == 0,
        flags_byte(BloomFlags::All) == 1,
        flags_byte(BloomFlags::PubKeyOnly) == 2,
        b != 1 && b != 2 ==> flags_of(b) == BloomFlags::Nothing,
        MAX_BLOOM_FILTER_SIZE == 36_000,
        MAX_HASH_FUNCS == 50,
{
}

/// A script stands in a block filter as its keyed hash, taken by `2^19` times the number of
/// elements; a code is a unary quotient by `2^19` and nineteen bits.
pub proof fn law_filter_numbers(key: Seq<u8>, script: Seq<u8>, n: nat)
    requires
        0 < n < 0x10_0000_0000,
    ensures
        hash_range(n) == 524_288 * n,
        script_number(key, script, hash_range(n)) == siphash_of(key, script) as int % (524_288
            * n as int),
        GCS_P == 19,
        MAX_QUOTIENT == 1_000_000,
{
}

proof fn lemma_bits_value(x: nat, n: nat, i: int)
    requires
        0 <= i < n,
    ensures
        low_bits(x, n).len() == n,
        low_bits(x, n)[i] == (x / pow2((n - 1 - i) as nat) % 2 == 1),
    decreases n,
{
    vstd::arithmetic::power2::lemma2_to64();
    lemma_bits_len(x, n);
    lemma_bits_len(x / 2, (n - 1) as nat);
    if i < n - 1 {
        lemma_bits_value(x / 2, (n - 1) as nat, i);
        let k = (n - 2 - i) as nat;
        vstd::arithmetic::power2::lemma_pow2_unfold(k + 1);
        vstd::arithmetic::power2::lemma_pow2_pos(k);
        vstd::arithmetic::div_mod::lemma_div_denominator(x as int, 2, pow2(k) as int);
        assert(x / 2 / pow2(k) == x / pow2(k + 1));
    } else {
        assert(pow2((n - 1 - i) as nat) == 1);
        assert(x / 1 == x);
    }
}

proof fn lemma_bits_len(x: nat, n: nat)
    ensures
        low_bits(x, n).len() == n,
    decreases n,
{
    if n > 0 {
        lemma_bits_len(x / 2, (n - 1) as nat);
    }
}

/// The code of a number: as many ones as `2^p` goes into it, a zero, and then the rest in binary,
/// its highest bit first.
pub proof fn law_golomb_code(x: nat, p: nat, q: nat, r: nat, i: int)
    requires
        x == q * pow2(p) + r,
        r < pow2(p),
        0 <= i < code_of(x, p).len(),
    ensures
        code_of(x, p).len() == q + 1 + p,
        i < q ==> code_of(x, p)[i],
        i == q ==> !code_of(x, p)[i],
        i > q ==> code_of(x, p)[i] == (r / pow2((p + q - i) as nat) % 2 == 1),
{
    vstd::arithmetic::div_mod::lemma_fundamental_div_mod_converse(
        x as int,
        pow2(p) as int,
        q as int,
        r as int,
    );
    assert(x / pow2(p) == q && x % pow2(p) == r);
    lemma_bits_len(r, p);
    assert(ones(q).len() == q);
    if i > q {
        lemma_bits_value(r, p, i - q - 1);
    }
}

/// The bits of a coded set are counted from the highest of the first byte on.
pub proof fn law_stream_bits(data: Seq<u8>, n: int, k: int)
    requires
        0 <= n < data.len(),
        0 <= k < 8,
    ensures
        stream_bit(data, 8 * n + k) <==> (data[n] as int / pow2((7 - k) as nat) as int) % 2 == 1,
{
    vstd::arithmetic::power2::lemma2_to64();
    let b = data[n];
    assert((8 * n + k) / 8 == n && (8 * n + k) % 8 == k);
    assert((b >> 0u8) & 1 == 1 <==> b / 1 % 2 == 1) by (bit_vector);
    assert((b >> 1u8) & 1 == 1 <==> b / 2 % 2 == 1) by (bit_vector);
    assert((b >> 2u8) & 1 == 1 <==> b / 4 % 2 == 1) by (bit_vector);
    assert((b >> 3u8) & 1 == 1 <==> b / 8 % 2 == 1) by (bit_vector);
    assert((b >> 4u8) & 1 == 1 <==> b / 16 % 2 == 1) by (bit_vector);
    assert((b >> 5u8) & 1 == 1 <==> b / 32 % 2 == 1) by (bit_vector);
    assert((b >> 6u8) & 1 == 1 <==> b / 64 % 2 == 1) by (bit_vector);
    assert((b >> 7u8) & 1 == 1 <==> b / 128 % 2 == 1) by (bit_vector);
}

// ---- transactions ----

/// The number of a transaction's type.
pub proof fn law_transaction_types(t: Tx)
    ensures
        t.tx_type == TxType::Standard ==> tx_bytes(t)[4] == 0,
        t.tx_type == TxType::Coinbase ==> tx_bytes(t)[4] == 1,
        t.tx_type == TxType::Coinstake ==> tx_bytes(t)[4] == 2,
        t.tx_type == TxType::LegacyClaim ==> tx_bytes(t)[4] == 3,
        t.tx_type == TxType::AtomicSwap ==> tx_bytes(t)[4] == 4,
        t.tx_type == TxType::TorrentIncentive ==> tx_bytes(t)[4] == 5,
        tx_bytes(t)[5] == 0 && tx_bytes(t)[6] == 0 && tx_bytes(t)[7] == 0,
{
    let n = crate::spv::stake::type_number(t.tx_type);
    lemma_le_digits_len(t.version as nat, 4);
    lemma_small_digits(n);
    let b = tx_bytes(t);
    assert(b[4] == le_digits(n, 4)[0]);
    assert(b[5] == le_digits(n, 4)[1]);
    assert(b[6] == le_digits(n, 4)[2]);
    assert(b[7] == le_digits(n, 4)[3]);
}

proof fn lemma_small_digits(n: nat)
    requires
        n < 256,
    ensures
        le_digits(n, 4) == seq![n as u8, 0u8, 0u8, 0u8],
{
    reveal_with_fuel(le_digits, 5);
    assert(le_digits(n, 4) =~= seq![n as u8, 0u8, 0u8, 0u8]);
}

/// The bytes of a transaction hold its version, its type, the number of its inputs and the inputs,
/// the number of its outputs and the outputs, its lock time and the claim, in this order.
pub proof fn law_transaction_layout(t: Tx)
    requires
        t.inputs.len() < 0x1_0000_0000,
        t.outputs.len() < 0x1_0000_0000,
    ensures
        ({
            let b = tx_bytes(t);
            let i = inputs_bytes(t.inputs);
            let o = outputs_bytes(t.outputs);
            let x = 16 + i.len() as int;
            let y = x + 8 + o.len() as int;
            &&& le_value(b.take(4)) == t.version
            &&& le_value(b.subrange(8, 16)) == t.inputs.len()
            &&& b.subrange(16, x) == i
            &&& le_value(b.subrange(x, x + 8)) == t.outputs.len()
            &&& b.subrange(x + 8, y) == o
            &&& le_value(b.subrange(y, y + 4)) == t.lock_time
            &&& b.skip(y + 4) == optional(
                match t.claim_address {
                    Some(a) => Some(encode_utf8(a)),
                    None => None,
                },
            ) + optional(t.claim_signature)
        }),
        txid_of(t) == sha256_of(sha256_of(tx_bytes(t))),
{
    let b = tx_bytes(t);
    let i = inputs_bytes(t.inputs);
    let o = outputs_bytes(t.outputs);
    let x = 16 + i.len() as int;
    let y = x + 8 + o.len() as int;
    lemma_pow256_values();
    lemma_le_roundtrip(t.version as nat, 4);
    lemma_le_roundtrip(t.inputs.len(), 8);
    lemma_le_roundtrip(t.outputs.len(), 8);
    lemma_le_roundtrip(t.lock_time as nat, 4);
    lemma_le_digits_len(crate::spv::stake::type_number(t.tx_type), 4);
    assert(b.take(4) =~= le_digits(t.version as nat, 4));
    assert(b.subrange(8, 16) =~= le_digits(t.inputs.len(), 8));
    assert(b.subrange(16, x) =~= i);
    assert(b.subrange(x, x + 8) =~= le_digits(t.outputs.len(), 8));
    assert(b.subrange(x + 8, y) =~= o);
    assert(b.subrange(y, y + 4) =~= le_digits(t.lock_time as nat, 4));
    assert(b.skip(y + 4) =~= optional(
        match t.claim_address {
            Some(a) => Some(encode_utf8(a)),
            None => None,
        },
    ) + optional(t.claim_signature));
}

/// The bytes of one more input and of one more output come after those before them, each with its
/// fields at their places.
pub proof fn law_inputs_and_outputs(ins: Seq<Input>, i: Input, outs: Seq<Output>, o: Output)
    requires
        i.prev_txid.len() == 32,
        i.script_sig.len() < 0x1_0000_0000,
        o.script_pubkey.len() < 0x1_0000_0000,
    ensures
        inputs_bytes(ins.push(i)) == inputs_bytes(ins) + input_bytes(i),
        outputs_bytes(outs.push(o)) == outputs_bytes(outs) + output_bytes(o),
        ({
            let b = input_bytes(i);
            let n = i.script_sig.len() as int;
            &&& b.len() == 48 + n
            &&& b.take(32) == i.prev_txid
            &&& le_value(b.subrange(32, 36)) == i.prev_vout
            &&& le_value(b.subrange(36, 44)) == n
            &&& b.subrange(44, 44 + n) == i.script_sig
            &&& le_value(b.skip(44 + n)) == i.sequence
        }),
        ({
            let b = output_bytes(o);
            &&& le_value(b.take(8)) == o.value
            &&& le_value(b.subrange(8, 16)) == o.script_pubkey.len()
            &&& b.skip(16) == o.script_pubkey
        }),
{
    assert(ins.push(i).drop_last() =~= ins);
    assert(outs.push(o).drop_last() =~= outs);
    lemma_pow256_values();
    lemma_le_roundtrip(i.prev_vout as nat, 4);
    lemma_le_roundtrip(i.script_sig.len(), 8);
    lemma_le_roundtrip(i.sequence as nat, 4);
    lemma_le_roundtrip(o.value as nat, 8);
    lemma_le_roundtrip(o.script_pubkey.len(), 8);
    let b = input_bytes(i);
    let n = i.script_sig.len() as int;
    assert(b.take(32) =~= i.prev_txid);
    assert(b.subrange(32, 36) =~= le_digits(i.prev_vout as nat, 4));
    assert(b.subrange(36, 44) =~= le_digits(i.script_sig.len(), 8));
    assert(b.subrange(44, 44 + n) =~= i.script_sig);
    assert(b.skip(44 + n) =~= le_digits(i.sequence as nat, 4));
    let c = output_bytes(o);
    assert(c.take(8) =~= le_digits(o.value as nat, 8));
    assert(c.subrange(8, 16) =~= le_digits(o.script_pubkey.len(), 8));
    assert(c.skip(16) =~= o.script_pubkey);
}

/// What the signature of an input is over: the transaction with the spent script in that input and
/// none in the others, and then the number one in four bytes. All else of the transaction counts.
pub proof fn law_what_is_signed(t: Tx, index: int, subscript: Seq<u8>, k: int)
    requires
        0 <= index < t.inputs.len(),
        0 <= k < t.inputs.len(),
    ensures
        ({
            let f = signing_form(t, index, subscript);
            &&& f.inputs.len() == t.inputs.len()
            &&& f.inputs[index].script_sig == subscript
            &&& k != index ==> f.inputs[k].script_sig.len() == 0
            &&& f.inputs[k].prev_txid == t.inputs[k].prev_txid
            &&& f.inputs[k].prev_vout == t.inputs[k].prev_vout
            &&& f.inputs[k].sequence == t.inputs[k].sequence
            &&& f.outputs == t.outputs && f.version == t.version && f.tx_type == t.tx_type
                && f.lock_time == t.lock_time && f.claim_address == t.claim_address
                && f.claim_signature == t.claim_signature
            &&& sighash_of(t, index, subscript) == sha256_of(
                sha256_of(tx_bytes(f) + seq![1u8, 0u8, 0u8, 0u8]),
            )
        }),
{
    reveal_with_fuel(le_digits, 5);
    assert(le_digits(1, 4) =~= seq![1u8, 0u8, 0u8, 0u8]);
}

/// The sum of the outputs.
pub open spec fn sum_of(s: Seq<Output>) -> nat
    decreases s.len(),
{
    if s.len() == 0 {
        0
    } else {
        s[0].value as nat + sum_of(s.skip(1))
    }
}

proof fn lemma_sum_last(s: Seq<Output>)
    requires
        s.len() > 0,
    ensures
        sum_of(s) == sum_of(s.drop_last()) + s.last().value,
    decreases s.len(),
{
    if s.len() > 1 {
        lemma_sum_last(s.skip(1));
        assert(s.skip(1).drop_last() =~= s.drop_last().skip(1));
    } else {
        assert(s.skip(1) =~= s.drop_last());
    }
}

/// The sum of a transaction's outputs is exact as far as 64 bits hold it, and the most that they
/// hold where they do not.
pub proof fn law_total_output(s: Seq<Output>)
    ensures
        sum_of(s) <= u64::MAX ==> capped_total(s) == sum_of(s),
        sum_of(s) > u64::MAX ==> capped_total(s) == u64::MAX,
    decreases s.len(),
{
    if s.len() > 0 {
        lemma_sum_last(s);
        law_total_output(s.drop_last());
    }
}

/// The bytes that an unspent output commits to hold each of its fields at its place.
pub proof fn law_utxo_layout(u: SpvUtxo)
    requires
        u.script_pubkey@.len() < 0x1_0000_0000,
    ensures
        ({
            let b = utxo_bytes(u);
            let n = u.script_pubkey@.len() as int;
            let k = compact_size(u.script_pubkey@.len()).len() as int;
            &&& b.len() == 52 + k + n
            &&& b.take(32) == u.txid@
            &&& le_value(b.subrange(32, 36)) == u.vout
            &&& le_value(b.subrange(36, 44)) == u.value
            &&& n < 253 ==> k == 1 && b[44] == n
            &&& 253 <= n < 0x1_0000 ==> k == 3 && b[44] == 0xfd && le_value(b.subrange(45, 47)) == n
            &&& n >= 0x1_0000 ==> k == 5 && b[44] == 0xfe && le_value(b.subrange(45, 49)) == n
            &&& b.subrange(44 + k, 44 + k + n) == u.script_pubkey@
            &&& le_value(b.subrange(44 + k + n, 48 + k + n)) == u.height
            &&& le_value(b.skip(48 + k + n)) == u.timestamp
        }),
{
    let b = utxo_bytes(u);
    let n = u.script_pubkey@.len() as int;
    let c = compact_size(n as nat);
    lemma_pow256_values();
    lemma_le_roundtrip(u.vout as nat, 4);
    lemma_le_roundtrip(u.value as nat, 8);
    lemma_le_roundtrip(u.height as nat, 4);
    lemma_le_roundtrip(u.timestamp as nat, 4);
    if n >= 0x1_0000 {
        lemma_le_roundtrip(n as nat, 4);
        assert(b.subrange(45, 49) =~= le_digits(n as nat, 4));
    } else if n >= 253 {
        lemma_le_roundtrip(n as nat, 2);
        assert(b.subrange(45, 47) =~= le_digits(n as nat, 2));
    }
    let k = c.len() as int;
    assert(b.take(32) =~= u.txid@);
    assert(b.subrange(32, 36) =~= le_digits(u.vout as nat, 4));
    assert(b.subrange(36, 44) =~= le_digits(u.value as nat, 8));
    assert(b[44] == c[0]);
    assert(b.subrange(44 + k, 44 + k + n) =~= u.script_pubkey@);
    assert(b.subrange(44 + k + n, 48 + k + n) =~= le_digits(u.height as nat, 4));
    assert(b.skip(48 + k + n) =~= le_digits(u.timestamp as nat, 4));
}

// ---- stakes ----

/// What a header's stake modifier is made from: eight bytes of the modifier before and the hash of
/// the block before.
pub proof fn law_modifier_and_kernel(m: u64, hash: Seq<u8>, vout: u32, time: u32)
    requires
        hash.len() == 32,
    ensures
        exists|b: Seq<u8>| #[trigger]
            b.len() == 40 && le_value(b.take(8)) == m && b.skip(8) == hash && next_modifier(m, hash)
                == le_value(sha256_of(sha256_of(b)).take(8)) as u64,
        exists|b: Seq<u8>| #[trigger]
            b.len() == 48 && le_value(b.take(8)) == m && b.subrange(8, 40) == hash && le_value(
                b.subrange(40, 44),
            ) == vout && le_value(b.skip(44)) == time && kernel_of(m, hash, vout, time)
                == sha256_of(sha256_of(b)),
{
    lemma_pow256_values();
    lemma_le_roundtrip(m as nat, 8);
    lemma_le_roundtrip(vout as nat, 4);
    lemma_le_roundtrip(time as nat, 4);
    let b = le_digits(m as nat, 8) + hash;
    assert(b.take(8) =~= le_digits(m as nat, 8));
    assert(b.skip(8) =~= hash);
    assert(b.len() == 40);
    let c = le_digits(m as nat, 8) + hash + le_digits(vout as nat, 4) + le_digits(time as nat, 4);
    assert(c.take(8) =~= le_digits(m as nat, 8));
    assert(c.subrange(8, 40) =~= hash);
    assert(c.subrange(40, 44) =~= le_digits(vout as nat, 4));
    assert(c.skip(44) =~= le_digits(time as nat, 4));
    assert(c.len() == 48);
}

/// Whether a minted block's header follows its parent: one higher, with the same difficulty,
/// later, no more than two hours ahead of the clock, and with the modifier that follows.
pub open spec fn follows(parent: SpvHeader, h: SpvHeader, p: StakeProof, now: u32) -> bool {
    &&& h.height == parent.height + 1
    &&& h.bits == parent.bits
    &&& parent.timestamp < h.timestamp <= now + 7200
    &&& p.prev_stake_modifier == parent.stake_modifier
    &&& h.stake_modifier == next_modifier(parent.stake_modifier, h.prev_hash@)
}

/// Whether a transaction stakes the output of a proof: it is the first of the block, marks itself
/// by an empty output, and spends that output, which was unspent before the block.
pub open spec fn stakes(parent: SpvHeader, h: SpvHeader, p: StakeProof) -> bool {
    let t = p.coinstake@;
    &&& t.tx_type == TxType::Coinstake
    &&& t.inputs.len() == 1
    &&& t.outputs.len() > 0
    &&& t.outputs[0].value == 0
    &&& t.outputs[0].script_pubkey.len() == 0
    &&& t.lock_time == h.height
    &&& t.inputs[0].prev_txid == p.utxo.txid@
    &&& t.inputs[0].prev_vout == p.utxo.vout
    &&& p.tx_merkle_proof.index == 0
    &&& climb(txid_of(t), steps(p.tx_merkle_proof.siblings@)) == h.merkle_root@
    &&& p.tx_merkle_proof.txid@ == txid_of(t)
    &&& p.utxo_proof.root@ == parent.utxo_root@
    &&& climb(sha256_of(sha256_of(utxo_bytes(p.utxo))), steps(p.utxo_proof.siblings@))
        == parent.utxo_root@
}

/// Whether a stake is large and old enough and wins: at least one coin, between six hours and six
/// days old, and a thousand times the first four bytes of its hash are at most its value.
pub open spec fn wins(h: SpvHeader, p: StakeProof) -> bool {
    &&& p.utxo.value >= 100_000_000
    &&& p.utxo.timestamp + 6 * 3600 <= h.timestamp <= p.utxo.timestamp + 6 * 86_400
    &&& 1000 * le_value(
        kernel_of(p.prev_stake_modifier, p.utxo.txid@, p.utxo.vout, h.timestamp).take(4),
    ) <= p.utxo.value
}

/// The rules on a header's place, its stake's inclusion and its luck are these and no others.
pub proof fn law_stake_rules(parent: SpvHeader, h: SpvHeader, p: StakeProof, now: u32)
    requires
        h.height > 0,
    ensures
        place_fault(parent, h, now) is None && modifier_fault(parent, h, p) is None <==> follows(
            parent,
            h,
            p,
            now,
        ),
        shape_fault(h, p.coinstake@) is None && inclusion_fault(parent, h, p) is None <==> stakes(
            parent,
            h,
            p,
        ),
        kernel_fault(h, p) is None <==> wins(h, p),
{
}

/// A stake that wins may mint five in a hundred of its value for a year, for its age, and no more.
pub proof fn law_stake_mints_its_reward(h: SpvHeader, p: StakeProof)
    requires
        wins(h, p),
        sum_of(p.coinstake@.outputs) <= u64::MAX,
    ensures
        mint_fault(h, p) is None <==> 100 * 365 * 86_400 * (sum_of(p.coinstake@.outputs)
            - p.utxo.value) <= 5 * (p.utxo.value * (h.timestamp - p.utxo.timestamp)),
{
    law_total_output(p.coinstake@.outputs);
    let age = (h.timestamp - p.utxo.timestamp) as u64;
    let v = p.utxo.value;
    crate::spv::stake::law_reward_is_five_in_a_hundred_a_year(v, age);
    let d = sum_of(p.coinstake@.outputs) - v;
    let r = reward_of(v, age) as int;
    assert(6 * 86_400 == 518_400) by (nonlinear_arith);
    assert(0 <= v * age) by (nonlinear_arith);
    assert(100 * 365 * 86_400 * d == 3_153_600_000 * d) by (nonlinear_arith);
    assert(100 * 365 * 86_400 * r == 3_153_600_000 * r) by (nonlinear_arith);
    assert(100 * 365 * 86_400 * (r + 1) == 3_153_600_000 * (r + 1)) by (nonlinear_arith);
}

/// The length of a signature and its hash type, the signature, the hash type one, the length of a
/// key and the key.
pub open spec fn unlocking_script(der: Seq<u8>, key: Seq<u8>) -> Seq<u8> {
    seq![(der.len() + 1) as u8] + der + seq![1u8, key.len() as u8] + key
}

/// A stake is signed exactly where its unlocking script is the length of a signature and its hash
/// type, the signature, the hash type one, the length of a key and the key; the signature is over
/// the transaction with the staked script; and that script pays to the hash of the key.
pub proof fn law_stake_signature(t: Tx, u: SpvUtxo, der: Seq<u8>, key: Seq<u8>)
    requires
        t.inputs.len() > 0,
        der.len() < 255,
        key.len() <= 255,
        t.inputs[0].script_sig == unlocking_script(der, key),
    ensures
        stake_signature(t, u) is Ok <==> {
            let s = u.script_pubkey@;
            &&& ecdsa_check(sighash_of(t, 0, s), der, key) is Ok
            &&& s.len() == 25
            &&& s.take(3) == seq![0x76u8, 0xa9u8, 0x14u8]
            &&& s.subrange(3, 23) == ripemd160_of(sha256_of(key))
            &&& s.skip(23) == seq![0x88u8, 0xacu8]
        },
{
    let s = t.inputs[0].script_sig;
    let n = s[0] as int;
    assert(s[n] == 1 && s[n + 1] == key.len());
    assert(s.subrange(1, n) =~= der);
    assert(s.skip(n + 2) =~= key);
    let k = u.script_pubkey@;
    if k.len() == 25 {
        assert(k.take(3) =~= seq![k[0], k[1], k[2]]);
        assert(k.skip(23) =~= seq![k[23], k[24]]);
        if k.take(3) == seq![0x76u8, 0xa9u8, 0x14u8] {
            assert(k[0] == k.take(3)[0] && k[1] == k.take(3)[1] && k[2] == k.take(3)[2]);
        }
        if k.skip(23) == seq![0x88u8, 0xacu8] {
            assert(k[23] == k.skip(23)[0] && k[24] == k.skip(23)[1]);
        }
    }
}

/// A stake whose unlocking script has another form is not signed.
pub proof fn law_other_scripts_do_not_sign(t: Tx, u: SpvUtxo)
    requires
        t.inputs.len() > 0,
        stake_signature(t, u) is Ok,
    ensures
        exists|der: Seq<u8>, key: Seq<u8>|
            der.len() < 255 && key.len() <= 255 && t.inputs[0].script_sig
                == #[trigger] unlocking_script(der, key),
{
    let s = t.inputs[0].script_sig;
    let n = s[0] as int;
    let der = s.subrange(1, n);
    let key = s.skip(n + 2);
    assert(s =~= unlocking_script(der, key));
}

/// A minted block's header that breaks no rule is told that its proof says nothing of the outputs
/// after the block; one that is mined, the first of a chain, or without a parent is told so.
pub proof fn law_minted_headers(parent: Option<SpvHeader>, h: SpvHeader, p: StakeProof, now: u32)
    ensures
        h.nonce == 0 && h.height > 0 && parent is Some && follows(parent->0, h, p, now) && stakes(
            parent->0,
            h,
            p,
        ) && wins(h, p) && stake_signature(p.coinstake@, p.utxo) is Ok && mint_fault(h, p) is None
            ==> pos_fault(parent, h, p, now) == refused(
            "stake proof authenticates the parent UTXO but not the committed post-state; use add_trusted_header until state-transition proofs are implemented"@,
        ),
        h.nonce > 0 ==> pos_fault(parent, h, p, now) == refused(
            "expected PoS header (nonce 0)"@,
        ),
        h.nonce == 0 && h.height == 0 ==> pos_fault(parent, h, p, now) == refused(
            "PoS genesis not allowed"@,
        ),
        h.nonce == 0 && h.height > 0 && parent is None ==> pos_fault(parent, h, p, now)
            == SpvFault::UnknownParent(crate::text::hex_text(h.prev_hash@)),
{
    if h.height > 0 && parent is Some {
        law_stake_rules(parent->0, h, p, now);
    }
}

/// A filter denies an item as soon as one of the item's bits is not set, and an empty filter denies
/// all. Putting an item in sets no bits but the item's.
pub proof fn law_unset_bits_deny(f: Bloom, g: Bloom, item: Seq<u8>, i: u32, bit: int)
    ensures
        i < f.hash_funcs && !bit_set(f.data, probe(f, item, i)) ==> !reports(f, item),
        f.data.len() == 0 ==> !reports(f, item),
        inserted(f, g, item) && 0 <= bit < 8 * f.data.len() && (forall|j: u32|
            j < f.hash_funcs ==> #[trigger] probe(f, item, j) != bit) ==> bit_set(g.data, bit)
            == bit_set(f.data, bit),
        inserted(f, g, item) && i < f.hash_funcs && 0 < f.data.len() <= 36_000 ==> bit_set(
            g.data,
            probe(f, item, i),
        ),
{
    if 0 < f.data.len() <= 36_000 {
        law_probes(f, item, i);
    }
}

/// Headers that come together are taken one after the other, up to the first that is refused. An
/// error is told where that is the first of all.
pub proof fn law_headers_are_taken_in_turn(
    before: Chain,
    after: Chain,
    headers: Seq<SpvHeader>,
    times: Seq<u32>,
    r: Result<usize, SpvError>,
    k: nat,
)
    requires
        takes_prefix(before, after, headers, times, r),
    ensures
        after_first(before, headers, times, 0) == Ok::<Chain, SpvFault>(before),
        r matches Ok(n) ==> {
            &&& n <= headers.len()
            &&& k < n && after_first(before, headers, times, k) is Ok ==> after_first(
                before,
                headers,
                times,
                k + 1,
            ) == received(after_first(before, headers, times, k)->Ok_0, headers[k as int], times[k as int])
            &&& after_first(before, headers, times, n as nat) == Ok::<Chain, SpvFault>(after)
            &&& n < headers.len() ==> received(after, headers[n as int], times[n as int]) is Err
            &&& headers.len() > 0 ==> n > 0
        },
        r is Err ==> after == before && headers.len() > 0 && received(before, headers[0], times[0]) is Err,
{
}

/// A leaf is under a commitment exactly where the proof is for that commitment and leads there.
pub proof fn law_leaves_under_commitments(
    root: Seq<u8>,
    path: Seq<Step>,
    expected: Seq<u8>,
    leaf: Seq<u8>,
)
    ensures
        inclusion_of(root, path, expected, leaf) is Ok <==> root == expected && climb(leaf, path)
            == expected,
{
}

/// The numbers of a filter are below 524,288 times the number of its scripts; one without scripts is
/// ranged like one with a single script. The range stops at the largest number of 64 bits.
pub proof fn law_range_of_numbers(n: nat)
    ensures
        hash_range(0) == 524_288,
        0 < n && n * 524_288 <= u64::MAX ==> hash_range(n) == n * 524_288,
        n * 524_288 > u64::MAX ==> hash_range(n) == u64::MAX,
{
}

} // verus!
