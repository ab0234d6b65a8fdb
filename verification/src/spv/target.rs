//! Difficulty: compact targets and the work that a header stands for.
use crate::bytes::le_value;
use crate::bytes::pow256;
use vstd::arithmetic::power2::lemma_pow2_pos;
use vstd::arithmetic::power2::lemma_pow2_unfold;
use vstd::arithmetic::power2::pow2;
use vstd::prelude::*;

verus! {

/// The exponent of a compact target: its highest byte.
pub open spec fn target_exponent(bits: u32) -> nat {
    (bits / 0x100_0000) as nat
}

/// The mantissa of a compact target: its three low bytes.
pub open spec fn target_mantissa(bits: u32) -> nat {
    (bits % 0x100_0000) as nat
}

/// The work that a header stands for: `2^256` by its target, which is the mantissa times
/// `256^(e - 3)`, rounded down, and at most the largest 128-bit number.
pub open spec fn work_of(bits: u32) -> nat {
    let work = pow2(280) / (target_mantissa(bits) * pow2(8 * target_exponent(bits)));
    if target_mantissa(bits) == 0 {
        0
    } else if work > u128::MAX {
        u128::MAX as nat
    } else {
        work
    }
}

/// The target that compact bits stand for; nothing where no hash meets it.
pub open spec fn target_of(bits: u32) -> Option<nat> {
    let e = target_exponent(bits);
    let m = target_mantissa(bits);
    if e == 0 || m == 0 {
        None
    } else if e <= 3 {
        let t = m / pow256((3 - e) as nat);
        if t == 0 {
            None
        } else {
            Some(t)
        }
    } else {
        Some(m * pow256((e - 3) as nat))
    }
}

/// Whether a hash, as a little-endian number, is at most the target.
pub open spec fn meets_target(hash: Seq<u8>, bits: u32) -> bool {
    match target_of(bits) {
        None => false,
        Some(t) => le_value(hash) <= t,
    }
}

/// The work that a header with these bits stands for.
pub fn header_work(bits: u32) -> (r: u128)
    ensures
        r == work_of(bits),
{
    let exponent: u32 = bits / 0x100_0000;
    let mantissa: u128 = (bits % 0x100_0000) as u128;
    if mantissa == 0 {
        return 0;
    }
    if exponent > 35 {
        proof {
            lemma_no_work(mantissa as nat, 8 * exponent as nat);
        }
        return 0;
    }
    // Doubles one, as a quotient and a remainder by the mantissa.
    let shift: u32 = 280 - 8 * exponent;
    let mut quotient: u128 = 1 / mantissa;
    let mut rest: u128 = 1 % mantissa;
    let mut i: u32 = 0;
    proof {
        vstd::arithmetic::power2::lemma2_to64();
        vstd::arithmetic::div_mod::lemma_fundamental_div_mod(1, mantissa as int);
        lemma_work(mantissa as nat, exponent as nat);
    }
    while i < shift
        invariant
            i <= shift,
            0 < mantissa < 0x100_0000,
            mantissa * quotient + rest == pow2(i as nat),
            rest < mantissa,
            mantissa == target_mantissa(bits),
            exponent == target_exponent(bits),
            exponent <= 35,
            shift == 280 - 8 * exponent,
            pow2(280) / (target_mantissa(bits) * pow2(8 * target_exponent(bits))) == pow2(
                shift as nat,
            ) / (mantissa as nat),
        decreases shift - i,
    {
        if quotient > u128::MAX / 2 {
            proof {
                lemma_too_much_work(mantissa as nat, quotient as nat, i as nat, shift as nat);
            }
            return u128::MAX;
        }
        proof {
            lemma_pow2_unfold((i + 1) as nat);
            assert(2 * (mantissa * quotient) == mantissa * (2 * quotient)) by (nonlinear_arith);
            assert(mantissa * (2 * quotient + 1) == mantissa * (2 * quotient) + mantissa)
                by (nonlinear_arith);
        }
        if 2 * rest >= mantissa {
            quotient = 2 * quotient + 1;
            rest = 2 * rest - mantissa;
        } else {
            quotient = 2 * quotient;
            rest = 2 * rest;
        }
        i = i + 1;
    }
    proof {
        vstd::arithmetic::div_mod::lemma_fundamental_div_mod_converse(
            pow2(shift as nat) as int,
            mantissa as int,
            quotient as int,
            rest as int,
        );
    }
    quotient
}

/// A power of two by a product with a smaller one is their quotient by the other factor.
proof fn lemma_work(m: nat, e: nat)
    requires
        0 < m,
        e <= 35,
    ensures
        pow2(280) / (m * pow2(8 * e)) == pow2((280 - 8 * e) as nat) / m,
{
    let p = pow2(8 * e);
    let q = pow2((280 - 8 * e) as nat);
    lemma_pow2_pos(8 * e);
    vstd::arithmetic::power2::lemma_pow2_adds(8 * e, (280 - 8 * e) as nat);
    assert(pow2(280) == p * q);
    assert(m * p == p * m) by (nonlinear_arith);
    vstd::arithmetic::div_mod::lemma_div_denominator((p * q) as int, p as int, m as int);
    vstd::arithmetic::div_mod::lemma_div_multiples_vanish(q as int, p as int);
    assert((p * q) / p == q);
}

proof fn lemma_no_work(m: nat, n: nat)
    requires
        0 < m,
        280 < n,
    ensures
        pow2(280) / (m * pow2(n)) == 0,
{
    vstd::arithmetic::power2::lemma_pow2_strictly_increases(280, n);
    let d = m * pow2(n);
    assert(pow2(n) <= d) by (nonlinear_arith)
        requires
            m >= 1,
            d == m * pow2(n),
    ;
    vstd::arithmetic::div_mod::lemma_basic_div(pow2(280) as int, d as int);
}

proof fn lemma_too_much_work(m: nat, q: nat, i: nat, n: nat)
    requires
        0 < m,
        i < n,
        m * q <= pow2(i),
        q > u128::MAX / 2,
    ensures
        pow2(n) / m > u128::MAX,
{
    lemma_pow2_unfold(i + 1);
    if i + 1 < n {
        vstd::arithmetic::power2::lemma_pow2_strictly_increases(i + 1, n);
    }
    assert(m * (2 * q) == 2 * (m * q)) by (nonlinear_arith);
    assert(m * (2 * q) <= pow2(n));
    vstd::arithmetic::div_mod::lemma_div_is_ordered((m * (2 * q)) as int, pow2(n) as int, m as int);
    vstd::arithmetic::div_mod::lemma_div_multiples_vanish((2 * q) as int, m as int);
}

proof fn lemma_le_order(a: Seq<u8>, b: Seq<u8>, i: int)
    requires
        a.len() == b.len(),
        0 <= i < a.len(),
        a.skip(i + 1) == b.skip(i + 1),
        a[i] < b[i],
    ensures
        le_value(a) < le_value(b),
    decreases i,
{
    if i > 0 {
        let x = a.skip(1);
        let y = b.skip(1);
        assert(x.skip(i) =~= a.skip(i + 1));
        assert(y.skip(i) =~= b.skip(i + 1));
        lemma_le_order(x, y, i - 1);
    } else {
        assert(a.skip(1) == b.skip(1));
    }
}

proof fn lemma_le_zeros(s: Seq<u8>)
    requires
        forall|i: int| 0 <= i < s.len() ==> s[i] == 0,
    ensures
        le_value(s) == 0,
    decreases s.len(),
{
    if s.len() > 0 {
        lemma_le_zeros(s.skip(1));
    }
}

/// The value of three digits after `k` zeros and before zeros.
proof fn lemma_le_shifted(s: Seq<u8>, k: nat, a: u8, b: u8, c: u8)
    requires
        k + 3 <= s.len(),
        forall|i: int|
            0 <= i < s.len() && i != k && i != k + 1 && i != k + 2 ==> #[trigger] s[i] == 0,
        s[k as int] == a,
        s[k as int + 1] == b,
        s[k as int + 2] == c,
    ensures
        le_value(s) == pow256(k) * (a as nat + 256 * (b as nat) + 65536 * (c as nat)),
    decreases k,
{
    if k == 0 {
        let t = s.skip(1);
        let u = t.skip(1);
        let v = u.skip(1);
        assert(t[0] == b && u[0] == c);
        lemma_le_zeros(v);
        assert(le_value(u) == c);
        assert(le_value(t) == b + 256 * le_value(u));
        assert(le_value(s) == a + 256 * le_value(t));
        assert(pow256(0) == 1);
    } else {
        let t = s.skip(1);
        let m = (k - 1) as nat;
        assert(s[0] == 0);
        assert(le_value(s) == 256 * le_value(t));
        assert forall|i: int|
            0 <= i < t.len() && i != m && i != m + 1 && i != m + 2 implies #[trigger] t[i] == 0 by {
            assert(t[i] == s[i + 1]);
        }
        lemma_le_shifted(t, m, a, b, c);
        let x = a as nat + 256 * (b as nat) + 65536 * (c as nat);
        assert(256 * (pow256(m) * x) == (256 * pow256(m)) * x) by (nonlinear_arith);
    }
}

fn at_most(hash: &[u8; 32], target: &Vec<u8>) -> (r: bool)
    requires
        target@.len() == 32,
    ensures
        r == (le_value(hash@) <= le_value(target@)),
{
    let mut i: usize = 32;
    assert(hash@.skip(32) =~= target@.skip(32));
    while i > 0
        invariant
            i <= 32,
            target@.len() == 32,
            hash@.skip(i as int) == target@.skip(i as int),
        decreases i,
    {
        i = i - 1;
        if hash[i] < target[i] {
            proof {
                lemma_le_order(hash@, target@, i as int);
            }
            return true;
        }
        if hash[i] > target[i] {
            proof {
                lemma_le_order(target@, hash@, i as int);
            }
            return false;
        }
        assert(hash@.skip(i as int) =~= seq![hash@[i as int]] + hash@.skip(i + 1));
        assert(target@.skip(i as int) =~= seq![target@[i as int]] + target@.skip(i + 1));
    }
    assert(hash@.skip(0) =~= hash@);
    assert(target@.skip(0) =~= target@);
    true
}

fn three_digits(at: usize, x: u32) -> (v: Vec<u8>)
    requires
        at <= 29,
        x < 0x100_0000,
    ensures
        v@.len() == 32,
        le_value(v@) == pow256(at as nat) * x,
{
    let mut v: Vec<u8> = Vec::new();
    while v.len() < 32
        invariant
            v.len() <= 32,
            forall|i: int| 0 <= i < v@.len() ==> v@[i] == 0,
        decreases 32 - v.len(),
    {
        v.push(0);
    }
    let a: u8 = (x % 256) as u8;
    let b: u8 = (x / 256 % 256) as u8;
    let c: u8 = (x / 65536) as u8;
    v.set(at, a);
    v.set(at + 1, b);
    v.set(at + 2, c);
    proof {
        lemma_le_shifted(v@, at as nat, a, b, c);
        assert(a as nat + 256 * (b as nat) + 65536 * (c as nat) == x);
    }
    v
}

proof fn lemma_pow256_monotone(a: nat, b: nat)
    requires
        a <= b,
    ensures
        0 < pow256(a) <= pow256(b),
    decreases b,
{
    if a < b {
        lemma_pow256_monotone(a, (b - 1) as nat);
    } else if a > 0 {
        lemma_pow256_monotone((a - 1) as nat, (a - 1) as nat);
    }
}

/// A target from `2^256` on is above every hash.
proof fn lemma_every_hash_meets(hash: Seq<u8>, m: nat, k: nat)
    requires
        hash.len() == 32,
        0 < m,
        k >= 32 || (k == 31 && m >= 256) || (k == 30 && m >= 65536),
    ensures
        le_value(hash) <= m * pow256(k),
{
    crate::bytes::lemma_le_value_bound(hash);
    lemma_pow256_monotone(32, if k >= 32 { k } else { 32 });
    lemma_pow256_monotone(k, k);
    assert(pow256(32) == 256 * pow256(31));
    assert(pow256(31) == 256 * pow256(30));
    let p = pow256(k);
    if k >= 32 {
        assert(p <= m * p) by (nonlinear_arith)
            requires
                m >= 1,
        ;
    } else if k == 31 {
        assert(256 * p <= m * p) by (nonlinear_arith)
            requires
                m >= 256,
        ;
    } else {
        assert(65536 * p <= m * p) by (nonlinear_arith)
            requires
                m >= 65536,
        ;
    }
}

/// Whether a hash meets the target of compact bits.
pub fn hash_meets_target(hash: &[u8; 32], bits: u32) -> (r: bool)
    ensures
        r == meets_target(hash@, bits),
{
    let exponent: u32 = bits / 0x100_0000;
    let mantissa: u32 = bits % 0x100_0000;
    if exponent == 0 || mantissa == 0 {
        return false;
    }
    proof {
        crate::bytes::lemma_pow256_values();
        assert(pow256(1) == 256 && pow256(0) == 1 && pow256(2) == 65536);
    }
    if exponent <= 3 {
        let value: u32 = if exponent == 3 {
            mantissa
        } else if exponent == 2 {
            mantissa / 256
        } else {
            mantissa / 65536
        };
        if value == 0 {
            return false;
        }
        let target: Vec<u8> = three_digits(0, value);
        assert(le_value(target@) == value);
        assert(value == mantissa as nat / pow256((3 - exponent) as nat)) by {
            if exponent == 3 {
                assert(pow256((3 - exponent) as nat) == 1);
            } else if exponent == 2 {
                assert(pow256((3 - exponent) as nat) == 256);
            } else {
                assert(pow256((3 - exponent) as nat) == 65536);
            }
        }
        return at_most(hash, &target);
    }
    let ghost k = (exponent - 3) as nat;
    if exponent >= 35 || (exponent == 34 && mantissa >= 256) || (exponent == 33 && mantissa
        >= 65536) {
        proof {
            lemma_every_hash_meets(hash@, mantissa as nat, k);
        }
        return true;
    }
    let (at, digits): (usize, u32) = if exponent == 34 {
        (29, 65536 * mantissa)
    } else if exponent == 33 {
        (29, 256 * mantissa)
    } else {
        ((exponent - 3) as usize, mantissa)
    };
    let target: Vec<u8> = three_digits(at, digits);
    proof {
        assert(pow256(31) == 256 * pow256(30));
        assert(pow256(30) == 256 * pow256(29));
        let p = pow256(at as nat);
        let m = mantissa as nat;
        assert(p * digits == m * pow256(k)) by {
            if exponent == 34 {
                assert(p * (65536 * m) == m * (65536 * p)) by (nonlinear_arith);
            } else if exponent == 33 {
                assert(p * (256 * m) == m * (256 * p)) by (nonlinear_arith);
            } else {
                assert(p * m == m * p) by (nonlinear_arith);
            }
        }
    }
    at_most(hash, &target)
}

/// A smaller target never stands for less work.
pub proof fn law_smaller_target_more_work(a: u32, b: u32)
    requires
        0 < target_mantissa(a) * pow2(8 * target_exponent(a)) <= target_mantissa(b) * pow2(
            8 * target_exponent(b),
        ),
    ensures
        work_of(a) >= work_of(b),
{
    let x = target_mantissa(a) * pow2(8 * target_exponent(a));
    let y = target_mantissa(b) * pow2(8 * target_exponent(b));
    lemma_pow2_pos(280);
    assert(target_mantissa(a) != 0) by (nonlinear_arith)
        requires
            0 < target_mantissa(a) * pow2(8 * target_exponent(a)),
    ;
    vstd::arithmetic::div_mod::lemma_div_is_ordered_by_denominator(
        pow2(280) as int,
        x as int,
        y as int,
    );
}

} // verus!
