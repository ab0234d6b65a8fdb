//! Byte-level building blocks: fixed-width integers, copies and searches.
use vstd::prelude::*;

verus! {

/// The number that `s` holds in little-endian base 256.
pub open spec fn le_value(s: Seq<u8>) -> nat
    decreases s.len(),
{
    if s.len() == 0 {
        0
    } else {
        s[0] as nat + 256 * le_value(s.skip(1))
    }
}

/// The `n` low base-256 digits of `x`, least significant first.
pub open spec fn le_digits(x: nat, n: nat) -> Seq<u8>
    decreases n,
{
    if n == 0 {
        Seq::empty()
    } else {
        seq![(x % 256) as u8] + le_digits(x / 256, (n - 1) as nat)
    }
}

/// The number that `s` holds in big-endian base 256.
pub open spec fn be_value(s: Seq<u8>) -> nat
    decreases s.len(),
{
    if s.len() == 0 {
        0
    } else {
        256 * be_value(s.drop_last()) + s.last() as nat
    }
}

/// The `n` low base-256 digits of `x`, most significant first.
pub open spec fn be_digits(x: nat, n: nat) -> Seq<u8>
    decreases n,
{
    if n == 0 {
        Seq::empty()
    } else {
        be_digits(x / 256, (n - 1) as nat).push((x % 256) as u8)
    }
}

/// `256` to the power `n`.
pub open spec fn pow256(n: nat) -> nat
    decreases n,
{
    if n == 0 {
        1
    } else {
        256 * pow256((n - 1) as nat)
    }
}

pub proof fn lemma_le_digits_len(x: nat, n: nat)
    ensures
        le_digits(x, n).len() == n,
    decreases n,
{
    if n > 0 {
        lemma_le_digits_len(x / 256, (n - 1) as nat);
    }
}

pub proof fn lemma_be_digits_len(x: nat, n: nat)
    ensures
        be_digits(x, n).len() == n,
    decreases n,
{
    if n > 0 {
        lemma_be_digits_len(x / 256, (n - 1) as nat);
    }
}

/// Reading little-endian digits back gives the number that was written.
pub proof fn lemma_le_roundtrip(x: nat, n: nat)
    requires
        x < pow256(n),
    ensures
        le_digits(x, n).len() == n,
        le_value(le_digits(x, n)) == x,
    decreases n,
{
    if n > 0 {
        let m = (n - 1) as nat;
        assert(x / 256 < pow256(m));
        lemma_le_roundtrip(x / 256, m);
        assert(le_digits(x, n).skip(1) =~= le_digits(x / 256, m));
    }
}

/// Reading big-endian digits back gives the number that was written.
pub proof fn lemma_be_roundtrip(x: nat, n: nat)
    requires
        x < pow256(n),
    ensures
        be_digits(x, n).len() == n,
        be_value(be_digits(x, n)) == x,
    decreases n,
{
    if n > 0 {
        let m = (n - 1) as nat;
        assert(x / 256 < pow256(m));
        lemma_be_roundtrip(x / 256, m);
        assert(be_digits(x, n).drop_last() =~= be_digits(x / 256, m));
    }
}

pub proof fn lemma_le_value_bound(s: Seq<u8>)
    ensures
        le_value(s) < pow256(s.len()),
    decreases s.len(),
{
    if s.len() > 0 {
        lemma_le_value_bound(s.skip(1));
    }
}

pub proof fn lemma_be_value_bound(s: Seq<u8>)
    ensures
        be_value(s) < pow256(s.len()),
    decreases s.len(),
{
    if s.len() > 0 {
        lemma_be_value_bound(s.drop_last());
    }
}

/// Writing a number that was read gives the bytes back.
pub proof fn lemma_le_value_digits(s: Seq<u8>)
    ensures
        le_digits(le_value(s), s.len()) == s,
    decreases s.len(),
{
    if s.len() > 0 {
        lemma_le_value_digits(s.skip(1));
        let v = le_value(s.skip(1));
        assert((s[0] as nat + 256 * v) % 256 == s[0] as nat);
        assert((s[0] as nat + 256 * v) / 256 == v);
        assert(seq![s[0]] + s.skip(1) =~= s);
    }
}

/// The value after one more, most significant, digit.
pub proof fn lemma_le_value_push(s: Seq<u8>, b: u8)
    ensures
        le_value(s.push(b)) == le_value(s) + b as nat * pow256(s.len()),
    decreases s.len(),
{
    if s.len() == 0 {
        assert(s.push(b).skip(1) =~= Seq::<u8>::empty());
        assert(le_value(s.push(b)) == b as nat + 256 * le_value(s.push(b).skip(1)));
        assert(b as nat * pow256(0) == b as nat) by {
            assert(pow256(0) == 1);
        }
    } else {
        lemma_le_value_push(s.skip(1), b);
        assert(s.push(b).skip(1) =~= s.skip(1).push(b));
        let p = pow256((s.len() - 1) as nat);
        assert(256 * (b as nat * p) == b as nat * (256 * p)) by (nonlinear_arith);
        assert(s.push(b)[0] == s[0]);
        assert(pow256(s.len()) == 256 * p);
        assert(s.skip(1).len() == s.len() - 1);
    }
}

pub proof fn lemma_pow256_values()
    ensures
        pow256(0) == 1,
        pow256(1) == 0x100,
        pow256(2) == 0x1_0000,
        pow256(3) == 0x100_0000,
        pow256(4) == 0x1_0000_0000,
        pow256(5) == 0x100_0000_0000,
        pow256(6) == 0x1_0000_0000_0000,
        pow256(7) == 0x100_0000_0000_0000,
        pow256(8) == 0x1_0000_0000_0000_0000,
{
    reveal_with_fuel(pow256, 9);
}

/// Appends the four little-endian bytes of `x`.
pub fn push_u32_le(buf: &mut Vec<u8>, x: u32)
    ensures
        final(buf)@ == old(buf)@ + le_digits(x as nat, 4),
{
    proof {
        reveal_with_fuel(le_digits, 5);
    }
    buf.push((x % 256) as u8);
    buf.push((x / 256 % 256) as u8);
    buf.push((x / 256 / 256 % 256) as u8);
    buf.push((x / 256 / 256 / 256 % 256) as u8);
}

/// Appends the eight little-endian bytes of `x`.
pub fn push_u64_le(buf: &mut Vec<u8>, x: u64)
    ensures
        final(buf)@ == old(buf)@ + le_digits(x as nat, 8),
{
    let ghost before = buf@;
    let mut rest: u64 = x;
    let mut i: usize = 0;
    while i < 8
        invariant
            i <= 8,
            before + le_digits(x as nat, 8) == buf@ + le_digits(rest as nat, (8 - i) as nat),
        decreases 8 - i,
    {
        let ghost prev = buf@;
        let digit: u8 = (rest % 256) as u8;
        buf.push(digit);
        proof {
            assert(prev + le_digits(rest as nat, (8 - i) as nat) =~= buf@ + le_digits(
                (rest / 256) as nat,
                (8 - i - 1) as nat,
            ));
        }
        rest = rest / 256;
        i = i + 1;
    }
    assert(buf@ + le_digits(rest as nat, 0) =~= buf@);
}

/// Appends the two big-endian bytes of `x`.
pub fn push_u16_be(buf: &mut Vec<u8>, x: u16)
    ensures
        final(buf)@ == old(buf)@ + be_digits(x as nat, 2),
{
    proof {
        reveal_with_fuel(be_digits, 3);
    }
    buf.push((x / 256 % 256) as u8);
    buf.push((x % 256) as u8);
}

/// Appends the four big-endian bytes of `x`.
pub fn push_u32_be(buf: &mut Vec<u8>, x: u32)
    ensures
        final(buf)@ == old(buf)@ + be_digits(x as nat, 4),
{
    proof {
        reveal_with_fuel(be_digits, 5);
    }
    buf.push((x / 256 / 256 / 256 % 256) as u8);
    buf.push((x / 256 / 256 % 256) as u8);
    buf.push((x / 256 % 256) as u8);
    buf.push((x % 256) as u8);
}

/// Appends the eight big-endian bytes of `x`.
pub fn push_u64_be(buf: &mut Vec<u8>, x: u64)
    ensures
        final(buf)@ == old(buf)@ + be_digits(x as nat, 8),
{
    let high: u32 = (x / 0x1_0000_0000) as u32;
    let low: u32 = (x % 0x1_0000_0000) as u32;
    proof {
        reveal_with_fuel(be_digits, 9);
        let h = high as nat;
        let l = low as nat;
        let n = x as nat;
        assert(n == h * 0x1_0000_0000 + l);
        assert(n / 256 / 256 / 256 / 256 == h);
        assert(n % 256 == l % 256);
        assert(n / 256 % 256 == l / 256 % 256);
        assert(n / 256 / 256 % 256 == l / 256 / 256 % 256);
        assert(n / 256 / 256 / 256 % 256 == l / 256 / 256 / 256 % 256);
        assert(be_digits(n, 8) =~= be_digits(h, 4) + be_digits(l, 4));
    }
    push_u32_be(buf, high);
    push_u32_be(buf, low);
}

/// The two bytes at `at`, as a little-endian number.
pub fn read_u16_le(s: &[u8], at: usize) -> (x: u16)
    requires
        at + 2 <= s@.len(),
    ensures
        x as nat == le_value(s@.subrange(at as int, at + 2)),
{
    proof {
        let w = s@.subrange(at as int, at + 2);
        assert(le_value(w.skip(1).skip(1)) == 0);
        assert(le_value(w.skip(1)) == w[1] as nat);
        assert(le_value(w) == w[0] as nat + 256 * le_value(w.skip(1)));
    }
    s[at] as u16 + 256 * (s[at + 1] as u16)
}

/// The four bytes at `at`, as a little-endian number.
pub fn read_u32_le(s: &[u8], at: usize) -> (x: u32)
    requires
        at + 4 <= s@.len(),
    ensures
        x as nat == le_value(s@.subrange(at as int, at + 4)),
{
    proof {
        let w = s@.subrange(at as int, at + 4);
        assert(w.skip(1).skip(1) =~= w.skip(2));
        assert(w.skip(2).skip(1) =~= w.skip(3));
        assert(w.skip(3).skip(1) =~= w.skip(4));
        assert(le_value(w.skip(4)) == 0);
        assert(le_value(w.skip(3)) == w[3] as nat);
        assert(le_value(w.skip(2)) == w[2] as nat + 256 * w[3] as nat);
        assert(le_value(w.skip(1)) == w[1] as nat + 256 * le_value(w.skip(2)));
        assert(le_value(w) == w[0] as nat + 256 * le_value(w.skip(1)));
    }
    s[at] as u32 + 256 * (s[at + 1] as u32 + 256 * (s[at + 2] as u32 + 256 * (s[at + 3] as u32)))
}

/// The eight bytes at `at`, as a little-endian number.
pub fn read_u64_le(s: &[u8], at: usize) -> (x: u64)
    requires
        at + 8 <= s@.len(),
    ensures
        x as nat == le_value(s@.subrange(at as int, at + 8)),
{
    let ghost w = s@.subrange(at as int, at + 8);
    let mut value: u64 = 0;
    let mut i: usize = 8;
    assert(w.skip(8) =~= Seq::<u8>::empty());
    while i > 0
        invariant
            i <= 8,
            at + 8 <= s.len(),
            w == s@.subrange(at as int, at + 8),
            value as nat == le_value(w.skip(i as int)),
            (value as nat) < pow256((8 - i) as nat),
        decreases i,
    {
        proof {
            lemma_pow256_values();
            assert(w.skip(i - 1).skip(1) =~= w.skip(i as int));
            assert(w.skip(i - 1)[0] == s@[at + i - 1]);
        }
        i = i - 1;
        value = 256 * value + s[at + i] as u64;
        assert(value as nat == le_value(w.skip(i as int)));
        assert((value as nat) < pow256((8 - i) as nat));
    }
    assert(w.skip(0) =~= w);
    value
}

/// The two bytes at `at`, as a big-endian number.
pub fn read_u16_be(s: &[u8], at: usize) -> (x: u16)
    requires
        at + 2 <= s@.len(),
    ensures
        x as nat == be_value(s@.subrange(at as int, at + 2)),
{
    proof {
        let w = s@.subrange(at as int, at + 2);
        assert(be_value(w.drop_last().drop_last()) == 0);
        assert(be_value(w.drop_last()) == w[0] as nat);
        assert(be_value(w) == 256 * be_value(w.drop_last()) + w[1] as nat);
    }
    256 * (s[at] as u16) + s[at + 1] as u16
}

/// The four bytes at `at`, as a big-endian number.
pub fn read_u32_be(s: &[u8], at: usize) -> (x: u32)
    requires
        at + 4 <= s@.len(),
    ensures
        x as nat == be_value(s@.subrange(at as int, at + 4)),
{
    proof {
        let w = s@.subrange(at as int, at + 4);
        assert(w.drop_last() =~= w.take(3));
        assert(w.take(3).drop_last() =~= w.take(2));
        assert(w.take(2).drop_last() =~= w.take(1));
        assert(w.take(1).drop_last() =~= w.take(0));
        assert(be_value(w.take(0)) == 0);
        assert(be_value(w.take(1)) == w[0] as nat);
        assert(be_value(w.take(2)) == 256 * w[0] as nat + w[1] as nat);
        assert(be_value(w.take(3)) == 256 * (256 * w[0] as nat + w[1] as nat) + w[2] as nat);
    }
    256 * (256 * (256 * (s[at] as u32) + s[at + 1] as u32) + s[at + 2] as u32) + s[at + 3] as u32
}

/// The eight bytes at `at`, as a big-endian number.
pub fn read_u64_be(s: &[u8], at: usize) -> (x: u64)
    requires
        at + 8 <= s@.len(),
    ensures
        x as nat == be_value(s@.subrange(at as int, at + 8)),
{
    let ghost w = s@.subrange(at as int, at + 8);
    let mut value: u64 = 0;
    let mut i: usize = 0;
    while i < 8
        invariant
            i <= 8,
            at + 8 <= s.len(),
            w == s@.subrange(at as int, at + 8),
            value as nat == be_value(w.take(i as int)),
            (value as nat) < pow256(i as nat),
        decreases 8 - i,
    {
        proof {
            lemma_pow256_values();
            assert(w.take(i + 1).drop_last() =~= w.take(i as int));
            assert(w.take(i + 1).last() == s@[at + i]);
        }
        value = 256 * value + s[at + i] as u64;
        i = i + 1;
    }
    assert(w.take(8) =~= w);
    value
}

/// A fresh vector with the bytes of `s` from `from` up to `to`.
pub fn copy_range(s: &[u8], from: usize, to: usize) -> (v: Vec<u8>)
    requires
        from <= to <= s@.len(),
    ensures
        v@ == s@.subrange(from as int, to as int),
{
    vstd::slice::slice_to_vec(vstd::slice::slice_subrange(s, from, to))
}

/// A fresh vector with the bytes of `s`.
pub fn copy_all(s: &[u8]) -> (v: Vec<u8>)
    ensures
        v@ == s@,
{
    vstd::slice::slice_to_vec(s)
}

/// The 20 bytes at `at`.
pub fn array20(s: &[u8], at: usize) -> (r: [u8; 20])
    requires
        at + 20 <= s@.len(),
    ensures
        r@ == s@.subrange(at as int, at + 20),
{
    let mut r: [u8; 20] = [0u8; 20];
    let mut i: usize = 0;
    while i < 20
        invariant
            i <= 20,
            at + 20 <= s.len(),
            forall|j: int| 0 <= j < i ==> r@[j] == s@[at + j],
        decreases 20 - i,
    {
        r[i] = s[at + i];
        i = i + 1;
    }
    assert(r@ =~= s@.subrange(at as int, at + 20));
    r
}

/// The 32 bytes at `at`.
pub fn array32(s: &[u8], at: usize) -> (r: [u8; 32])
    requires
        at + 32 <= s@.len(),
    ensures
        r@ == s@.subrange(at as int, at + 32),
{
    let mut r: [u8; 32] = [0u8; 32];
    let mut i: usize = 0;
    while i < 32
        invariant
            i <= 32,
            at + 32 <= s.len(),
            forall|j: int| 0 <= j < i ==> r@[j] == s@[at + j],
        decreases 32 - i,
    {
        r[i] = s[at + i];
        i = i + 1;
    }
    assert(r@ =~= s@.subrange(at as int, at + 32));
    r
}

/// Appends all of `s` to `buf`.
pub fn append_slice(buf: &mut Vec<u8>, s: &[u8])
    ensures
        final(buf)@ == old(buf)@ + s@,
{
    let ghost before = buf@;
    let mut i: usize = 0;
    while i < s.len()
        invariant
            i <= s@.len(),
            buf@ == before + s@.take(i as int),
        decreases s@.len() - i,
    {
        buf.push(s[i]);
        i = i + 1;
        assert(s@.take(i as int) =~= s@.take(i - 1).push(s@[i - 1]));
    }
    assert(s@.take(i as int) =~= s@);
}

/// Whether two byte strings hold the same bytes.
pub fn same_bytes(a: &[u8], b: &[u8]) -> (r: bool)
    ensures
        r == (a@ == b@),
{
    if a.len() != b.len() {
        return false;
    }
    let mut i: usize = 0;
    while i < a.len()
        invariant
            i <= a@.len(),
            a@.len() == b@.len(),
            forall|j: int| 0 <= j < i ==> a@[j] == b@[j],
        decreases a@.len() - i,
    {
        if a[i] != b[i] {
            return false;
        }
        i = i + 1;
    }
    assert(a@ =~= b@);
    true
}

/// The first position at or after `from` where `s` holds `b`.
pub open spec fn find_from(s: Seq<u8>, from: int, b: u8) -> Option<int>
    decreases s.len() - from,
{
    if from < 0 || from >= s.len() {
        None
    } else if s[from] == b {
        Some(from)
    } else {
        find_from(s, from + 1, b)
    }
}

pub proof fn lemma_find_from(s: Seq<u8>, from: int, b: u8)
    requires
        0 <= from <= s.len(),
    ensures
        match find_from(s, from, b) {
            Some(i) => from <= i < s.len() && s[i] == b && forall|j: int|
                from <= j < i ==> s[j] != b,
            None => forall|j: int| from <= j < s.len() ==> s[j] != b,
        },
    decreases s.len() - from,
{
    if from < s.len() && s[from] != b {
        lemma_find_from(s, from + 1, b);
    }
}

/// Searches `s` for `b`, starting at `from`.
pub fn find_byte(s: &[u8], from: usize, b: u8) -> (r: Option<usize>)
    requires
        from <= s@.len(),
    ensures
        match r {
            Some(i) => find_from(s@, from as int, b) == Some(i as int) && from <= i < s@.len()
                && s@[i as int] == b && forall|j: int| from <= j < i ==> s@[j] != b,
            None => find_from(s@, from as int, b) is None && forall|j: int|
                from <= j < s@.len() ==> s@[j] != b,
        },
{
    let mut i: usize = from;
    while i < s.len()
        invariant
            from <= i <= s@.len(),
            find_from(s@, from as int, b) == find_from(s@, i as int, b),
            forall|j: int| from <= j < i ==> s@[j] != b,
        decreases s@.len() - i,
    {
        if s[i] == b {
            return Some(i);
        }
        i = i + 1;
    }
    None
}

/// How two byte strings stand to each other.
#[derive(Debug, Clone, Copy, PartialEq, Eq, Structural)]
pub enum Order {
    Less,
    Equal,
    Greater,
}

/// Whether `a` comes before `b` in byte-by-byte order, a prefix first.
pub open spec fn bytes_before(a: Seq<u8>, b: Seq<u8>) -> bool
    decreases a.len(),
{
    if b.len() == 0 {
        false
    } else if a.len() == 0 {
        true
    } else if a[0] != b[0] {
        a[0] < b[0]
    } else {
        bytes_before(a.skip(1), b.skip(1))
    }
}

/// How `a` stands to `b` in byte-by-byte order.
pub open spec fn bytes_order(a: Seq<u8>, b: Seq<u8>) -> Order {
    if a == b {
        Order::Equal
    } else if bytes_before(a, b) {
        Order::Less
    } else {
        Order::Greater
    }
}

pub proof fn lemma_before_irreflexive(a: Seq<u8>)
    ensures
        !bytes_before(a, a),
    decreases a.len(),
{
    if a.len() > 0 {
        lemma_before_irreflexive(a.skip(1));
    }
}

pub proof fn lemma_before_transitive(a: Seq<u8>, b: Seq<u8>, c: Seq<u8>)
    requires
        bytes_before(a, b),
        bytes_before(b, c),
    ensures
        bytes_before(a, c),
    decreases a.len(),
{
    if a.len() > 0 && a[0] == b[0] && b[0] == c[0] {
        lemma_before_transitive(a.skip(1), b.skip(1), c.skip(1));
    }
}

pub proof fn lemma_before_total(a: Seq<u8>, b: Seq<u8>)
    ensures
        a == b || bytes_before(a, b) || bytes_before(b, a),
    decreases a.len(),
{
    if a.len() > 0 && b.len() > 0 && a[0] == b[0] {
        lemma_before_total(a.skip(1), b.skip(1));
        assert(a =~= seq![a[0]] + a.skip(1));
        assert(b =~= seq![b[0]] + b.skip(1));
    } else if a.len() == 0 && b.len() == 0 {
        assert(a =~= b);
    }
}

proof fn lemma_common_prefix(a: Seq<u8>, b: Seq<u8>, i: int)
    requires
        0 <= i <= a.len(),
        i <= b.len(),
        forall|j: int| 0 <= j < i ==> a[j] == b[j],
    ensures
        bytes_before(a, b) == bytes_before(a.skip(i), b.skip(i)),
    decreases i,
{
    if i == 0 {
        assert(a.skip(0) =~= a);
        assert(b.skip(0) =~= b);
    } else {
        assert forall|j: int| 0 <= j < i - 1 implies a.skip(1)[j] == b.skip(1)[j] by {
            assert(a[j + 1] == b[j + 1]);
        }
        assert(a[0] == b[0]);
        lemma_common_prefix(a.skip(1), b.skip(1), i - 1);
        assert(a.skip(1).skip(i - 1) =~= a.skip(i));
        assert(b.skip(1).skip(i - 1) =~= b.skip(i));
    }
}

/// How `a` stands to `b` in byte-by-byte order.
pub fn order_bytes(a: &[u8], b: &[u8]) -> (r: Order)
    ensures
        r == bytes_order(a@, b@),
{
    let mut i: usize = 0;
    while i < a.len() && i < b.len()
        invariant
            i <= a@.len(),
            i <= b@.len(),
            forall|j: int| 0 <= j < i ==> a@[j] == b@[j],
        decreases a@.len() - i,
    {
        if a[i] != b[i] {
            proof {
                lemma_common_prefix(a@, b@, i as int);
            }
            if a[i] < b[i] {
                return Order::Less;
            }
            return Order::Greater;
        }
        i = i + 1;
    }
    proof {
        lemma_common_prefix(a@, b@, i as int);
    }
    if i < b.len() {
        Order::Less
    } else if i < a.len() {
        Order::Greater
    } else {
        assert(a@ =~= b@);
        Order::Equal
    }
}

} // verus!
