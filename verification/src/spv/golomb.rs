//! Golomb-Rice coded sets: sorted numbers as a stream of bits.
use vstd::arithmetic::power2::lemma_pow2_pos;
use vstd::arithmetic::power2::lemma_pow2_unfold;
use vstd::arithmetic::power2::pow2;
use vstd::prelude::*;

verus! {

/// The longest run of ones that is read as one quotient.
pub const MAX_QUOTIENT: u64 = 1_000_000;

/// The bit at `k` of a byte string, the highest bit of each byte first; zero past the end.
pub open spec fn stream_bit(data: Seq<u8>, k: int) -> bool {
    0 <= k < 8 * data.len() && (data[k / 8] >> ((7 - k % 8) as u8)) & 1 == 1
}

/// Whether `data` holds exactly these bits, padded with zeros to whole bytes.
pub open spec fn packs(data: Seq<u8>, bits: Seq<bool>) -> bool {
    &&& data.len() == (bits.len() + 7) / 8
    &&& forall|k: int|
        0 <= k < 8 * data.len() ==> #[trigger] stream_bit(data, k) == (k < bits.len() && bits[k])
}

/// `n` ones.
pub open spec fn ones(n: nat) -> Seq<bool> {
    Seq::new(n, |i: int| true)
}

/// The `n` low bits of `x`, the highest first.
pub open spec fn low_bits(x: nat, n: nat) -> Seq<bool>
    decreases n,
{
    if n == 0 {
        Seq::empty()
    } else {
        low_bits(x / 2, (n - 1) as nat).push(x % 2 == 1)
    }
}

/// The code of one number: its quotient by `2^p` in unary, ended by a zero, and its remainder in
/// binary.
pub open spec fn code_of(x: nat, p: nat) -> Seq<bool> {
    ones(x / pow2(p)).push(false) + low_bits(x % pow2(p), p)
}

/// The code of increasing numbers: the codes of their differences.
pub open spec fn code_all(values: Seq<u64>, p: nat) -> Seq<bool>
    decreases values.len(),
{
    if values.len() == 0 {
        Seq::empty()
    } else {
        let before = if values.len() == 1 {
            0
        } else {
            values[values.len() - 2] as nat
        };
        code_all(values.drop_last(), p) + code_of((values.last() - before) as nat, p)
    }
}

/// Whether the numbers never decrease.
pub open spec fn non_decreasing(values: Seq<u64>) -> bool {
    forall|i: int, j: int| 0 <= i <= j < values.len() ==> values[i] <= values[j]
}

// ---- writing bits ----

/// A buffer that bits are appended to.
struct BitWriter {
    buf: Vec<u8>,
    bit_pos: u8,
}

proof fn lemma_fresh_byte(k: u8)
    requires
        k < 8,
    ensures
        (0u8 >> ((7 - k) as u8)) & 1 == 0,
{
    assert((0u8 >> ((7 - k) as u8)) & 1 == 0) by (bit_vector)
        requires
            k < 8,
    ;
}

proof fn lemma_set_bit(b: u8, at: u8, k: u8)
    requires
        at < 8,
        k < 8,
    ensures
        ((b | (1u8 << ((7 - at) as u8))) >> ((7 - k) as u8)) & 1 == (if k == at {
            1u8
        } else {
            (b >> ((7 - k) as u8)) & 1
        }),
{
    assert(((b | (1u8 << ((7 - at) as u8))) >> ((7 - k) as u8)) & 1 == (if k == at {
        1u8
    } else {
        (b >> ((7 - k) as u8)) & 1
    })) by (bit_vector)
        requires
            at < 8,
            k < 8,
    ;
}

impl BitWriter {
    spec fn count(&self) -> nat {
        (8 * (self.buf@.len() - 1) + self.bit_pos) as nat
    }

    spec fn wf(&self, bits: Seq<bool>) -> bool {
        &&& self.buf@.len() >= 1
        &&& self.bit_pos <= 8
        &&& bits.len() == self.count()
        &&& bits.len() > 0 ==> self.bit_pos > 0
        &&& forall|k: int|
            0 <= k < 8 * self.buf@.len() ==> #[trigger] stream_bit(self.buf@, k) == (k < bits.len()
                && bits[k])
    }

    fn new() -> (w: Self)
        ensures
            w.wf(Seq::empty()),
    {
        let mut buf: Vec<u8> = Vec::new();
        buf.push(0);
        let w: BitWriter = BitWriter { buf, bit_pos: 0 };
        assert forall|k: int| 0 <= k < 8 implies !#[trigger] stream_bit(w.buf@, k) by {
            lemma_fresh_byte(k as u8);
        }
        w
    }

    fn write_bit(&mut self, bit: bool, Ghost(bits): Ghost<Seq<bool>>)
        requires
            old(self).wf(bits),
        ensures
            final(self).wf(bits.push(bit)),
    {
        if self.bit_pos == 8 {
            let ghost before = self.buf@;
            self.buf.push(0);
            self.bit_pos = 0;
            assert forall|k: int| 0 <= k < 8 * self.buf@.len() implies #[trigger] stream_bit(
                self.buf@,
                k,
            ) == (k < bits.len() && bits[k]) by {
                if k < 8 * before.len() {
                    assert(stream_bit(before, k) == stream_bit(self.buf@, k));
                } else {
                    lemma_fresh_byte((k % 8) as u8);
                }
            }
        }
        let ghost before = self.buf@;
        let last: usize = self.buf.len() - 1;
        if bit {
            let b: u8 = self.buf[last] | (1u8 << (7 - self.bit_pos));
            self.buf.set(last, b);
        }
        let ghost at = self.bit_pos;
        self.bit_pos = self.bit_pos + 1;
        proof {
            let after = bits.push(bit);
            assert forall|k: int| 0 <= k < 8 * self.buf@.len() implies #[trigger] stream_bit(
                self.buf@,
                k,
            ) == (k < after.len() && after[k]) by {
                assert(stream_bit(before, k) == (k < bits.len() && bits[k]));
                if bit && k / 8 == last {
                    lemma_set_bit(before[last as int], at, (k % 8) as u8);
                }
            }
        }
    }
}

proof fn lemma_pow2_step(p: nat)
    ensures
        pow2(p + 1) == 2 * pow2(p),
        pow2(p) > 0,
{
    lemma_pow2_unfold(p + 1);
    lemma_pow2_pos(p);
}

/// `2^p`.
fn power(p: u8) -> (m: u64)
    requires
        p < 64,
    ensures
        m == pow2(p as nat),
{
    let mut m: u64 = 1;
    let mut i: u8 = 0;
    proof {
        vstd::arithmetic::power2::lemma2_to64();
    }
    while i < p
        invariant
            i <= p < 64,
            m == pow2(i as nat),
        decreases p - i,
    {
        proof {
            lemma_pow2_step(i as nat);
            vstd::arithmetic::power2::lemma2_to64();
            if i < 62 {
                vstd::arithmetic::power2::lemma_pow2_strictly_increases((i + 1) as nat, 63);
            }
            assert(pow2(63) == 0x8000_0000_0000_0000) by {
                vstd::arithmetic::power2::lemma2_to64_rest();
            }
        }
        m = 2 * m;
        i = i + 1;
    }
    m
}

proof fn lemma_low_bits_split(x: nat, n: nat, k: nat)
    requires
        k < n,
    ensures
        low_bits(x, n).len() == n,
        low_bits(x, n)[n - 1 - k] == ((x / pow2(k)) % 2 == 1),
    decreases n,
{
    if n > 1 {
        if k == 0 {
            lemma_low_bits_split(x / 2, (n - 1) as nat, 0);
        } else {
            lemma_low_bits_split(x / 2, (n - 1) as nat, (k - 1) as nat);
            lemma_pow2_step((k - 1) as nat);
            vstd::arithmetic::div_mod::lemma_div_denominator(
                x as int,
                2,
                pow2((k - 1) as nat) as int,
            );
        }
    } else {
        assert(low_bits(x / 2, 0) =~= Seq::<bool>::empty());
    }
    if k == 0 {
        vstd::arithmetic::power2::lemma2_to64();
    }
}

proof fn lemma_low_bits_len(x: nat, n: nat)
    ensures
        low_bits(x, n).len() == n,
    decreases n,
{
    if n > 0 {
        lemma_low_bits_len(x / 2, (n - 1) as nat);
    }
}

/// Encodes numbers in increasing order.
pub fn gcs_encode(values: &[u64], p: u8) -> (r: Vec<u8>)
    requires
        non_decreasing(values@),
        p < 64,
    ensures
        packs(r@, code_all(values@, p as nat)),
{
    if values.len() == 0 {
        return Vec::new();
    }
    let m: u64 = power(p);
    let mut writer: BitWriter = BitWriter::new();
    let mut prev: u64 = 0;
    let mut i: usize = 0;
    let ghost mut done: Seq<bool> = Seq::empty();
    assert(values@.take(0) =~= Seq::<u64>::empty());
    proof {
        lemma_pow2_pos(p as nat);
    }
    while i < values.len()
        invariant
            non_decreasing(values@),
            p < 64,
            m == pow2(p as nat),
            m > 0,
            i <= values.len(),
            prev == if i == 0 {
                0
            } else {
                values@[i - 1]
            },
            done == code_all(values@.take(i as int), p as nat),
            writer.wf(done),
            i > 0 ==> done.len() > 0,
        decreases values.len() - i,
    {
        let v: u64 = values[i];
        let delta: u64 = v - prev;
        prev = v;
        let q: u64 = delta / m;
        let r: u64 = delta % m;
        let ghost start = done;
        let mut n: u64 = 0;
        assert(start + ones(0) =~= start);
        while n < q
            invariant
                n <= q,
                done == start + ones(n as nat),
                writer.wf(done),
            decreases q - n,
        {
            writer.write_bit(true, Ghost(done));
            proof {
                done = done.push(true);
                assert(done =~= start + ones((n + 1) as nat));
            }
            n = n + 1;
        }
        writer.write_bit(false, Ghost(done));
        proof {
            done = done.push(false);
        }
        let ghost unary = done;
        let ghost binary = low_bits(r as nat, p as nat);
        let mut left: u8 = p;
        let mut unit: u64 = m;
        assert(unary + binary.take(0) =~= unary);
        while left > 0
            invariant
                left <= p < 64,
                unit == pow2(left as nat),
                binary == low_bits(r as nat, p as nat),
                done == unary + binary.take(p - left),
                writer.wf(done),
            decreases left,
        {
            proof {
                lemma_pow2_step((left - 1) as nat);
                lemma_low_bits_split(r as nat, p as nat, (left - 1) as nat);
            }
            unit = unit / 2;
            let bit: bool = (r / unit) % 2 == 1;
            writer.write_bit(bit, Ghost(done));
            proof {
                done = done.push(bit);
                assert(done =~= unary + binary.take(p - left + 1));
            }
            left = left - 1;
        }
        i = i + 1;
        proof {
            lemma_low_bits_len(r as nat, p as nat);
            assert(binary.take(p as int) =~= binary);
            let taken = values@.take(i as int);
            assert(taken.drop_last() =~= values@.take(i - 1));
            assert(code_of(delta as nat, p as nat) == ones(q as nat).push(false) + binary);
            assert(unary =~= start + ones(q as nat).push(false));
            assert(done =~= start + code_of(delta as nat, p as nat));
            if i > 1 {
                assert(taken[taken.len() - 2] == values@[i - 2]);
            }
            assert(done == code_all(taken, p as nat));
        }
    }
    assert(values@.take(i as int) =~= values@);
    writer.buf
}

// ---- reading bits ----

/// The number of ones from `pos` on, at most `limit`.
pub open spec fn ones_at(data: Seq<u8>, pos: int, limit: nat) -> nat
    decreases limit,
{
    if limit == 0 || !stream_bit(data, pos) {
        0
    } else {
        1 + ones_at(data, pos + 1, (limit - 1) as nat)
    }
}

/// The number that `n` bits from `pos` on make, the highest first.
pub open spec fn number_at(data: Seq<u8>, pos: int, n: nat) -> nat
    decreases n,
{
    if n == 0 {
        0
    } else {
        2 * number_at(data, pos, (n - 1) as nat) + if stream_bit(data, pos + n - 1) {
            1nat
        } else {
            0nat
        }
    }
}

/// Where the remainder starts after a quotient of `q` ones at `pos`.
pub open spec fn after_quotient(pos: int, q: nat) -> int {
    if q > MAX_QUOTIENT {
        pos + q
    } else {
        pos + q + 1
    }
}

/// The difference that is coded at `pos`.
pub open spec fn delta_at(data: Seq<u8>, pos: int, p: nat) -> nat {
    let q = ones_at(data, pos, (MAX_QUOTIENT + 1) as nat);
    q * pow2(p) + number_at(data, after_quotient(pos, q), p)
}

/// Where the code at `pos` ends.
pub open spec fn code_end(data: Seq<u8>, pos: int, p: nat) -> int {
    after_quotient(pos, ones_at(data, pos, (MAX_QUOTIENT + 1) as nat)) + p
}

/// The `n` numbers that are coded from `pos` on, above `acc`.
pub open spec fn numbers_at(data: Seq<u8>, pos: int, n: nat, acc: nat, p: nat) -> Seq<u64>
    decreases n,
{
    if n == 0 {
        Seq::empty()
    } else {
        let x = acc + delta_at(data, pos, p);
        seq![x as u64] + numbers_at(data, code_end(data, pos, p), (n - 1) as nat, x, p)
    }
}

/// Whether the sum of `n` differences coded in `len` bytes fits 64 bits.
pub open spec fn sums_fit(len: nat, n: nat, p: nat) -> bool {
    (8 * len + n) * pow2(p) <= 0x1_0000_0000_0000_0000
}

/// A position in a stream of bits.
struct BitReader<'a> {
    data: &'a [u8],
    byte_pos: usize,
    bit_pos: u8,
}

/// A position, or the end where it lies past it.
spec fn capped(data: Seq<u8>, pos: int) -> int {
    if pos > 8 * data.len() {
        8 * data.len() as int
    } else {
        pos
    }
}

impl<'a> BitReader<'a> {
    spec fn wf(&self, pos: int) -> bool {
        &&& 0 <= pos
        &&& self.bit_pos < 8
        &&& self.byte_pos <= self.data@.len()
        &&& self.byte_pos == self.data@.len() ==> self.bit_pos == 0
        &&& 8 * self.byte_pos + self.bit_pos == capped(self.data@, pos)
    }

    fn read_bit(&mut self, Ghost(pos): Ghost<int>) -> (bit: bool)
        requires
            old(self).wf(pos),
        ensures
            final(self).wf(pos + 1),
            final(self).data == old(self).data,
            bit == stream_bit(final(self).data@, pos),
    {
        if self.byte_pos >= self.data.len() {
            return false;
        }
        let bit: bool = (self.data[self.byte_pos] >> (7 - self.bit_pos)) & 1 == 1;
        self.bit_pos = self.bit_pos + 1;
        if self.bit_pos == 8 {
            self.bit_pos = 0;
            self.byte_pos = self.byte_pos + 1;
        }
        bit
    }
}

proof fn lemma_ones_bound(data: Seq<u8>, pos: int, limit: nat)
    requires
        0 <= pos,
    ensures
        ones_at(data, pos, limit) <= limit,
        capped(data, pos) + ones_at(data, pos, limit) <= capped(
            data,
            pos + ones_at(data, pos, limit),
        ),
    decreases limit,
{
    if limit > 0 && stream_bit(data, pos) {
        lemma_ones_bound(data, pos + 1, (limit - 1) as nat);
    }
}

proof fn lemma_number_bound(data: Seq<u8>, pos: int, n: nat)
    ensures
        number_at(data, pos, n) < pow2(n),
    decreases n,
{
    if n == 0 {
        lemma_pow2_pos(0);
    } else {
        lemma_number_bound(data, pos, (n - 1) as nat);
        lemma_pow2_step((n - 1) as nat);
    }
}

/// The sum after one more difference stays in range.
proof fn lemma_sum_step(acc: nat, seen: nat, q: nat, r: nat, m: nat, next: nat, most: nat)
    requires
        acc <= seen * m,
        seen + q + 1 <= next <= most,
        r < m,
    ensures
        acc + q * m + r < next * m,
        acc + q * m + r < most * m,
        q * m <= most * m,
{
    assert(acc + q * m + r < next * m && next * m <= most * m && q * m <= most * m)
        by (nonlinear_arith)
        requires
            acc <= seen * m,
            seen + q + 1 <= next <= most,
            r < m,
    ;
}

fn read_unary(bits: &mut BitReader, Ghost(pos): Ghost<int>) -> (q: u64)
    requires
        old(bits).wf(pos),
    ensures
        q == ones_at(old(bits).data@, pos, (MAX_QUOTIENT + 1) as nat),
        final(bits).data == old(bits).data,
        final(bits).wf(after_quotient(pos, q as nat)),
{
    let mut q: u64 = 0;
    while q <= MAX_QUOTIENT
        invariant
            bits.data == old(bits).data,
            bits.wf(pos + q),
            q <= MAX_QUOTIENT + 1,
            ones_at(bits.data@, pos, (MAX_QUOTIENT + 1) as nat) == q + ones_at(
                bits.data@,
                pos + q,
                (MAX_QUOTIENT + 1 - q) as nat,
            ),
        decreases MAX_QUOTIENT + 1 - q,
    {
        if !bits.read_bit(Ghost(pos + q)) {
            return q;
        }
        q = q + 1;
    }
    q
}

fn read_number(bits: &mut BitReader, p: u8, Ghost(pos): Ghost<int>) -> (r: u64)
    requires
        old(bits).wf(pos),
        p < 64,
    ensures
        r == number_at(old(bits).data@, pos, p as nat),
        r < pow2(p as nat),
        final(bits).data == old(bits).data,
        final(bits).wf(pos + p),
{
    let mut r: u64 = 0;
    let mut k: u8 = 0;
    while k < p
        invariant
            bits.data == old(bits).data,
            k <= p < 64,
            bits.wf(pos + k),
            r == number_at(bits.data@, pos, k as nat),
        decreases p - k,
    {
        proof {
            lemma_number_bound(bits.data@, pos, k as nat);
            lemma_number_bound(bits.data@, pos, (k + 1) as nat);
            vstd::arithmetic::power2::lemma2_to64_rest();
            vstd::arithmetic::power2::lemma2_to64();
            if k < 62 {
                vstd::arithmetic::power2::lemma_pow2_strictly_increases((k + 1) as nat, 63);
            }
        }
        let bit: bool = bits.read_bit(Ghost(pos + k));
        r = 2 * r + if bit {
            1
        } else {
            0
        };
        k = k + 1;
    }
    proof {
        lemma_number_bound(bits.data@, pos, p as nat);
    }
    r
}

/// Decodes `n` numbers.
pub fn gcs_decode(data: &[u8], n: usize, p: u8) -> (values: Vec<u64>)
    requires
        p < 64,
        sums_fit(data@.len(), n as nat, p as nat),
    ensures
        values@ == numbers_at(data@, 0, n as nat, 0, p as nat),
        values@.len() == n,
        non_decreasing(values@),
{
    let m: u64 = power(p);
    let ghost target = numbers_at(data@, 0, n as nat, 0, p as nat);
    let ghost most = (8 * data@.len() + n) as nat;
    let mut bits: BitReader = BitReader { data, byte_pos: 0, bit_pos: 0 };
    let mut values: Vec<u64> = Vec::new();
    let mut acc: u64 = 0;
    let mut i: usize = 0;
    let ghost mut pos: int = 0;
    assert(values@ + target =~= target);
    assert(0 * m == 0) by (nonlinear_arith);
    while i < n
        invariant
            p < 64,
            m == pow2(p as nat),
            i <= n,
            bits.data == data,
            bits.wf(pos),
            most == 8 * data@.len() + n,
            most * m <= 0x1_0000_0000_0000_0000,
            acc <= (capped(data@, pos) + i) * m,
            target == values@ + numbers_at(data@, pos, (n - i) as nat, acc as nat, p as nat),
            values@.len() == i,
            forall|k: int| 0 <= k < i ==> #[trigger] values@[k] <= acc,
            non_decreasing(values@),
        decreases n - i,
    {
        let ghost q0 = ones_at(data@, pos, (MAX_QUOTIENT + 1) as nat);
        let ghost mid = after_quotient(pos, q0);
        let q: u64 = read_unary(&mut bits, Ghost(pos));
        let r: u64 = read_number(&mut bits, p, Ghost(mid));
        proof {
            lemma_ones_bound(data@, pos, (MAX_QUOTIENT + 1) as nat);
            let next = code_end(data@, pos, p as nat);
            lemma_sum_step(
                acc as nat,
                (capped(data@, pos) + i) as nat,
                q as nat,
                r as nat,
                m as nat,
                (capped(data@, next) + i + 1) as nat,
                most,
            );
            assert(delta_at(data@, pos, p as nat) == q * m + r);
        }
        let delta: u64 = q * m + r;
        let ghost before = values@;
        acc = acc + delta;
        values.push(acc);
        proof {
            let rest = numbers_at(
                data@,
                code_end(data@, pos, p as nat),
                (n - i - 1) as nat,
                acc as nat,
                p as nat,
            );
            assert(before + (seq![acc] + rest) =~= values@ + rest);
            pos = code_end(data@, pos, p as nat);
        }
        i = i + 1;
    }
    assert(values@ + numbers_at(data@, pos, 0, acc as nat, p as nat) =~= values@);
    values
}

// ---- writing, then reading ----

/// Whether the bits stand in the stream from `pos` on.
spec fn stands_at(data: Seq<u8>, pos: int, bits: Seq<bool>) -> bool {
    forall|k: int| 0 <= k < bits.len() ==> stream_bit(data, pos + k) == #[trigger] bits[k]
}

proof fn lemma_ones_read(data: Seq<u8>, pos: int, n: nat, limit: nat)
    requires
        n < limit,
        stands_at(data, pos, ones(n).push(false)),
    ensures
        ones_at(data, pos, limit) == n,
    decreases n,
{
    let b = ones(n).push(false);
    if n > 0 {
        assert(b[0]);
        assert(stream_bit(data, pos + 0));
        let rest = ones((n - 1) as nat).push(false);
        assert forall|k: int| 0 <= k < rest.len() implies stream_bit(data, pos + 1 + k)
            == #[trigger] rest[k] by {
            assert(b[k + 1] == rest[k]);
            assert(stream_bit(data, pos + (k + 1)) == b[k + 1]);
        }
        lemma_ones_read(data, pos + 1, (n - 1) as nat, (limit - 1) as nat);
    } else {
        assert(!b[0]);
        assert(!stream_bit(data, pos + 0));
    }
}

proof fn lemma_number_read(data: Seq<u8>, pos: int, x: nat, n: nat)
    requires
        x < pow2(n),
        stands_at(data, pos, low_bits(x, n)),
    ensures
        number_at(data, pos, n) == x,
    decreases n,
{
    if n == 0 {
        vstd::arithmetic::power2::lemma2_to64();
    } else {
        let m = (n - 1) as nat;
        lemma_pow2_step(m);
        lemma_low_bits_len(x / 2, m);
        let b = low_bits(x, n);
        let rest = low_bits(x / 2, m);
        assert forall|k: int| 0 <= k < rest.len() implies stream_bit(data, pos + k)
            == #[trigger] rest[k] by {
            assert(b[k] == rest[k]);
        }
        lemma_number_read(data, pos, x / 2, m);
        assert(b[n - 1] == (x % 2 == 1));
        assert(stream_bit(data, pos + (n - 1)) == b[n - 1]);
    }
}

proof fn lemma_code_read(data: Seq<u8>, pos: int, x: nat, p: nat)
    requires
        x / pow2(p) <= MAX_QUOTIENT,
        stands_at(data, pos, code_of(x, p)),
    ensures
        delta_at(data, pos, p) == x,
        code_end(data, pos, p) == pos + code_of(x, p).len(),
{
    let q = x / pow2(p);
    let r = x % pow2(p);
    lemma_pow2_pos(p);
    lemma_low_bits_len(r, p);
    let head = ones(q).push(false);
    let tail = low_bits(r, p);
    let code = code_of(x, p);
    assert forall|k: int| 0 <= k < head.len() implies stream_bit(data, pos + k) == #[trigger] head[k]
        by {
        assert(code[k] == head[k]);
    }
    lemma_ones_read(data, pos, q, (MAX_QUOTIENT + 1) as nat);
    let mid = pos + q + 1;
    assert forall|k: int| 0 <= k < tail.len() implies stream_bit(data, mid + k) == #[trigger] tail[k]
        by {
        assert(code[q + 1 + k] == tail[k]);
        assert(stream_bit(data, pos + (q + 1 + k)) == code[q + 1 + k]);
    }
    lemma_number_read(data, mid, r, p);
    vstd::arithmetic::div_mod::lemma_fundamental_div_mod(x as int, pow2(p) as int);
    assert(q * pow2(p) == pow2(p) * q) by (nonlinear_arith);
}

/// The number that stands before position `i`; zero before the first.
pub open spec fn number_before(values: Seq<u64>, i: int) -> nat {
    if i <= 0 {
        0
    } else {
        values[i - 1] as nat
    }
}

/// The difference that is coded for position `i`.
pub open spec fn gap(values: Seq<u64>, i: int) -> nat {
    (values[i] - number_before(values, i)) as nat
}

proof fn lemma_code_prefix(values: Seq<u64>, p: nat, i: int)
    requires
        0 <= i < values.len(),
    ensures
        code_all(values.take(i + 1), p) == code_all(values.take(i), p) + code_of(
            gap(values, i),
            p,
        ),
{
    let t = values.take(i + 1);
    assert(t.drop_last() =~= values.take(i));
    if i > 0 {
        assert(t[t.len() - 2] == values[i - 1]);
    }
}

proof fn lemma_prefix_len(values: Seq<u64>, p: nat, i: int, j: int)
    requires
        0 <= i <= j <= values.len(),
    ensures
        code_all(values.take(i), p).len() <= code_all(values.take(j), p).len(),
        forall|k: int|
            0 <= k < code_all(values.take(i), p).len() ==> #[trigger] code_all(
                values.take(j),
                p,
            )[k] == code_all(values.take(i), p)[k],
    decreases j - i,
{
    if i < j {
        lemma_prefix_len(values, p, i, j - 1);
        lemma_code_prefix(values, p, j - 1);
    }
}

proof fn lemma_numbers_read(data: Seq<u8>, values: Seq<u64>, p: nat, i: int)
    requires
        packs(data, code_all(values, p)),
        non_decreasing(values),
        0 <= i <= values.len(),
        forall|k: int|
            0 <= k < values.len() ==> #[trigger] gap(values, k) / pow2(p) <= MAX_QUOTIENT,
    ensures
        numbers_at(
            data,
            code_all(values.take(i), p).len() as int,
            (values.len() - i) as nat,
            number_before(values, i),
            p,
        ) == values.skip(i),
    decreases values.len() - i,
{
    if i < values.len() {
        let pos = code_all(values.take(i), p).len() as int;
        let x = gap(values, i);
        lemma_code_prefix(values, p, i);
        lemma_prefix_len(values, p, i + 1, values.len() as int);
        assert(values.take(values.len() as int) =~= values);
        let all = code_all(values, p);
        let upto = code_all(values.take(i + 1), p);
        let code = code_of(x, p);
        assert forall|k: int| 0 <= k < code.len() implies stream_bit(data, pos + k)
            == #[trigger] code[k] by {
            assert(upto[pos + k] == code[k]);
            assert(all[pos + k] == upto[pos + k]);
            assert(stream_bit(data, pos + k) == (pos + k < all.len() && all[pos + k]));
        }
        if i > 0 {
            assert(values[i - 1] <= values[i]);
        }
        lemma_code_read(data, pos, x, p);
        lemma_numbers_read(data, values, p, i + 1);
        assert(values.skip(i) =~= seq![values[i]] + values.skip(i + 1));
    } else {
        assert(values.skip(i) =~= Seq::<u64>::empty());
    }
}

/// Decoding what was encoded gives the numbers back, where no two neighbours are further apart
/// than the longest quotient allows.
pub proof fn law_gcs_roundtrip(data: Seq<u8>, values: Seq<u64>, p: nat)
    requires
        non_decreasing(values),
        forall|k: int|
            0 <= k < values.len() ==> #[trigger] gap(values, k) / pow2(p) <= MAX_QUOTIENT,
        packs(data, code_all(values, p)),
    ensures
        numbers_at(data, 0, values.len(), 0, p) == values,
{
    lemma_numbers_read(data, values, p, 0);
    assert(values.take(0) =~= Seq::<u64>::empty());
    assert(values.skip(0) =~= values);
}

} // verus!
