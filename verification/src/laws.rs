//! What holds of numbers and bytes as text, and of their order.
use crate::bytes::be_digits;
use crate::bytes::be_value;
use crate::bytes::bytes_before;
use crate::bytes::bytes_order;
use crate::bytes::le_digits;
use crate::bytes::le_value;
use crate::bytes::lemma_before_irreflexive;
use crate::bytes::lemma_before_total;
use crate::bytes::lemma_before_transitive;
use crate::bytes::Order;
use crate::encoding::base64_code;
use crate::encoding::base64_symbol;
use crate::text::byte_list;
use crate::text::decimal;
use crate::text::hex_bytes;
use crate::text::hex_digit;
use crate::text::hex_error_with;
use crate::text::hex_text;
use crate::text::hex_value;
use crate::text::leading_hex;
use crate::text::plain_number;
use crate::text::signed_number;
use crate::text::unsigned_number;
use vstd::prelude::*;
use vstd::string::*;

verus! {

// ---- numbers in bytes ----

/// The low byte comes first in one form and last in the other; each byte counts 256 times as much as
/// the one below it.
pub proof fn law_numbers_in_bytes(s: Seq<u8>, b: u8)
    ensures
        le_value(Seq::empty()) == 0,
        le_value(seq![b] + s) == b + 256 * le_value(s),
        be_value(Seq::empty()) == 0,
        be_value(s.push(b)) == 256 * be_value(s) + b,
{
    assert((seq![b] + s).skip(1) =~= s);
    assert(s.push(b).drop_last() =~= s);
}

/// The bytes of a number in either form, down to its low byte.
pub proof fn law_bytes_of_numbers(x: nat, b: u8, n: nat)
    ensures
        le_digits(256 * x + b as nat, n + 1) == seq![b] + le_digits(x, n),
        be_digits(256 * x + b as nat, n + 1) == be_digits(x, n).push(b),
        le_digits(x, 0).len() == 0,
        be_digits(x, 0).len() == 0,
{
    assert((256 * x + b) / 256 == x);
    assert((256 * x + b) % 256 == b);
}

// ---- digits ----

/// The digits of numbers are those that people write: a number below ten is one digit, and a last
/// digit follows those of the number of tens.
pub proof fn law_decimal_digits(n: nat, d: nat)
    requires
        d < 10,
    ensures
        decimal(d).len() == 1 && decimal(d)[0] == "0123456789"@[d as int],
        n > 0 ==> decimal(10 * n + d) == decimal(n).push("0123456789"@[d as int]),
{
    reveal_strlit("0123456789");
    assert((10 * n + d) / 10 == n);
    assert((10 * n + d) % 10 == d);
}

/// Hexadecimal digits are written in lower case and read in either case.
pub proof fn law_hexadecimal_digits(d: nat, c: u8)
    requires
        d < 16,
    ensures
        hex_digit(d) == "0123456789abcdef"@[d as int],
        hex_value("0123456789abcdef"@[d as int] as u8) == Some(d),
        hex_value("0123456789ABCDEF"@[d as int] as u8) == Some(d),
        hex_value(c) matches Some(v) ==> v < 16 && (c == "0123456789abcdef"@[v as int] as u8 || c
            == "0123456789ABCDEF"@[v as int] as u8),
{
    reveal_strlit("0123456789abcdef");
    reveal_strlit("0123456789ABCDEF");
}

/// A byte is two hexadecimal digits, the high one first.
pub proof fn law_hexadecimal_bytes(b: Seq<u8>, i: int)
    requires
        0 <= i < b.len(),
    ensures
        hex_text(b).len() == 2 * b.len(),
        hex_text(b)[2 * i] == hex_digit(b[i] as nat / 16),
        hex_text(b)[2 * i + 1] == hex_digit(b[i] as nat % 16),
{
}

/// Digits stand for bytes exactly if their number is even and each is one.
pub proof fn law_when_digits_stand_for_bytes(s: Seq<u8>, k: int)
    ensures
        hex_bytes(s) is Some <==> s.len() % 2 == 0 && forall|i: int|
            0 <= i < s.len() ==> hex_value(#[trigger] s[i]) is Some,
        hex_bytes(s) matches Some(b) ==> b.len() * 2 == s.len(),
        hex_bytes(s) matches Some(b) ==> 0 <= k < b.len() ==> b[k] == 16 * hex_value(s[2 * k])->0
            + hex_value(s[2 * k + 1])->0,
{
    if hex_bytes(s) is Some && 0 <= k < s.len() / 2 {
        assert(hex_value(s[2 * k]) is Some);
        assert(hex_value(s[2 * k + 1]) is Some);
    }
}

/// An odd number of digits is named as such; else the first character that is no digit is named with
/// its place, counted from zero.
pub proof fn law_why_digits_stand_for_nothing(s: Seq<u8>, shown: Seq<char>, at: nat)
    requires
        at < s.len(),
        forall|i: int| 0 <= i < at ==> hex_value(#[trigger] s[i]) is Some,
        hex_value(s[at as int]) is None,
    ensures
        leading_hex(s) == at,
        s.len() % 2 == 1 ==> hex_error_with(s, shown) == "Odd number of digits"@,
        s.len() % 2 == 0 ==> hex_error_with(s, shown) == "Invalid character "@ + shown + " at position "@
            + decimal(at),
{
    lemma_leading(s, at);
}

proof fn lemma_leading(s: Seq<u8>, at: nat)
    requires
        at < s.len(),
        forall|i: int| 0 <= i < at ==> hex_value(#[trigger] s[i]) is Some,
        hex_value(s[at as int]) is None,
    ensures
        leading_hex(s) == at,
    decreases at,
{
    if at > 0 {
        assert(hex_value(s[0]) is Some);
        let t = s.skip(1);
        assert forall|i: int| 0 <= i < at - 1 implies hex_value(#[trigger] t[i]) is Some by {
            assert(t[i] == s[i + 1]);
        }
        lemma_leading(t, (at - 1) as nat);
    }
}

/// A sign stands in front: `+` changes nothing, `-` makes a number negative where it may be. What has
/// no digits, or anything else among them, is no number.
pub proof fn law_signs_of_numbers(s: Seq<u8>, n: nat)
    requires
        plain_number(s) == Some(n),
    ensures
        unsigned_number(s) == Some(n),
        unsigned_number(seq![0x2bu8] + s) == Some(n),
        unsigned_number(seq![0x2du8] + s) is None,
        signed_number(s) == Some(n as int),
        signed_number(seq![0x2bu8] + s) == Some(n as int),
        signed_number(seq![0x2du8] + s) == Some(-(n as int)),
        unsigned_number(Seq::empty()) is None,
        signed_number(seq![0x2du8]) is None,
{
    assert((seq![0x2bu8] + s).skip(1) =~= s);
    assert((seq![0x2du8] + s).skip(1) =~= s);
    assert(crate::text::is_digit(s[0]));
    let m = seq![0x2du8] + s;
    assert(!crate::text::is_digit(m[0]));
    assert(seq![0x2du8].skip(1) =~= Seq::<u8>::empty());
    assert(!crate::text::is_digit(seq![0x2du8][0]));
}

/// A number is its digits, each worth ten times the one behind it.
pub proof fn law_plain_numbers(s: Seq<u8>, d: nat)
    requires
        d < 10,
    ensures
        plain_number(seq![(0x30 + d) as u8]) == Some(d),
        plain_number(s) matches Some(n) ==> plain_number(s.push((0x30 + d) as u8)) == Some(10 * n + d),
        forall|i: int|
            0 <= i < s.len() && !(0x30 <= #[trigger] s[i] <= 0x39) ==> plain_number(s) is None,
        plain_number(Seq::empty()) is None,
{
    let one = seq![(0x30 + d) as u8];
    assert(one.drop_last() =~= Seq::<u8>::empty());
    reveal_with_fuel(crate::text::digits_value, 2);
    assert(crate::text::is_digit(one[0]));
    let more = s.push((0x30 + d) as u8);
    assert(more.drop_last() =~= s);
    if plain_number(s) is Some {
        assert forall|i: int| 0 <= i < more.len() implies crate::text::is_digit(#[trigger] more[i]) by {
            if i < s.len() {
                assert(crate::text::is_digit(s[i]));
            }
        }
    }
    assert forall|i: int| 0 <= i < s.len() && !(0x30 <= #[trigger] s[i] <= 0x39) implies plain_number(s)
        is None by {
        assert(!crate::text::is_digit(s[i]));
    }
}

/// Bytes are listed in brackets, with a comma and a space between them.
pub proof fn law_lists_of_bytes(b: Seq<u8>, c: u8)
    ensures
        byte_list(Seq::empty()) == seq!['[', ']'],
        byte_list(seq![c]) == seq!['['] + decimal(c as nat) + seq![']'],
        b.len() > 0 ==> byte_list(b.push(c)) == byte_list(b).drop_last() + seq![',', ' '] + decimal(
            c as nat,
        ) + seq![']'],
{
    reveal_strlit("[");
    reveal_strlit("]");
    reveal_strlit(", ");
    assert("["@ =~= seq!['[']);
    assert("]"@ =~= seq![']']);
    assert(", "@ =~= seq![',', ' ']);
    assert(byte_list(Seq::empty()) =~= seq!['[', ']']);
    assert(byte_list(seq![c]) =~= seq!['['] + decimal(c as nat) + seq![']']);
    if b.len() > 0 {
        assert(b.push(c).drop_last() =~= b);
        assert(byte_list(b).drop_last() =~= "["@ + crate::text::byte_items(b));
        assert(byte_list(b.push(c)) =~= byte_list(b).drop_last() + seq![',', ' '] + decimal(c as nat)
            + seq![']']);
    }
}

// ---- order ----

/// Byte strings stand in the order of the first byte in which they differ; where there is none the
/// shorter one comes first.
pub proof fn law_order_of_bytes(a: Seq<u8>, b: Seq<u8>, k: int)
    requires
        0 <= k <= a.len(),
        k <= b.len(),
        a.take(k) == b.take(k),
    ensures
        k < a.len() && k < b.len() && a[k] < b[k] ==> bytes_order(a, b) == Order::Less && bytes_order(b, a)
            == Order::Greater,
        k == a.len() && k < b.len() ==> bytes_order(a, b) == Order::Less && bytes_order(b, a)
            == Order::Greater,
        bytes_order(a, b) == Order::Equal <==> a == b,
{
    if (k < a.len() && k < b.len() && a[k] < b[k]) || (k == a.len() && k < b.len()) {
        lemma_first_difference(a, b, k);
        lemma_before_irreflexive(a);
        if bytes_before(b, a) {
            lemma_before_transitive(a, b, a);
        }
        lemma_before_total(a, b);
        assert(a != b);
    }
}

proof fn lemma_first_difference(a: Seq<u8>, b: Seq<u8>, k: int)
    requires
        0 <= k <= a.len(),
        k < b.len(),
        a.take(k) == b.take(k),
        k < a.len() ==> a[k] < b[k],
    ensures
        bytes_before(a, b),
    decreases k,
{
    if k > 0 {
        assert(a.take(k)[0] == a[0] && b.take(k)[0] == b[0]);
        let x = a.skip(1);
        let y = b.skip(1);
        assert(x.take(k - 1) =~= a.take(k).skip(1));
        assert(y.take(k - 1) =~= b.take(k).skip(1));
        lemma_first_difference(x, y, k - 1);
    }
}

// ---- base 64 ----

/// The characters of base 64, in their order.
pub proof fn law_base64_characters(n: int)
    requires
        0 <= n < 64,
    ensures
        base64_symbol(n) == "ABCDEFGHIJKLMNOPQRSTUVWXYZabcdefghijklmnopqrstuvwxyz0123456789+/"@[n] as u8,
{
    reveal_strlit("ABCDEFGHIJKLMNOPQRSTUVWXYZabcdefghijklmnopqrstuvwxyz0123456789+/");
}

/// Three bytes are four characters of six bits each, the highest first. One or two bytes at the end
/// are filled up with zero bits, and the text with `=`.
pub proof fn law_base64_groups(b: Seq<u8>, x: u8, y: u8, z: u8, p: int, q: int, r: int, s: int)
    requires
        0 <= p < 64,
        0 <= q < 64,
        0 <= r < 64,
        0 <= s < 64,
    ensures
        0x1_0000 * x + 0x100 * y + z == 0x4_0000 * p + 0x1000 * q + 0x40 * r + s ==> base64_code(
            seq![x, y, z] + b,
        ) == seq![base64_symbol(p), base64_symbol(q), base64_symbol(r), base64_symbol(s)] + base64_code(
            b,
        ),
        0x100 * x + y == 0x400 * p + 0x10 * q + r / 4 && r % 4 == 0 ==> base64_code(seq![x, y]) == seq![
            base64_symbol(p),
            base64_symbol(q),
            base64_symbol(r),
            0x3du8,
        ],
        x == 4 * p + q / 16 && q % 16 == 0 ==> base64_code(seq![x]) == seq![
            base64_symbol(p),
            base64_symbol(q),
            0x3du8,
            0x3du8,
        ],
        base64_code(Seq::empty()).len() == 0,
{
    let t = seq![x, y, z] + b;
    assert(t.skip(3) =~= b);
    if 0x1_0000 * x + 0x100 * y + z == 0x4_0000 * p + 0x1000 * q + 0x40 * r + s {
        assert(x as int / 4 == p);
        assert((x as int % 4) * 16 + y as int / 16 == q);
        assert((y as int % 16) * 4 + z as int / 64 == r);
        assert(z as int % 64 == s);
    }
    if 0x100 * x + y == 0x400 * p + 0x10 * q + r / 4 && r % 4 == 0 {
        assert(x as int / 4 == p);
        assert((x as int % 4) * 16 + y as int / 16 == q);
        assert((y as int % 16) * 4 == r);
    }
    if x == 4 * p + q / 16 && q % 16 == 0 {
        assert(x as int / 4 == p);
        assert((x as int % 4) * 16 == q);
    }
}

} // verus!
