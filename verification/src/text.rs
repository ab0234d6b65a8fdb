//! Text: numbers in decimal and hexadecimal, and conversions to and from bytes.
use crate::bytes::same_bytes;
use vstd::prelude::*;
use vstd::string::*;
use vstd::utf8::encode_utf8;
use vstd::utf8::valid_utf8;

verus! {

/// `String::push`: appends one character.
pub assume_specification[ String::push ](s: &mut String, c: char)
    ensures
        final(s)@ == old(s)@.push(c),
;

/// The character of a decimal digit.
pub open spec fn digit_char(d: nat) -> char {
    (0x30 + d) as u8 as char
}

/// A number in decimal, without leading zeros.
pub open spec fn decimal(n: nat) -> Seq<char>
    decreases n,
{
    if n < 10 {
        seq![digit_char(n)]
    } else {
        decimal(n / 10).push(digit_char(n % 10))
    }
}

/// Appends `n` in decimal.
pub fn push_decimal(s: &mut String, n: u64)
    ensures
        final(s)@ == old(s)@ + decimal(n as nat),
    decreases n,
{
    if n >= 10 {
        push_decimal(s, n / 10);
    }
    let d: u8 = (n % 10) as u8;
    s.push((0x30 + d) as char);
    assert(s@ =~= old(s)@ + decimal(n as nat));
}

/// The lower-case character of a hexadecimal digit.
pub open spec fn hex_digit(d: nat) -> char {
    if d < 10 {
        digit_char(d)
    } else {
        (0x57 + d) as u8 as char
    }
}

/// Two lower-case hexadecimal digits for each byte.
pub open spec fn hex_text(b: Seq<u8>) -> Seq<char> {
    Seq::new(
        2 * b.len(),
        |i: int|
            hex_digit(
                if i % 2 == 0 {
                    b[i / 2] as nat / 16
                } else {
                    b[i / 2] as nat % 16
                },
            ),
    )
}

/// `hex::encode`: two lower-case hexadecimal digits for each byte.
#[verifier::external_body]
pub(crate) fn hex_encode(data: &[u8]) -> (r: String)
    ensures
        r@ == hex_text(data@),
{
    hex::encode(data)
}

/// The value of a hexadecimal digit of either case.
pub open spec fn hex_value(c: u8) -> Option<nat> {
    if 0x30 <= c <= 0x39 {
        Some((c - 0x30) as nat)
    } else if 0x41 <= c <= 0x46 {
        Some((c - 0x37) as nat)
    } else if 0x61 <= c <= 0x66 {
        Some((c - 0x57) as nat)
    } else {
        None
    }
}

/// The bytes that an even number of hexadecimal digits stand for.
pub open spec fn hex_bytes(s: Seq<u8>) -> Option<Seq<u8>> {
    if s.len() % 2 == 0 && forall|i: int| 0 <= i < s.len() ==> hex_value(#[trigger] s[i]) is Some {
        Some(
            Seq::new(
                s.len() / 2,
                |i: int| (16 * hex_value(s[2 * i])->0 + hex_value(s[2 * i + 1])->0) as u8,
            ),
        )
    } else {
        None
    }
}

/// The number of hexadecimal digits that come before the first other character.
pub open spec fn leading_hex(s: Seq<u8>) -> nat
    decreases s.len(),
{
    if s.len() == 0 || hex_value(s[0]) is None {
        0
    } else {
        1 + leading_hex(s.skip(1))
    }
}

/// What `char`'s `Debug` shows of a character: its quotes, and the escapes that it may take.
pub uninterp spec fn debug_char(c: char) -> Seq<char>;

/// Why digits stand for no bytes, given what is shown of a character: their number is odd, or
/// else the first character that is no hexadecimal digit is named with its place.
pub open spec fn hex_error_with(s: Seq<u8>, shown: Seq<char>) -> Seq<char> {
    if s.len() % 2 == 1 {
        "Odd number of digits"@
    } else {
        "Invalid character "@ + shown + " at position "@ + decimal(leading_hex(s))
    }
}

/// Why digits stand for no bytes.
pub open spec fn hex_error_text(s: Seq<u8>) -> Seq<char> {
    hex_error_with(s, debug_char(s[leading_hex(s) as int] as char))
}

/// `hex::decode`: the bytes that the digits stand for, or the text of its error where the length
/// is odd or a character is no hexadecimal digit. How the text shows that character is left to
/// `char`'s `Debug`.
#[verifier::external_body]
pub(crate) fn hex_decode(s: &[u8]) -> (r: Result<Vec<u8>, String>)
    ensures
        match r {
            Ok(v) => hex_bytes(s@) == Some(v@),
            Err(t) => hex_bytes(s@) is None && t@ == hex_error_with(
                s@,
                debug_char(s@[leading_hex(s@) as int] as char),
            ),
        },
{
    hex::decode(s).map_err(|e| e.to_string())
}

/// The text of the error that `std::str::from_utf8` reports.
pub uninterp spec fn utf8_error_text(b: Seq<u8>) -> Seq<char>;

/// `std::str::from_utf8`: the text that the bytes encode, or the text of its error where they
/// encode none.
#[verifier::external_body]
pub(crate) fn decode_text(b: &[u8]) -> (r: Result<String, String>)
    ensures
        match r {
            Ok(s) => valid_utf8(b@) && encode_utf8(s@) == b@,
            Err(t) => !valid_utf8(b@) && t@ == utf8_error_text(b@),
        },
{
    std::str::from_utf8(b).map(|s| s.to_owned()).map_err(|e| e.to_string())
}

/// The text that bytes stand for when what encodes no text is replaced.
pub uninterp spec fn lossy_text(b: Seq<u8>) -> Seq<char>;

/// `String::from_utf8_lossy`: bytes that encode a text give that text; other bytes give a text
/// that depends on them alone.
#[verifier::external_body]
pub(crate) fn decode_lossy(b: &[u8]) -> (r: String)
    ensures
        r@ == lossy_text(b@),
        valid_utf8(b@) ==> encode_utf8(r@) == b@,
{
    String::from_utf8_lossy(b).into_owned()
}

/// One text after another.
pub fn join(a: &str, b: &str) -> (r: String)
    ensures
        r@ == a@ + b@,
{
    let mut r: String = a.to_owned();
    r.append(b);
    r
}

/// Numbers in decimal, with commas between them.
pub open spec fn byte_items(b: Seq<u8>) -> Seq<char>
    decreases b.len(),
{
    if b.len() == 0 {
        Seq::empty()
    } else if b.len() == 1 {
        decimal(b[0] as nat)
    } else {
        byte_items(b.drop_last()) + ", "@ + decimal(b.last() as nat)
    }
}

/// Bytes as a list of numbers in brackets.
pub open spec fn byte_list(b: Seq<u8>) -> Seq<char> {
    "["@ + byte_items(b) + "]"@
}

/// Appends bytes as a list of numbers in brackets.
pub fn push_byte_list(s: &mut String, b: &[u8])
    ensures
        final(s)@ == old(s)@ + byte_list(b@),
{
    let ghost start = s@;
    s.append("[");
    let mut i: usize = 0;
    assert(b@.take(0) =~= Seq::<u8>::empty());
    assert(s@ =~= start + "["@ + byte_items(b@.take(0)));
    while i < b.len()
        invariant
            i <= b@.len(),
            s@ == start + "["@ + byte_items(b@.take(i as int)),
        decreases b@.len() - i,
    {
        if i > 0 {
            s.append(", ");
        }
        push_decimal(s, b[i] as u64);
        i = i + 1;
        proof {
            let t = b@.take(i as int);
            assert(t.drop_last() =~= b@.take(i - 1));
            assert(t.last() == b@[i - 1]);
            assert(s@ =~= start + "["@ + byte_items(t));
        }
    }
    assert(b@.take(i as int) =~= b@);
    s.append("]");
    assert(s@ =~= start + byte_list(b@));
}

/// Two texts encode to the same bytes only if they are the same.
pub proof fn lemma_encoding_injective(a: Seq<char>, b: Seq<char>)
    ensures
        encode_utf8(a) == encode_utf8(b) ==> a == b,
{
    vstd::utf8::encode_utf8_decode_utf8(a);
    vstd::utf8::encode_utf8_decode_utf8(b);
}

/// Whether two texts are the same.
pub fn same_text(a: &str, b: &str) -> (r: bool)
    ensures
        r == (a@ == b@),
{
    proof {
        lemma_encoding_injective(a@, b@);
    }
    same_bytes(a.as_bytes(), b.as_bytes())
}

/// Reading back hexadecimal text gives the bytes that were written.
pub proof fn law_hex_roundtrip(b: Seq<u8>)
    ensures
        hex_bytes(encode_utf8(hex_text(b))) == Some(b),
{
    let t = hex_text(b);
    assert(vstd::utf8::is_ascii_chars(t)) by {
        assert forall|i: int| 0 <= i < t.len() implies '\0' <= #[trigger] t[i] <= '\u{7f}' by {}
    }
    vstd::utf8::is_ascii_chars_encode_utf8(t);
    let s = encode_utf8(t);
    assert(s =~= Seq::new(t.len(), |i: int| t[i] as u8));
    assert forall|i: int| 0 <= i < s.len() implies #[trigger] hex_value(s[i]) == Some(
        if i % 2 == 0 {
            b[i / 2] as nat / 16
        } else {
            b[i / 2] as nat % 16
        },
    ) by {
        assert(s[i] == t[i] as u8);
    }
    let r = hex_bytes(s)->0;
    assert(r.len() == b.len());
    assert forall|i: int| 0 <= i < b.len() implies r[i] == b[i] by {
        assert(hex_value(s[2 * i]) == Some(b[i] as nat / 16));
        assert(hex_value(s[2 * i + 1]) == Some(b[i] as nat % 16));
    }
    assert(r =~= b);
}

// ---- reading numbers ----

pub open spec fn is_digit(c: u8) -> bool {
    0x30 <= c <= 0x39
}

pub open spec fn all_digits(s: Seq<u8>) -> bool {
    forall|i: int| 0 <= i < s.len() ==> is_digit(#[trigger] s[i])
}

/// The number that decimal digits stand for.
pub open spec fn digits_value(s: Seq<u8>) -> nat
    decreases s.len(),
{
    if s.len() == 0 {
        0
    } else {
        10 * digits_value(s.drop_last()) + (s.last() - 0x30) as nat
    }
}

/// A non-empty run of decimal digits as a number.
pub open spec fn plain_number(s: Seq<u8>) -> Option<nat> {
    if s.len() > 0 && all_digits(s) {
        Some(digits_value(s))
    } else {
        None
    }
}

/// Decimal digits, with or without a plus sign, as a number.
pub open spec fn unsigned_number(s: Seq<u8>) -> Option<nat> {
    if s.len() > 0 && s[0] == 0x2b {
        plain_number(s.skip(1))
    } else {
        plain_number(s)
    }
}

/// Decimal digits, with or without a sign, as a number.
pub open spec fn signed_number(s: Seq<u8>) -> Option<int> {
    if s.len() > 0 && s[0] == 0x2d {
        match plain_number(s.skip(1)) {
            Some(n) => Some(-(n as int)),
            None => None,
        }
    } else {
        match unsigned_number(s) {
            Some(n) => Some(n as int),
            None => None,
        }
    }
}

/// Reads a run of decimal digits; `None` where there is none or it passes `limit`.
fn parse_plain(s: &[u8], from: usize, limit: u64) -> (r: Option<u64>)
    requires
        from <= s@.len(),
    ensures
        match r {
            Some(v) => plain_number(s@.skip(from as int)) == Some(v as nat) && v <= limit,
            None => plain_number(s@.skip(from as int)) is None || plain_number(
                s@.skip(from as int),
            )->0 > limit,
        },
{
    let ghost d = s@.skip(from as int);
    if from >= s.len() {
        return None;
    }
    let mut value: u64 = 0;
    let mut i: usize = from;
    assert(d.take(0) =~= Seq::<u8>::empty());
    let mut over: bool = false;
    while i < s.len()
        invariant
            from <= i <= s@.len(),
            d == s@.skip(from as int),
            all_digits(d.take(i - from)),
            !over ==> value as nat == digits_value(d.take(i - from)) && value <= limit,
            over ==> digits_value(d.take(i - from)) > limit,
        decreases s@.len() - i,
    {
        let c: u8 = s[i];
        assert(d[i - from] == c);
        if c < 0x30 || c > 0x39 {
            assert(!is_digit(d[i - from]));
            return None;
        }
        let ghost k = i - from;
        assert(d.take(k + 1).drop_last() =~= d.take(k));
        assert(d.take(k + 1).last() == c);
        assert(all_digits(d.take(k + 1))) by {
            assert forall|j: int| 0 <= j < k + 1 implies is_digit(#[trigger] d.take(k + 1)[j]) by {
                if j < k {
                    assert(d.take(k)[j] == d.take(k + 1)[j]);
                    assert(is_digit(d.take(k)[j]));
                }
            }
        }
        let digit: u64 = (c - 0x30) as u64;
        if !over {
            if value > limit / 10 || digit > limit - 10 * value {
                over = true;
            } else {
                value = 10 * value + digit;
            }
        }
        i = i + 1;
    }
    assert(d.take(d.len() as int) =~= d);
    if over {
        None
    } else {
        Some(value)
    }
}

/// Reads decimal digits, with or without a plus sign, as a number up to `limit`.
pub fn parse_unsigned(s: &[u8], limit: u64) -> (r: Option<u64>)
    ensures
        match r {
            Some(v) => unsigned_number(s@) == Some(v as nat) && v <= limit,
            None => unsigned_number(s@) is None || unsigned_number(s@)->0 > limit,
        },
{
    assert(s@.skip(0) =~= s@);
    if s.len() > 0 && s[0] == 0x2b {
        parse_plain(s, 1, limit)
    } else {
        parse_plain(s, 0, limit)
    }
}

/// Reads decimal digits, with or without a sign, as an `i64`.
pub fn parse_i64(s: &[u8]) -> (r: Option<i64>)
    ensures
        match r {
            Some(v) => signed_number(s@) == Some(v as int),
            None => signed_number(s@) is None || !(i64::MIN <= signed_number(s@)->0 <= i64::MAX),
        },
{
    if s.len() > 0 && s[0] == 0x2d {
        match parse_plain(s, 1, 0x8000_0000_0000_0000) {
            Some(n) => if n == 0x8000_0000_0000_0000 {
                Some(i64::MIN)
            } else {
                Some(-(n as i64))
            },
            None => None,
        }
    } else {
        match parse_unsigned(s, 0x7fff_ffff_ffff_ffff) {
            Some(n) => Some(n as i64),
            None => None,
        }
    }
}

pub proof fn lemma_decimal_digits(n: nat)
    ensures
        vstd::utf8::is_ascii_chars(decimal(n)),
        decimal(n).len() > 0,
        ({
            let b = Seq::new(decimal(n).len(), |i: int| decimal(n)[i] as u8);
            all_digits(b) && digits_value(b) == n
        }),
    decreases n,
{
    let b = Seq::new(decimal(n).len(), |i: int| decimal(n)[i] as u8);
    if n < 10 {
        assert(b.drop_last() =~= Seq::<u8>::empty());
        assert(digits_value(b) == 10 * digits_value(b.drop_last()) + (b.last() - 0x30) as nat);
    } else {
        lemma_decimal_digits(n / 10);
        let h = Seq::new(decimal(n / 10).len(), |i: int| decimal(n / 10)[i] as u8);
        assert(b.drop_last() =~= h);
        assert forall|i: int| 0 <= i < b.len() implies is_digit(#[trigger] b[i]) by {
            if i < h.len() {
                assert(is_digit(h[i]));
                assert(b[i] == h[i]);
            }
        }
        assert forall|i: int| 0 <= i < decimal(n).len() implies '\0' <= #[trigger] decimal(
            n,
        )[i] <= '\u{7f}' by {
            if i < h.len() {
                assert(decimal(n)[i] == decimal(n / 10)[i]);
            }
        }
    }
}

/// A number that was written in decimal reads back as itself.
pub proof fn law_decimal_roundtrip(n: nat)
    ensures
        unsigned_number(encode_utf8(decimal(n))) == Some(n),
{
    lemma_decimal_digits(n);
    vstd::utf8::is_ascii_chars_encode_utf8(decimal(n));
    let b = encode_utf8(decimal(n));
    assert(b =~= Seq::new(decimal(n).len(), |i: int| decimal(n)[i] as u8));
    assert(is_digit(b[0]));
}

} // verus!
