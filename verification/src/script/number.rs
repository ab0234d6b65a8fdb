//! Numbers and truth values as stack items.
//!
//! A number is stored in sign-magnitude form, least significant byte first, with the sign in the
//! top bit of the last byte.
use crate::bytes::le_value;
use crate::bytes::lemma_le_value_bound;
use crate::bytes::lemma_le_value_push;
use crate::bytes::lemma_pow256_values;
use crate::bytes::pow256;
use crate::script::error::ScriptError;
use vstd::prelude::*;

verus! {

/// Whether byte `i` of `b` makes it true: any non-zero byte does, but for a bare sign bit at the
/// end.
pub open spec fn counts_as_true(b: Seq<u8>, i: int) -> bool {
    if i == b.len() - 1 {
        b[i] % 128 != 0
    } else {
        b[i] != 0
    }
}

/// Whether a stack item is true.
pub open spec fn truthy(b: Seq<u8>) -> bool {
    exists|i: int| 0 <= i < b.len() && #[trigger] counts_as_true(b, i)
}

/// The stack item for a truth value.
pub open spec fn bool_item(v: bool) -> Seq<u8> {
    if v {
        seq![1u8]
    } else {
        Seq::empty()
    }
}

/// The absolute value that a non-empty sign-magnitude number holds.
pub open spec fn magnitude(b: Seq<u8>) -> nat {
    le_value(b.drop_last()) + (b.last() % 128) as nat * pow256((b.len() - 1) as nat)
}

/// The number that a stack item holds.
pub open spec fn number_of(b: Seq<u8>) -> int {
    if b.len() == 0 {
        0
    } else if b.last() >= 128 {
        -(magnitude(b) as int)
    } else {
        magnitude(b) as int
    }
}

/// Reads a stack item as a number of at most `max_len` bytes.
pub open spec fn script_number(b: Seq<u8>, max_len: nat) -> Result<int, ScriptError> {
    if b.len() > max_len {
        Err(ScriptError::InvalidScriptNumber)
    } else {
        Ok(number_of(b))
    }
}

/// The base-256 digits of `m`, least significant first, without leading zeros.
pub open spec fn minimal_digits(m: nat) -> Seq<u8>
    decreases m,
{
    if m == 0 {
        Seq::empty()
    } else {
        seq![(m % 256) as u8] + minimal_digits(m / 256)
    }
}

pub open spec fn abs(n: int) -> nat {
    if n < 0 {
        (-n) as nat
    } else {
        n as nat
    }
}

/// The shortest stack item that holds `n`.
pub open spec fn number_item(n: int) -> Seq<u8> {
    let digits = minimal_digits(abs(n));
    if digits.len() == 0 {
        digits
    } else if digits.last() >= 128 {
        digits.push(if n < 0 {
            0x80u8
        } else {
            0x00u8
        })
    } else if n < 0 {
        digits.drop_last().push((digits.last() + 128) as u8)
    } else {
        digits
    }
}

/// Whether a stack item is true.
pub fn is_true(bytes: &[u8]) -> (r: bool)
    ensures
        r == truthy(bytes@),
{
    let mut i: usize = 0;
    while i < bytes.len()
        invariant
            i <= bytes@.len(),
            forall|j: int| 0 <= j < i ==> !counts_as_true(bytes@, j),
        decreases bytes@.len() - i,
    {
        let b: u8 = bytes[i];
        let found: bool = if i == bytes.len() - 1 {
            b % 128 != 0
        } else {
            b != 0
        };
        if found {
            assert(counts_as_true(bytes@, i as int));
            return true;
        }
        i = i + 1;
    }
    false
}

/// The stack item for a truth value.
pub fn bool_to_bytes(b: bool) -> (r: Vec<u8>)
    ensures
        r@ == bool_item(b),
{
    let mut r: Vec<u8> = Vec::new();
    if b {
        r.push(1);
    }
    r
}

/// Reads a stack item as a number, refusing more than `max_len` bytes.
pub fn decode_script_num(bytes: &[u8], max_len: usize) -> (r: Result<i64, ScriptError>)
    requires
        bytes@.len() <= 8 || bytes@.len() > max_len,
    ensures
        match script_number(bytes@, max_len as nat) {
            Ok(n) => r matches Ok(v) && v == n,
            Err(e) => r == Err::<i64, ScriptError>(e),
        },
{
    let n: usize = bytes.len();
    if n == 0 {
        return Ok(0);
    }
    if n > max_len {
        return Err(ScriptError::InvalidScriptNumber);
    }
    let mut value: u64 = 0;
    let mut scale: u64 = 1;
    let mut i: usize = 0;
    while i < n - 1
        invariant
            i <= n - 1,
            n == bytes@.len(),
            n <= 8,
            value as nat == le_value(bytes@.take(i as int)),
            scale as nat == pow256(i as nat),
        decreases n - 1 - i,
    {
        proof {
            lemma_pow256_values();
            lemma_le_value_push(bytes@.take(i as int), bytes@[i as int]);
            assert(bytes@.take(i + 1) =~= bytes@.take(i as int).push(bytes@[i as int]));
            lemma_le_value_bound(bytes@.take(i + 1));
            assert(bytes@[i as int] as nat * pow256(i as nat) <= 255 * pow256(i as nat))
                by (nonlinear_arith)
                requires
                    bytes@[i as int] as nat <= 255,
            ;
        }
        value = value + bytes[i] as u64 * scale;
        scale = scale * 256;
        i = i + 1;
    }
    let last: u8 = bytes[n - 1];
    proof {
        lemma_pow256_values();
        assert(bytes@.take(n - 1) =~= bytes@.drop_last());
        lemma_le_value_bound(bytes@.drop_last());
        assert((last % 128) as nat * pow256((n - 1) as nat) <= 127 * pow256((n - 1) as nat))
            by (nonlinear_arith)
            requires
                (last % 128) as nat <= 127,
        ;
    }
    let m: i64 = (value + (last % 128) as u64 * scale) as i64;
    if last >= 128 {
        Ok(-m)
    } else {
        Ok(m)
    }
}

/// The shortest stack item that holds the number with this magnitude and sign.
pub(crate) fn signed_item(start: u64, negative: bool) -> (r: Vec<u8>)
    ensures
        r@ == number_item(if negative {
            -(start as int)
        } else {
            start as int
        }),
{
    let mut result: Vec<u8> = Vec::new();
    let mut rest: u64 = start;
    while rest > 0
        invariant
            minimal_digits(start as nat) == result@ + minimal_digits(rest as nat),
        decreases rest,
    {
        let ghost prev = result@;
        let ghost before = rest;
        result.push((rest % 256) as u8);
        rest = rest / 256;
        assert(prev + minimal_digits(before as nat) =~= result@ + minimal_digits(rest as nat));
    }
    assert(result@ =~= minimal_digits(start as nat));
    if result.len() > 0 {
        let last: u8 = result[result.len() - 1];
        if last >= 128 {
            result.push(if negative {
                0x80
            } else {
                0x00
            });
        } else if negative {
            let end: usize = result.len() - 1;
            result.set(end, last + 128);
            assert(result@ =~= minimal_digits(start as nat).drop_last().push((last + 128) as u8));
        }
    }
    result
}

/// The shortest stack item that holds `n`.
pub fn int_to_bytes(n: i64) -> (r: Vec<u8>)
    ensures
        r@ == number_item(n as int),
{
    if n < 0 {
        signed_item((-(n + 1)) as u64 + 1, true)
    } else {
        signed_item(n as u64, false)
    }
}

proof fn lemma_minimal_digits(m: nat)
    ensures
        le_value(minimal_digits(m)) == m,
        m > 0 ==> minimal_digits(m).len() > 0 && minimal_digits(m).last() != 0,
    decreases m,
{
    if m > 0 {
        lemma_minimal_digits(m / 256);
        let tail = minimal_digits(m / 256);
        assert(minimal_digits(m).skip(1) =~= tail);
        if m / 256 == 0 {
            assert(tail =~= Seq::<u8>::empty());
            assert(minimal_digits(m).last() == (m % 256) as u8);
        } else {
            assert(minimal_digits(m).last() == tail.last());
        }
    }
}

/// Reading back the item that was written for a number gives that number.
pub proof fn law_number_roundtrip(n: int, max_len: nat)
    requires
        number_item(n).len() <= max_len,
    ensures
        script_number(number_item(n), max_len) == Ok::<int, ScriptError>(n),
{
    let digits = minimal_digits(abs(n));
    lemma_minimal_digits(abs(n));
    if digits.len() > 0 {
        assert(digits.drop_last().push(digits.last()) =~= digits);
        lemma_le_value_push(digits.drop_last(), digits.last());
        let item = number_item(n);
        if digits.last() >= 128 {
            assert(item.drop_last() =~= digits);
            assert((item.last() % 128) as nat == 0);
            assert(0 * pow256((item.len() - 1) as nat) == 0);
        } else if n < 0 {
            assert(item.drop_last() =~= digits.drop_last());
        }
    } else {
        assert(abs(n) == 0);
    }
}

/// A number's item is true exactly when the number is not zero.
pub proof fn law_number_truth(n: int)
    ensures
        truthy(number_item(n)) == (n != 0),
{
    lemma_minimal_digits(abs(n));
    let digits = minimal_digits(abs(n));
    let item = number_item(n);
    if n == 0 {
        assert(item.len() == 0);
    } else {
        let k = digits.len() - 1;
        assert(digits[k] != 0);
        assert(counts_as_true(item, k));
    }
}

} // verus!
