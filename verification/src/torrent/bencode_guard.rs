//! A look at the nesting of bencode before it is parsed.
//!
//! The parser calls itself for every level, so what comes from outside is scanned first, without
//! recursion.
use crate::bytes::find_byte;
use crate::bytes::find_from;
use crate::text::all_digits;
use crate::text::digits_value;
use crate::text::is_digit;
use crate::text::parse_unsigned;
use crate::text::plain_number;
use crate::text::unsigned_number;
use vstd::prelude::*;

verus! {

/// The deepest nesting that is parsed.
pub const MAX_BENCODE_DEPTH: usize = 32;

/// What a scan finds.
#[derive(Debug, Clone, Copy, PartialEq, Eq, Structural)]
pub enum Scan {
    /// Tokens that open and close as many levels.
    Balanced,
    /// Something that is no token, or a level that is not closed.
    Malformed,
    /// More levels than allowed, before anything malformed.
    TooDeep,
}

/// Where the run of digits from `i` on ends.
pub open spec fn digits_end(data: Seq<u8>, i: int) -> int
    decreases data.len() - i,
{
    if 0 <= i < data.len() && is_digit(data[i]) {
        digits_end(data, i + 1)
    } else {
        i
    }
}

/// What a scan from `i` on finds, inside `depth` levels.
pub open spec fn scan_from(data: Seq<u8>, i: int, depth: nat, max: nat) -> Scan
    decreases data.len() - i,
{
    if i < 0 || i >= data.len() {
        if depth == 0 {
            Scan::Balanced
        } else {
            Scan::Malformed
        }
    } else if data[i] == 0x64 || data[i] == 0x6c {
        if depth + 1 > max {
            Scan::TooDeep
        } else {
            scan_from(data, i + 1, depth + 1, max)
        }
    } else if data[i] == 0x65 {
        if depth == 0 {
            Scan::Malformed
        } else {
            scan_from(data, i + 1, (depth - 1) as nat, max)
        }
    } else if data[i] == 0x69 {
        match find_from(data, i + 1, 0x65) {
            Some(p) => if i < p < data.len() {
                scan_from(data, p + 1, depth, max)
            } else {
                Scan::Malformed
            },
            None => Scan::Malformed,
        }
    } else if is_digit(data[i]) {
        let j = digits_end(data, i);
        let next = j + 1 + digits_value(data.subrange(i, j));
        if j >= data.len() || data[j] != 0x3a || next > data.len() || j < i {
            Scan::Malformed
        } else {
            scan_from(data, next, depth, max)
        }
    } else {
        Scan::Malformed
    }
}

proof fn lemma_digits_end(data: Seq<u8>, i: int)
    requires
        0 <= i <= data.len(),
    ensures
        i <= digits_end(data, i) <= data.len(),
        all_digits(data.subrange(i, digits_end(data, i))),
        i < data.len() && is_digit(data[i]) ==> i < digits_end(data, i),
    decreases data.len() - i,
{
    if i < data.len() && is_digit(data[i]) {
        lemma_digits_end(data, i + 1);
        let j = digits_end(data, i);
        let s = data.subrange(i, j);
        let t = data.subrange(i + 1, j);
        assert forall|k: int| 0 <= k < s.len() implies is_digit(#[trigger] s[k]) by {
            if k > 0 {
                assert(t[k - 1] == s[k]);
            }
        }
    }
}

fn end_of_digits(data: &[u8], i: usize) -> (j: usize)
    requires
        i <= data@.len(),
    ensures
        j == digits_end(data@, i as int),
        i <= j <= data@.len(),
{
    let mut j: usize = i;
    while j < data.len() && data[j] >= 0x30 && data[j] <= 0x39
        invariant
            i <= j <= data@.len(),
            digits_end(data@, i as int) == digits_end(data@, j as int),
        decreases data@.len() - j,
    {
        j = j + 1;
    }
    j
}

/// Reads the length before a byte string whose digits start at `i`: where the bytes start and
/// where they end.
pub(crate) fn string_bounds(data: &[u8], i: usize) -> (r: Option<(usize, usize)>)
    requires
        i < data@.len(),
        is_digit(data@[i as int]),
    ensures
        ({
            let j = digits_end(data@, i as int);
            let next = j + 1 + digits_value(data@.subrange(i as int, j));
            match r {
                Some((a, b)) => i < j < data@.len() && data@[j] == 0x3a && a == j + 1 && b == next
                    && next <= data@.len(),
                None => j >= data@.len() || data@[j] != 0x3a || next > data@.len(),
            }
        }),
{
    let j: usize = end_of_digits(data, i);
    proof {
        lemma_digits_end(data@, i as int);
    }
    if j >= data.len() || data[j] != 0x3a {
        return None;
    }
    let digits: &[u8] = vstd::slice::slice_subrange(data, i, j);
    let room: usize = data.len() - j - 1;
    assert(digits@[0] == data@[i as int]);
    assert(unsigned_number(digits@) == plain_number(digits@));
    match parse_unsigned(digits, room as u64) {
        None => None,
        Some(n) => Some((j + 1, j + 1 + n as usize)),
    }
}

/// Scans bytes for their nesting.
pub fn bencode_scan(data: &[u8], max_depth: usize) -> (r: Scan)
    ensures
        r == scan_from(data@, 0, 0, max_depth as nat),
{
    let mut depth: usize = 0;
    let mut i: usize = 0;
    while i < data.len()
        invariant
            i <= data@.len(),
            depth <= i,
            scan_from(data@, 0, 0, max_depth as nat) == scan_from(
                data@,
                i as int,
                depth as nat,
                max_depth as nat,
            ),
        decreases data@.len() - i,
    {
        let c: u8 = data[i];
        if c == 0x64 || c == 0x6c {
            if depth >= max_depth {
                return Scan::TooDeep;
            }
            depth = depth + 1;
            i = i + 1;
        } else if c == 0x65 {
            if depth == 0 {
                return Scan::Malformed;
            }
            depth = depth - 1;
            i = i + 1;
        } else if c == 0x69 {
            match find_byte(data, i + 1, 0x65) {
                None => {
                    return Scan::Malformed;
                },
                Some(p) => {
                    i = p + 1;
                },
            }
        } else if c >= 0x30 && c <= 0x39 {
            match string_bounds(data, i) {
                None => {
                    return Scan::Malformed;
                },
                Some((_, next)) => {
                    i = next;
                },
            }
        } else {
            return Scan::Malformed;
        }
    }
    if depth == 0 {
        Scan::Balanced
    } else {
        Scan::Malformed
    }
}

/// Whether bytes are tokens that open and close as many levels, never more than `max_depth`.
pub fn bencode_depth_ok(data: &[u8], max_depth: usize) -> (r: bool)
    ensures
        r == (scan_from(data@, 0, 0, max_depth as nat) == Scan::Balanced),
{
    bencode_scan(data, max_depth) == Scan::Balanced
}

} // verus!
