//! Bytes as base64 text.
use base64::Engine;
use vstd::prelude::*;

verus! {

/// The character for six bits.
pub open spec fn base64_symbol(n: int) -> u8 {
    if n < 26 {
        (0x41 + n) as u8
    } else if n < 52 {
        (0x61 + n - 26) as u8
    } else if n < 62 {
        (0x30 + n - 52) as u8
    } else if n == 62 {
        0x2b
    } else {
        0x2f
    }
}

/// Bytes as base64: four characters for three bytes, the last group filled up with `=`.
pub open spec fn base64_code(b: Seq<u8>) -> Seq<u8>
    decreases b.len(),
{
    if b.len() == 0 {
        Seq::empty()
    } else if b.len() == 1 {
        seq![
            base64_symbol(b[0] as int / 4),
            base64_symbol((b[0] as int % 4) * 16),
            0x3d,
            0x3d,
        ]
    } else if b.len() == 2 {
        seq![
            base64_symbol(b[0] as int / 4),
            base64_symbol((b[0] as int % 4) * 16 + b[1] as int / 16),
            base64_symbol((b[1] as int % 16) * 4),
            0x3d,
        ]
    } else {
        seq![
            base64_symbol(b[0] as int / 4),
            base64_symbol((b[0] as int % 4) * 16 + b[1] as int / 16),
            base64_symbol((b[1] as int % 16) * 4 + b[2] as int / 64),
            base64_symbol(b[2] as int % 64),
        ] + base64_code(b.skip(3))
    }
}

/// Whether a text is the base64 of some bytes.
pub open spec fn is_base64(s: Seq<u8>) -> bool {
    exists|b: Seq<u8>| #[trigger] base64_code(b) == s
}

/// The text of the error that decoding reports.
pub uninterp spec fn base64_error_text(s: Seq<u8>) -> Seq<char>;

/// `base64::Engine::decode` with the standard alphabet, padding required and no stray bits: the
/// bytes whose base64 the text is, or the text of its error where it is that of no bytes.
#[verifier::external_body]
pub(crate) fn base64_decode(s: &[u8]) -> (r: Result<Vec<u8>, String>)
    ensures
        match r {
            Ok(v) => base64_code(v@) == s@,
            Err(t) => !is_base64(s@) && t@ == base64_error_text(s@),
        },
{
    base64::engine::general_purpose::STANDARD.decode(s).map_err(|e| e.to_string())
}

spec fn symbol_value(c: u8) -> int {
    if 0x41 <= c <= 0x5a {
        c - 0x41
    } else if 0x61 <= c <= 0x7a {
        c - 0x61 + 26
    } else if 0x30 <= c <= 0x39 {
        c - 0x30 + 52
    } else if c == 0x2b {
        62
    } else {
        63
    }
}

proof fn lemma_symbol(n: int)
    requires
        0 <= n < 64,
    ensures
        symbol_value(base64_symbol(n)) == n,
        base64_symbol(n) != 0x3d,
{
}

/// A base64 text stands for one sequence of bytes only.
pub proof fn law_base64_is_injective(a: Seq<u8>, b: Seq<u8>)
    ensures
        base64_code(a) == base64_code(b) ==> a == b,
    decreases a.len(),
{
    if base64_code(a) == base64_code(b) {
        let s = base64_code(a);
        let t = base64_code(b);
        if a.len() == 0 {
            if b.len() > 0 {
                assert(t.len() >= 4);
            }
            assert(a =~= b);
        } else if b.len() == 0 {
            assert(s.len() >= 4);
        } else {
            assert(s[0] == t[0] && s[1] == t[1] && s[2] == t[2] && s[3] == t[3]);
            let a0 = a[0] as int;
            let b0 = b[0] as int;
            let a1 = if a.len() > 1 {
                a[1] as int
            } else {
                0
            };
            let b1 = if b.len() > 1 {
                b[1] as int
            } else {
                0
            };
            let a2 = if a.len() > 2 {
                a[2] as int
            } else {
                0
            };
            let b2 = if b.len() > 2 {
                b[2] as int
            } else {
                0
            };
            lemma_symbol(a0 / 4);
            lemma_symbol(b0 / 4);
            lemma_symbol((a0 % 4) * 16 + a1 / 16);
            lemma_symbol((b0 % 4) * 16 + b1 / 16);
            lemma_symbol((a1 % 16) * 4 + a2 / 64);
            lemma_symbol((b1 % 16) * 4 + b2 / 64);
            lemma_symbol(a2 % 64);
            lemma_symbol(b2 % 64);
            if a.len() == 1 {
                assert(b.len() == 1);
                assert(a =~= b);
            } else if a.len() == 2 {
                assert(b.len() == 2);
                assert(a =~= b);
            } else {
                assert(b.len() >= 3);
                let x = a.skip(3);
                let y = b.skip(3);
                assert(s.skip(4) =~= base64_code(x));
                assert(t.skip(4) =~= base64_code(y));
                law_base64_is_injective(x, y);
                assert(a =~= seq![a[0], a[1], a[2]] + x);
                assert(b =~= seq![b[0], b[1], b[2]] + y);
            }
        }
    }
}

/// The bytes that a base64 text stands for.
pub open spec fn base64_bytes(s: Seq<u8>) -> Option<Seq<u8>> {
    if is_base64(s) {
        Some(choose|b: Seq<u8>| #[trigger] base64_code(b) == s)
    } else {
        None
    }
}

/// The base64 text of bytes stands for them.
pub proof fn law_base64_reads_back(b: Seq<u8>)
    ensures
        base64_bytes(base64_code(b)) == Some(b),
{
    let s = base64_code(b);
    assert(is_base64(s));
    law_base64_is_injective(choose|x: Seq<u8>| #[trigger] base64_code(x) == s, b);
}

} // verus!
