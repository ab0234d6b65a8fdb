//! Binary numbers of 53 digits, and how they are written in decimal.
//!
//! Amounts and sizes are shown the way arithmetic on doubles gives them, and here that arithmetic
//! is done on integers: round to 53 binary digits, ties to even.
use crate::text::decimal;
use crate::text::digit_char;
use crate::text::push_decimal;
use vstd::arithmetic::power2::pow2;
use vstd::prelude::*;
use vstd::string::*;

verus! {

/// The nearest integer to `n / d`, the even one of two.
pub open spec fn nearest(n: nat, d: nat) -> nat {
    let q = n / d;
    let r = n % d;
    if 2 * r > d || (2 * r == d && q % 2 == 1) {
        q + 1
    } else {
        q
    }
}

/// How often `n` can be halved, rounding down, until it is below `2^53`.
pub open spec fn excess_digits(n: nat) -> nat
    decreases n,
{
    if n < 0x20_0000_0000_0000 {
        0
    } else {
        1 + excess_digits(n / 2)
    }
}

/// `n` rounded to 53 binary digits.
pub open spec fn rounded(n: nat) -> nat {
    nearest(n, pow2(excess_digits(n))) * pow2(excess_digits(n))
}

/// The nearest integer to `n / d`, the even one of two.
pub fn nearest_int(n: u128, d: u128) -> (r: u128)
    requires
        0 < d,
        n < u128::MAX,
    ensures
        r == nearest(n as nat, d as nat),
{
    let q: u128 = n / d;
    let m: u128 = n % d;
    let rest: u128 = d - m;
    if m > rest || (m == rest && q % 2 == 1) {
        assert(q <= n) by (nonlinear_arith)
            requires
                q == n / d,
                d > 0,
        ;
        q + 1
    } else {
        q
    }
}

proof fn lemma_excess(n: nat)
    ensures
        n / pow2(excess_digits(n)) < 0x20_0000_0000_0000,
        excess_digits(n) > 0 ==> n / pow2(excess_digits(n)) >= 0x10_0000_0000_0000,
        pow2(excess_digits(n)) > 0,
    decreases n,
{
    if n < 0x20_0000_0000_0000 {
        vstd::arithmetic::power2::lemma2_to64();
    } else {
        let k = excess_digits(n / 2);
        lemma_excess(n / 2);
        vstd::arithmetic::power2::lemma_pow2_unfold(k + 1);
        vstd::arithmetic::power2::lemma_pow2_pos(k);
        vstd::arithmetic::div_mod::lemma_div_denominator(n as int, 2, pow2(k) as int);
        assert(n / pow2(k + 1) == (n / 2) / pow2(k));
        if k == 0 {
            vstd::arithmetic::power2::lemma2_to64();
        }
    }
}

/// `n` rounded to 53 binary digits.
pub fn round_double(n: u128) -> (r: u128)
    requires
        n < 0x100_0000_0000_0000_0000_0000_0000,
    ensures
        r == rounded(n as nat),
        r <= 2 * n,
{
    let mut unit: u128 = 1;
    let mut rest: u128 = n;
    let ghost mut k: nat = 0;
    proof {
        vstd::arithmetic::power2::lemma2_to64();
    }
    while rest >= 0x20_0000_0000_0000
        invariant
            unit == pow2(k),
            unit > 0,
            rest == n as nat / pow2(k),
            excess_digits(n as nat) == k + excess_digits(rest as nat),
            unit * rest <= n,
            n < 0x100_0000_0000_0000_0000_0000_0000,
        decreases rest,
    {
        proof {
            vstd::arithmetic::power2::lemma_pow2_unfold(k + 1);
            vstd::arithmetic::div_mod::lemma_div_denominator(n as int, unit as int, 2);
            assert(unit * 2 == 2 * unit);
            assert(unit <= n) by (nonlinear_arith)
                requires
                    unit * rest <= n,
                    rest >= 1,
            ;
            assert((2 * unit) * (rest / 2) <= unit * rest) by (nonlinear_arith)
                requires
                    unit > 0,
            ;
            k = k + 1;
        }
        unit = 2 * unit;
        rest = rest / 2;
    }
    proof {
        lemma_excess(n as nat);
        assert(unit == pow2(excess_digits(n as nat)));
    }
    let q: u128 = nearest_int(n, unit);
    proof {
        lemma_rounded_bound(n as nat);
        assert(q * unit == rounded(n as nat));
    }
    q * unit
}

/// The last `digits` decimal digits of `n`, with zeros in front.
pub open spec fn padded(n: nat, digits: nat) -> Seq<char>
    decreases digits,
{
    if digits == 0 {
        Seq::empty()
    } else {
        padded(n / 10, (digits - 1) as nat).push(digit_char(n % 10))
    }
}

/// Appends the last `digits` decimal digits of `n`.
pub fn push_padded(s: &mut String, n: u64, digits: u32)
    ensures
        final(s)@ == old(s)@ + padded(n as nat, digits as nat),
    decreases digits,
{
    if digits > 0 {
        push_padded(s, n / 10, digits - 1);
        let d: u8 = (n % 10) as u8;
        s.push((0x30 + d) as char);
    }
    assert(s@ =~= old(s)@ + padded(n as nat, digits as nat));
}

/// `n` hundredths: a point before the last two digits.
pub open spec fn hundredths(n: nat) -> Seq<char> {
    decimal(n / 100) + "."@ + padded(n % 100, 2)
}

/// `n` millionths: a point before the last six digits.
pub open spec fn millionths(n: nat) -> Seq<char> {
    decimal(n / 1_000_000) + "."@ + padded(n % 1_000_000, 6)
}

/// A number of bytes in units of `unit` with two digits after the point.
pub open spec fn size_in_units(bytes: nat, unit: nat) -> Seq<char> {
    hundredths(nearest(100 * rounded(bytes), unit))
}

/// A number of bytes for people to read.
pub open spec fn size_text(bytes: nat) -> Seq<char> {
    if bytes >= 0x4000_0000 {
        size_in_units(bytes, 0x4000_0000) + " GB"@
    } else if bytes >= 0x10_0000 {
        size_in_units(bytes, 0x10_0000) + " MB"@
    } else if bytes >= 1024 {
        size_in_units(bytes, 1024) + " KB"@
    } else {
        decimal(bytes) + " B"@
    }
}

fn push_hundredths(s: &mut String, n: u64)
    ensures
        final(s)@ == old(s)@ + hundredths(n as nat),
{
    push_decimal(s, n / 100);
    s.append(".");
    push_padded(s, n % 100, 2);
    assert(s@ =~= old(s)@ + hundredths(n as nat));
}

fn size_number(bytes: u64, unit: u64) -> (r: String)
    requires
        1024 <= unit <= 0x4000_0000,
    ensures
        r@ == size_in_units(bytes as nat, unit as nat),
{
    let mut s: String = String::new();
    let a: u128 = round_double(bytes as u128);
    let n: u128 = nearest_int(100 * a, unit as u128);
    proof {
        lemma_rounded_bound(bytes as nat);
        let x = (100 * a) as nat;
        assert(x / (unit as nat) <= x / 1024) by {
            vstd::arithmetic::div_mod::lemma_div_is_ordered_by_denominator(
                x as int,
                1024,
                unit as int,
            );
        }
        assert(n <= 0xffff_ffff_ffff_ffff);
    }
    push_hundredths(&mut s, n as u64);
    assert(s@ =~= size_in_units(bytes as nat, unit as nat));
    s
}

proof fn lemma_rounded_bound(n: nat)
    requires
        n < 0x100_0000_0000_0000_0000_0000_0000,
    ensures
        rounded(n) <= 2 * n,
{
    let k = excess_digits(n);
    let u = pow2(k);
    lemma_excess(n);
    let q = nearest(n, u);
    if k == 0 {
        vstd::arithmetic::power2::lemma2_to64();
        assert(q == n);
    } else {
        let x = (n / u) as int;
        let ui = u as int;
        let ni = n as int;
        let qi = q as int;
        assert(ui <= ni) by (nonlinear_arith)
            requires
                x == ni / ui,
                ui > 0,
                x >= 0x10_0000_0000_0000,
        ;
        assert(qi * ui <= ni + ui) by (nonlinear_arith)
            requires
                qi <= ni / ui + 1,
                ui > 0,
        ;
    }
}

/// Writes a number of bytes for people to read.
pub fn format_bytes(bytes: u64) -> (r: String)
    ensures
        r@ == size_text(bytes as nat),
{
    if bytes >= 0x4000_0000 {
        let mut s: String = size_number(bytes, 0x4000_0000);
        s.append(" GB");
        s
    } else if bytes >= 0x10_0000 {
        let mut s: String = size_number(bytes, 0x10_0000);
        s.append(" MB");
        s
    } else if bytes >= 1024 {
        let mut s: String = size_number(bytes, 1024);
        s.append(" KB");
        s
    } else {
        let mut s: String = String::new();
        push_decimal(&mut s, bytes);
        assert(s@ =~= decimal(bytes as nat));
        s.append(" B");
        s
    }
}

/// How often `n` is doubled until it is at least `2^52` times `d`.
pub open spec fn doublings(n: nat, d: nat) -> nat
    decreases (if n >= 0x10_0000_0000_0000 * d {
        0
    } else {
        0x10_0000_0000_0000 * d - n
    }),
{
    if n == 0 || n >= 0x10_0000_0000_0000 * d {
        0
    } else {
        1 + doublings(2 * n, d)
    }
}

/// The millionths of `n / d` after rounding `n` and the quotient to 53 binary digits.
pub open spec fn shown_millionths(n: nat, d: nat) -> nat {
    let a = rounded(n);
    let s = pow2(doublings(a, d));
    let m = nearest(a * s, d);
    nearest(m * 1_000_000, s)
}

/// A number of coins of `d` smallest units each, with six digits after the point.
pub open spec fn coins_text(n: nat, d: nat) -> Seq<char> {
    millionths(shown_millionths(n, d)) + " VTR"@
}

proof fn lemma_doublings(n: nat, d: nat)
    requires
        0 < n < 0x10_0000_0000_0000 * d,
    ensures
        doublings(n, d) > 0,
        n * pow2(doublings(n, d)) < 0x20_0000_0000_0000 * d,
        n * pow2(doublings(n, d)) >= 0x10_0000_0000_0000 * d,
        pow2(doublings(n, d)) > 0,
    decreases (0x10_0000_0000_0000 * d - n),
{
    let k = doublings(2 * n, d);
    if 2 * n < 0x10_0000_0000_0000 * d {
        lemma_doublings(2 * n, d);
    } else {
        vstd::arithmetic::power2::lemma2_to64();
        assert(k == 0);
    }
    vstd::arithmetic::power2::lemma_pow2_unfold(k + 1);
    vstd::arithmetic::power2::lemma_pow2_pos(k);
    let p = pow2(k);
    assert(n * (2 * p) == (2 * n) * p) by (nonlinear_arith);
    assert((2 * n) * 1 == 2 * n);
}

/// Writes a number of smallest units, of which `d` make a coin, with six digits after the point.
pub fn format_coins(n: u64, d: u64) -> (r: String)
    requires
        d == 1_000_000 || d == 100_000_000,
    ensures
        r@ == coins_text(n as nat, d as nat),
{
    let a: u128 = round_double(n as u128);
    proof {
        lemma_rounded_bound(n as nat);
    }
    let limit: u128 = 0x10_0000_0000_0000 * d as u128;
    let mut x: u128 = a;
    let mut unit: u128 = 1;
    let ghost mut k: nat = 0;
    proof {
        vstd::arithmetic::power2::lemma2_to64();
        if a > 0 {
            lemma_doublings(a as nat, d as nat);
        }
    }
    while x > 0 && x < limit
        invariant
            d == 1_000_000 || d == 100_000_000,
            limit == 0x10_0000_0000_0000 * d,
            a <= 0x2_0000_0000_0000_0000,
            x == a * unit,
            unit == pow2(k),
            unit > 0,
            a == 0 ==> unit == 1,
            doublings(a as nat, d as nat) == k + doublings(x as nat, d as nat),
            x <= 2 * limit,
            unit <= 2 * limit,
        decreases 2 * limit - x,
    {
        proof {
            vstd::arithmetic::power2::lemma_pow2_unfold(k + 1);
            assert(2 * (a * unit) == a * (2 * unit)) by (nonlinear_arith);
            assert(unit <= a * unit) by (nonlinear_arith)
                requires
                    a >= 1,
                    unit > 0,
            ;
            k = k + 1;
        }
        x = 2 * x;
        unit = 2 * unit;
    }
    let m: u128 = nearest_int(x, d as u128);
    proof {
        assert(doublings(x as nat, d as nat) == 0);
        assert(m <= 0x20_0000_0000_0001);
    }
    let shown: u128 = nearest_int(m * 1_000_000, unit);
    proof {
        let p = (m * 1_000_000) as int;
        let u = unit as int;
        assert(p / u <= p) by (nonlinear_arith)
            requires
                p >= 0,
                u >= 1,
        ;
    }
    let whole: u64 = (shown / 1_000_000) as u64;
    let part: u64 = (shown % 1_000_000) as u64;
    let mut s: String = String::new();
    push_decimal(&mut s, whole);
    s.append(".");
    push_padded(&mut s, part, 6);
    s.append(" VTR");
    assert(s@ =~= coins_text(n as nat, d as nat));
    s
}

/// How many smallest units of a coin are shown, in millionths of a coin: all of them where a coin has
/// a million, and to the nearest millionth where it has a hundred million.
pub proof fn law_shown_coins(n: nat)
    ensures
        n < 0x10_0000_0000_0000 ==> shown_millionths(n, 1_000_000) == n,
        n < 0x20_0000_0000_0000 ==> 100 * shown_millionths(n, 100_000_000) <= n + 50,
        n < 0x20_0000_0000_0000 ==> 100 * shown_millionths(n, 100_000_000) + 50 >= n,
{
    if n < 0x20_0000_0000_0000 {
        vstd::arithmetic::power2::lemma2_to64();
        assert(excess_digits(n) == 0);
        assert(nearest(n, 1) == n);
        assert(rounded(n) == n);
        if n == 0 {
            assert(doublings(0, 1_000_000) == 0 && doublings(0, 100_000_000) == 0);
            assert(nearest(0, 1_000_000) == 0 && nearest(0, 100_000_000) == 0);
            assert(nearest(0, 1) == 0);
        } else {
            lemma_shown(n, 100_000_000);
            if n < 0x10_0000_0000_0000 {
                lemma_shown(n, 1_000_000);
            }
        }
    }
}

proof fn lemma_near(n: nat, d: nat)
    requires
        d > 0,
    ensures
        2 * (d * nearest(n, d) - n) <= d,
        2 * (n - d * nearest(n, d)) <= d,
{
    vstd::arithmetic::div_mod::lemma_fundamental_div_mod(n as int, d as int);
    let q = n / d;
    assert(d * (q + 1) == d * q + d) by (nonlinear_arith);
}

proof fn lemma_shown(n: nat, d: nat)
    requires
        0 < n < 0x20_0000_0000_0000,
        rounded(n) == n,
        (d == 1_000_000 && n < 0x10_0000_0000_0000) || d == 100_000_000,
    ensures
        d == 1_000_000 ==> shown_millionths(n, d) == n,
        d == 100_000_000 ==> 100 * shown_millionths(n, d) <= n + 50,
        d == 100_000_000 ==> 100 * shown_millionths(n, d) + 50 >= n,
{
    lemma_doublings(n, d);
    let s = pow2(doublings(n, d));
    let m = nearest(n * s, d);
    let x = nearest(m * 1_000_000, s);
    lemma_near(n * s, d);
    lemma_near(m * 1_000_000, s);
    let si = s as int;
    let ni = n as int;
    let di = d as int;
    let mi = m as int;
    let xi = x as int;
    let ns = (n * s) as int;
    let sx = (s * x) as int;
    let dm = (d * m) as int;
    assert(s * x == s * nearest(m * 1_000_000, s));
    assert(2 * (dm - ns) <= di && 2 * (ns - dm) <= di);
    assert(2 * (sx - 1_000_000 * mi) <= si && 2 * (1_000_000 * mi - sx) <= si);
    if d == 1_000_000 {
        assert(dm == 1_000_000 * mi);
        assert(2 * (sx - ns) <= si + 1_000_000 && 2 * (ns - sx) <= si + 1_000_000);
        assert(si > 1_000_000) by (nonlinear_arith)
            requires
                ns == ni * si,
                ns >= 0x10_0000_0000_0000 * 1_000_000,
                0 < ni < 0x10_0000_0000_0000,
                si > 0,
        ;
        assert(xi == ni) by (nonlinear_arith)
            requires
                sx == si * xi,
                ns == ni * si,
                si > 1_000_000,
                2 * (sx - ns) <= si + 1_000_000,
                2 * (ns - sx) <= si + 1_000_000,
        ;
    } else {
        assert(dm == 100 * (1_000_000 * mi));
        assert(2 * (100 * sx - ns) <= 100 * si + 100_000_000);
        assert(2 * (ns - 100 * sx) <= 100 * si + 100_000_000);
        assert(2 * si > 100_000_000) by (nonlinear_arith)
            requires
                ns == ni * si,
                ns >= 0x10_0000_0000_0000 * 100_000_000,
                0 < ni < 0x20_0000_0000_0000,
                si > 0,
        ;
        assert(100 * xi <= ni + 50) by (nonlinear_arith)
            requires
                sx == si * xi,
                ns == ni * si,
                2 * si > 100_000_000,
                2 * (100 * sx - ns) <= 100 * si + 100_000_000,
        ;
        assert(100 * xi + 50 >= ni) by (nonlinear_arith)
            requires
                sx == si * xi,
                ns == ni * si,
                2 * si > 100_000_000,
                2 * (ns - 100 * sx) <= 100 * si + 100_000_000,
        ;
    }
}

/// A number of coins is its millionths and the name of the coin.
pub proof fn law_coins_for_people(n: nat)
    requires
        n < 0x10_0000_0000_0000,
    ensures
        coins_text(n, 1_000_000) == millionths(n) + " VTR"@,
{
    law_shown_coins(n);
}

} // verus!
