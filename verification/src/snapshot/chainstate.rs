//! Records of the legacy chainstate database.
//!
//! A record's key is an optional prefix `c`, the transaction id and the output index; its value
//! packs the height, the amount and the script.
use crate::bytes::array32;
use crate::bytes::le_value;
use crate::bytes::read_u16_le;
use crate::bytes::read_u32_le;
use crate::bytes::read_u64_le;
use crate::snapshot::error::SnapshotError;
use crate::snapshot::error::SnapshotFault;
use vstd::prelude::*;

verus! {

/// An unspent output as the database holds it.
#[derive(Debug, Clone)]
pub struct RawUtxo {
    /// The transaction id, as stored in the key.
    pub txid: [u8; 32],
    /// The output's index in its transaction.
    pub vout: u32,
    /// The record's value.
    pub value_bytes: Vec<u8>,
}

/// An integer in one, three, five or nine bytes, as its first byte says, with its length.
pub open spec fn compact_size(data: Seq<u8>) -> Option<(nat, nat)> {
    if data.len() == 0 {
        None
    } else if data[0] < 0xfd {
        Some((data[0] as nat, 1))
    } else {
        let width: nat = if data[0] == 0xfd {
            2
        } else if data[0] == 0xfe {
            4
        } else {
            8
        };
        if data.len() < 1 + width {
            None
        } else {
            Some((le_value(data.subrange(1, 1 + width as int)), 1 + width))
        }
    }
}

/// Decodes an integer of one, three, five or nine bytes, with its length.
pub fn decode_varint(data: &[u8]) -> (r: Option<(u64, usize)>)
    ensures
        match compact_size(data@) {
            Some((v, n)) => r matches Some((x, k)) && x == v && k == n,
            None => r is None,
        },
{
    let len: usize = data.len();
    if len == 0 {
        return None;
    }
    let first: u8 = data[0];
    if first < 0xfd {
        Some((first as u64, 1))
    } else if first == 0xfd {
        if len < 3 {
            return None;
        }
        Some((read_u16_le(data, 1) as u64, 3))
    } else if first == 0xfe {
        if len < 5 {
            return None;
        }
        Some((read_u32_le(data, 1) as u64, 5))
    } else {
        if len < 9 {
            return None;
        }
        Some((read_u64_le(data, 1), 9))
    }
}

/// The base-128 integer whose digits start at `i`, after digits that are worth `n`: seven bits a
/// byte, most significant first, with the top bit set on all but the last, and one added for each
/// digit that another follows. `None` where it ends early or passes 64 bits.
pub open spec fn base128(data: Seq<u8>, i: int, n: nat) -> Option<(nat, nat)>
    decreases data.len() - i,
{
    if i < 0 || i >= data.len() || n > u64::MAX / 128 {
        None
    } else {
        let m = 128 * n + (data[i] % 128) as nat;
        if data[i] < 128 {
            Some((m, (i + 1) as nat))
        } else if m == u64::MAX {
            None
        } else {
            base128(data, i + 1, m + 1)
        }
    }
}

/// Decodes a base-128 integer, with its length.
pub fn decode_varint_base128(data: &[u8]) -> (r: Option<(u64, usize)>)
    ensures
        match base128(data@, 0, 0) {
            Some((v, n)) => r matches Some((x, k)) && x == v && k == n && n <= data@.len(),
            None => r is None,
        },
{
    let mut n: u64 = 0;
    let mut i: usize = 0;
    while i < data.len()
        invariant
            i <= data@.len(),
            base128(data@, 0, 0) == base128(data@, i as int, n as nat),
        decreases data@.len() - i,
    {
        if n > u64::MAX / 128 {
            return None;
        }
        let b: u8 = data[i];
        let m: u64 = 128 * n + (b % 128) as u64;
        i = i + 1;
        if b < 128 {
            return Some((m, i));
        }
        if m == u64::MAX {
            return None;
        }
        n = m + 1;
    }
    None
}

/// `10` to the power `e`.
pub open spec fn pow10(e: nat) -> nat
    decreases e,
{
    if e == 0 {
        1
    } else {
        10 * pow10((e - 1) as nat)
    }
}

/// The amount that a compressed amount stands for.
pub open spec fn decompressed(x: nat) -> nat {
    if x == 0 {
        0
    } else {
        let zeros = ((x - 1) % 10) as nat;
        let rest = ((x - 1) / 10) as nat;
        let digits = if zeros < 9 {
            rest / 9 * 10 + rest % 9 + 1
        } else {
            rest + 1
        };
        digits * pow10(zeros)
    }
}

proof fn lemma_pow10_grows(n: nat, i: nat, e: nat)
    requires
        i <= e,
    ensures
        n * pow10(i) <= n * pow10(e),
    decreases e - i,
{
    if i < e {
        lemma_pow10_grows(n, i + 1, e);
        assert(pow10(i + 1) == 10 * pow10(i));
        assert(n * pow10(i) <= n * (10 * pow10(i))) by (nonlinear_arith);
    }
}

/// Expands a compressed amount.
pub fn decompress_amount(x: u64) -> (r: u64)
    requires
        decompressed(x as nat) <= u64::MAX,
    ensures
        r == decompressed(x as nat),
{
    if x == 0 {
        return 0;
    }
    let zeros: u64 = (x - 1) % 10;
    let rest: u64 = (x - 1) / 10;
    let digits: u64 = if zeros < 9 {
        rest / 9 * 10 + rest % 9 + 1
    } else {
        rest + 1
    };
    let mut n: u64 = digits;
    let mut i: u64 = 0;
    proof {
        assert(digits as nat * pow10(0) == digits) by {
            assert(pow10(0) == 1);
        }
    }
    while i < zeros
        invariant
            i <= zeros,
            n == digits as nat * pow10(i as nat),
            digits as nat * pow10(zeros as nat) <= u64::MAX,
        decreases zeros - i,
    {
        proof {
            lemma_pow10_grows(digits as nat, (i + 1) as nat, zeros as nat);
            assert(pow10((i + 1) as nat) == 10 * pow10(i as nat));
            assert(digits as nat * (10 * pow10(i as nat)) == 10 * (digits as nat * pow10(
                i as nat,
            ))) by (nonlinear_arith);
        }
        n = n * 10;
        i = i + 1;
    }
    n
}

/// Whether a compressed amount expands to one that 64 bits hold.
pub fn amount_fits(x: u64) -> (r: bool)
    ensures
        r == (decompressed(x as nat) <= u64::MAX),
{
    if x == 0 {
        return true;
    }
    let zeros: u64 = (x - 1) % 10;
    let rest: u64 = (x - 1) / 10;
    let digits: u64 = if zeros < 9 {
        rest / 9 * 10 + rest % 9 + 1
    } else {
        rest + 1
    };
    let mut n: u64 = digits;
    let mut i: u64 = 0;
    proof {
        assert(digits as nat * pow10(0) == digits) by {
            assert(pow10(0) == 1);
        }
    }
    while i < zeros
        invariant
            i <= zeros,
            n == digits as nat * pow10(i as nat),
            zeros == (x - 1) % 10,
            decompressed(x as nat) == digits as nat * pow10(zeros as nat),
        decreases zeros - i,
    {
        proof {
            lemma_pow10_grows(digits as nat, (i + 1) as nat, zeros as nat);
            assert(pow10((i + 1) as nat) == 10 * pow10(i as nat));
            assert(digits as nat * (10 * pow10(i as nat)) == 10 * (digits as nat * pow10(
                i as nat,
            ))) by (nonlinear_arith);
        }
        if n > u64::MAX / 10 {
            return false;
        }
        n = n * 10;
        i = i + 1;
    }
    true
}

/// How many zeros end the decimal form of `n`, counted up to `most`.
pub open spec fn ending_zeros(n: nat, most: nat) -> nat
    decreases most,
{
    if most == 0 || n % 10 != 0 {
        0
    } else {
        1 + ending_zeros(n / 10, (most - 1) as nat)
    }
}

/// The compressed form of an amount: the number of ending zeros, up to nine, is its last decimal
/// digit, and below nine the last digit that is left counts from one to nine.
pub open spec fn compressed(n: nat) -> nat {
    if n == 0 {
        0
    } else {
        let e = ending_zeros(n, 9);
        let m = n / pow10(e);
        if e < 9 {
            (1 + 10 * (9 * (m / 10) + m % 10 - 1) + e) as nat
        } else {
            (1 + 10 * (m - 1) + 9) as nat
        }
    }
}

/// An amount is what is left without its ending zeros, with them.
proof fn lemma_ending_zeros(n: nat, most: nat)
    requires
        n > 0,
    ensures
        ending_zeros(n, most) <= most,
        n == n / pow10(ending_zeros(n, most)) * pow10(ending_zeros(n, most)),
        n / pow10(ending_zeros(n, most)) > 0,
        ending_zeros(n, most) < most ==> n / pow10(ending_zeros(n, most)) % 10 != 0,
    decreases most,
{
    let e = ending_zeros(n, most);
    if e == 0 {
        assert(pow10(0) == 1);
    } else {
        lemma_ending_zeros(n / 10, (most - 1) as nat);
        let p = pow10((e - 1) as nat);
        let m = n / 10 / p;
        assert(pow10(e) == 10 * p);
        assert(p > 0) by {
            lemma_pow10_grows(1, 0, (e - 1) as nat);
            assert(pow10(0) == 1);
        }
        assert(n == m * (10 * p)) by (nonlinear_arith)
            requires
                n == 10 * (n / 10),
                n / 10 == m * p,
        ;
        vstd::arithmetic::div_mod::lemma_div_multiples_vanish(m as int, (10 * p) as int);
        assert(n / (10 * p) == m) by {
            assert((10 * p) * m == n) by (nonlinear_arith)
                requires
                    n == m * (10 * p),
            ;
        }
    }
}

/// Digits that do not end in zero, followed by zeros, have these ending zeros.
proof fn lemma_zeros_of_product(m: nat, e: nat, most: nat)
    requires
        m > 0,
        e <= most,
        e < most ==> m % 10 != 0,
    ensures
        ending_zeros(m * pow10(e), most) == e,
        m * pow10(e) / pow10(e) == m,
    decreases e,
{
    let p = pow10(e);
    assert(p > 0) by {
        lemma_pow10_grows(1, 0, e);
        assert(pow10(0) == 1);
    }
    vstd::arithmetic::div_mod::lemma_div_multiples_vanish(m as int, p as int);
    assert(m * p == p * m) by (nonlinear_arith);
    if e == 0 {
        assert(m * 1 == m);
        assert(pow10(0) == 1);
    } else {
        lemma_zeros_of_product(m, (e - 1) as nat, (most - 1) as nat);
        let q = pow10((e - 1) as nat);
        assert(m * p == 10 * (m * q)) by (nonlinear_arith)
            requires
                p == 10 * q,
        ;
    }
}

/// Expanding what an amount was compressed to gives the amount back, and compressing what was
/// expanded gives the compressed form back: no two forms stand for the same amount.
pub proof fn law_amounts_are_compressed_without_loss(n: nat)
    ensures
        decompressed(compressed(n)) == n,
        compressed(decompressed(n)) == n,
{
    if n > 0 {
        lemma_ending_zeros(n, 9);
        let e = ending_zeros(n, 9);
        let m = n / pow10(e);
        let x = compressed(n);
        if e < 9 {
            let rest = (9 * (m / 10) + m % 10 - 1) as nat;
            assert(x == 1 + 10 * rest + e);
            assert((x - 1) % 10 == e && (x - 1) / 10 == rest);
            assert(rest / 9 == m / 10 && rest % 9 == m % 10 - 1);
        } else {
            assert((x - 1) % 10 == 9 && (x - 1) / 10 == m - 1);
        }
        let zeros = ((n - 1) % 10) as nat;
        let rest = ((n - 1) / 10) as nat;
        let digits = if zeros < 9 {
            rest / 9 * 10 + rest % 9 + 1
        } else {
            rest + 1
        };
        lemma_zeros_of_product(digits, zeros, 9);
        lemma_pow10_grows(1, 0, zeros);
        assert(pow10(0) == 1);
        assert(digits * pow10(zeros) > 0) by (nonlinear_arith)
            requires
                digits > 0,
                pow10(zeros) > 0,
        ;
    }
}

/// The output that a database record describes; `None` where the key is too short for one.
pub open spec fn record_utxo(key: Seq<u8>, value: Seq<u8>) -> Option<(Seq<u8>, u32, Seq<u8>)> {
    if key.len() < 33 {
        None
    } else {
        let start: int = if key[0] == 0x63 {
            1
        } else {
            0
        };
        let vout = match compact_size(key.skip(start + 32)) {
            Some((v, _)) => (v % 0x1_0000_0000) as u32,
            None => 0u32,
        };
        Some((key.subrange(start, start + 32), vout, value))
    }
}

/// An output's fields.
pub open spec fn raw_fields(u: RawUtxo) -> (Seq<u8>, u32, Seq<u8>) {
    (u.txid@, u.vout, u.value_bytes@)
}

/// Reads one database record; a key that is too short for an output gives none.
pub fn parse_record(key: &[u8], value: Vec<u8>) -> (r: Option<RawUtxo>)
    ensures
        match record_utxo(key@, value@) {
            Some(fields) => r matches Some(u) && raw_fields(u) == fields,
            None => r is None,
        },
{
    if key.len() < 33 {
        return None;
    }
    let start: usize = if key[0] == 0x63 {
        1
    } else {
        0
    };
    let tail: &[u8] = vstd::slice::slice_subrange(key, start + 32, key.len());
    assert(tail@ =~= key@.skip(start + 32));
    let vout: u32 = match decode_varint(tail) {
        Some((v, _)) => (v % 0x1_0000_0000) as u32,
        None => 0,
    };
    let txid: [u8; 32] = array32(key, start);
    Some(RawUtxo { txid, vout, value_bytes: value })
}

/// The outputs that the records describe, in their order.
pub open spec fn records_utxos(records: Seq<(Vec<u8>, Vec<u8>)>) -> Seq<(Seq<u8>, u32, Seq<u8>)>
    decreases records.len(),
{
    if records.len() == 0 {
        Seq::empty()
    } else {
        let rest = records_utxos(records.drop_last());
        match record_utxo(records.last().0@, records.last().1@) {
            Some(fields) => rest.push(fields),
            None => rest,
        }
    }
}

/// Reads the records of a chainstate database; refused where none describes an output.
pub fn collect_utxos(records: &Vec<(Vec<u8>, Vec<u8>)>) -> (r: Result<Vec<RawUtxo>, SnapshotError>)
    ensures
        match r {
            Ok(v) => v@.len() > 0 && v@.map_values(|u: RawUtxo| raw_fields(u)) == records_utxos(
                records@,
            ),
            Err(e) => records_utxos(records@).len() == 0 && e@ == SnapshotFault::NoUtxosFound,
        },
{
    let mut utxos: Vec<RawUtxo> = Vec::new();
    let mut i: usize = 0;
    assert(records@.take(0) =~= Seq::<(Vec<u8>, Vec<u8>)>::empty());
    assert(utxos@.map_values(|u: RawUtxo| raw_fields(u)) =~= records_utxos(records@.take(0)));
    while i < records.len()
        invariant
            i <= records@.len(),
            utxos@.map_values(|u: RawUtxo| raw_fields(u)) == records_utxos(
                records@.take(i as int),
            ),
        decreases records@.len() - i,
    {
        let (key, value): &(Vec<u8>, Vec<u8>) = &records[i];
        let ghost before = utxos@.map_values(|u: RawUtxo| raw_fields(u));
        assert(records@.take(i + 1).drop_last() =~= records@.take(i as int));
        match parse_record(key.as_slice(), crate::bytes::copy_all(value.as_slice())) {
            Some(u) => {
                utxos.push(u);
                assert(utxos@.map_values(|u: RawUtxo| raw_fields(u)) =~= before.push(
                    raw_fields(u),
                ));
            },
            None => {},
        }
        i = i + 1;
    }
    assert(records@.take(i as int) =~= records@);
    if utxos.len() == 0 {
        assert(utxos@.map_values(|u: RawUtxo| raw_fields(u)).len() == 0);
        return Err(SnapshotError::NoUtxosFound);
    }
    Ok(utxos)
}

} // verus!
