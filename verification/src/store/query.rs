//! What is read from the tables.
use crate::bytes::array32;
use crate::bytes::same_bytes;
use crate::store::error::StoreError;
use crate::store::error::StoreFault;
use crate::store::plan::row_views;
use crate::text::decimal;
use crate::text::hex_bytes;
use crate::text::hex_decode;
use crate::text::parse_unsigned;
use crate::text::push_decimal;
use crate::text::unsigned_number;
use vstd::prelude::*;
use vstd::string::*;
use vstd::utf8::encode_utf8;

verus! {

/// The greatest height that is believed.
pub const MAX_CHAIN_HEIGHT: u32 = 10_000_000;

/// The height of the best block, from what is stored as such.
pub open spec fn height_stored(s: Option<Seq<char>>) -> Result<u32, StoreFault> {
    match s {
        None => Ok(0u32),
        Some(x) => match unsigned_number(encode_utf8(x)) {
            Some(n) => if n <= u32::MAX {
                Ok(n as u32)
            } else {
                Err(StoreFault::Corrupted("invalid best_height"@))
            },
            None => Err(StoreFault::Corrupted("invalid best_height"@)),
        },
    }
}

/// The height of the best block, from what is stored as such.
pub fn best_height(stored: Option<&str>) -> (r: Result<u32, StoreError>)
    ensures
        match height_stored(
            match stored {
                Some(s) => Some(s@),
                None => None,
            },
        ) {
            Ok(h) => r == Ok::<u32, StoreError>(h),
            Err(f) => r matches Err(e) && e@ == f,
        },
{
    match stored {
        None => Ok(0),
        Some(s) => match parse_unsigned(s.as_bytes(), 0xffff_ffff) {
            Some(n) => Ok(n as u32),
            None => Err(StoreError::Corrupted("invalid best_height".to_owned())),
        },
    }
}

/// The hash of the best block, from what is stored as such.
pub open spec fn hash_stored(s: Option<Seq<char>>) -> Result<Option<Seq<u8>>, StoreFault> {
    match s {
        None => Ok(None),
        Some(x) => match hex_bytes(encode_utf8(x)) {
            None => Err(StoreFault::Corrupted("invalid best_hash hex"@)),
            Some(b) => if b.len() == 32 {
                Ok(Some(b))
            } else {
                Err(StoreFault::Corrupted("best_hash wrong length"@))
            },
        },
    }
}

/// The hash of the best block, from what is stored as such.
pub fn best_hash(stored: Option<&str>) -> (r: Result<Option<[u8; 32]>, StoreError>)
    ensures
        match hash_stored(
            match stored {
                Some(s) => Some(s@),
                None => None,
            },
        ) {
            Ok(Some(b)) => r matches Ok(Some(a)) && a@ == b,
            Ok(None) => r matches Ok(None),
            Err(f) => r matches Err(e) && e@ == f,
        },
{
    match stored {
        None => Ok(None),
        Some(s) => match hex_decode(s.as_bytes()) {
            Err(_) => Err(StoreError::Corrupted("invalid best_hash hex".to_owned())),
            Ok(b) => {
                if b.len() != 32 {
                    return Err(StoreError::Corrupted("best_hash wrong length".to_owned()));
                }
                let a: [u8; 32] = array32(b.as_slice(), 0);
                assert(a@ =~= b@);
                Ok(Some(a))
            },
        },
    }
}

/// The hash that is stored at a height.
pub open spec fn hash_at(h: u32, s: Seq<char>) -> Result<Seq<u8>, StoreFault> {
    match hex_bytes(encode_utf8(s)) {
        None => Err(StoreFault::Corrupted("bad hash at height "@ + decimal(h as nat))),
        Some(b) => if b.len() == 32 {
            Ok(b)
        } else {
            Err(
                StoreFault::Corrupted(
                    "bad hash length "@ + decimal(b.len()) + " at height "@ + decimal(h as nat),
                ),
            )
        },
    }
}

fn read_hash(h: u32, s: &str) -> (r: Result<[u8; 32], StoreError>)
    ensures
        match hash_at(h, s@) {
            Ok(b) => r matches Ok(a) && a@ == b,
            Err(f) => r matches Err(e) && e@ == f,
        },
{
    match hex_decode(s.as_bytes()) {
        Err(_) => {
            let mut m: String = "bad hash at height ".to_owned();
            push_decimal(&mut m, h as u64);
            Err(StoreError::Corrupted(m))
        },
        Ok(b) => {
            if b.len() != 32 {
                let mut m: String = "bad hash length ".to_owned();
                push_decimal(&mut m, b.len() as u64);
                m.append(" at height ");
                push_decimal(&mut m, h as u64);
                return Err(StoreError::Corrupted(m));
            }
            let a: [u8; 32] = array32(b.as_slice(), 0);
            assert(a@ =~= b@);
            Ok(a)
        },
    }
}

/// The hashes of the first `n` rows.
pub open spec fn hashes_upto(rows: Seq<(u32, Seq<char>)>, n: nat) -> Result<
    Seq<Seq<u8>>,
    StoreFault,
>
    decreases n,
{
    if n == 0 {
        Ok(Seq::empty())
    } else {
        match hashes_upto(rows, (n - 1) as nat) {
            Err(f) => Err(f),
            Ok(s) => match hash_at(rows[n - 1].0, rows[n - 1].1) {
                Err(f) => Err(f),
                Ok(b) => Ok(s.push(b)),
            },
        }
    }
}

/// The hashes of the main chain. A height that is beyond belief is refused.
pub open spec fn chain_hashes(best: u32, rows: Seq<(u32, Seq<char>)>) -> Result<
    Seq<Seq<u8>>,
    StoreFault,
> {
    if best > MAX_CHAIN_HEIGHT {
        Err(
            StoreFault::Corrupted(
                "best_height "@ + decimal(best as nat) + " exceeds maximum "@ + decimal(
                    MAX_CHAIN_HEIGHT as nat,
                ),
            ),
        )
    } else {
        hashes_upto(rows, rows.len())
    }
}

/// Hashes as they read.
pub open spec fn hash_views(s: Seq<[u8; 32]>) -> Seq<Seq<u8>> {
    s.map_values(|h: [u8; 32]| h@)
}

/// Refuses a height that is beyond belief.
pub fn check_chain_height(best: u32) -> (r: Result<(), StoreError>)
    ensures
        match chain_hashes(best, Seq::empty()) {
            Ok(_) => r is Ok,
            Err(f) => r matches Err(e) && e@ == f,
        },
{
    if best > MAX_CHAIN_HEIGHT {
        let mut m: String = "best_height ".to_owned();
        push_decimal(&mut m, best as u64);
        m.append(" exceeds maximum ");
        push_decimal(&mut m, MAX_CHAIN_HEIGHT as u64);
        return Err(StoreError::Corrupted(m));
    }
    Ok(())
}

/// The hashes of the main chain from its first block to the best. `rows` are the heights that are
/// stored up to the best, in order, with their hashes.
pub fn main_chain_hashes(best: u32, rows: &[(u32, String)]) -> (r: Result<
    Vec<[u8; 32]>,
    StoreError,
>)
    ensures
        match chain_hashes(best, row_views(rows@)) {
            Ok(s) => r matches Ok(v) && hash_views(v@) == s,
            Err(f) => r matches Err(e) && e@ == f,
        },
{
    check_chain_height(best)?;
    let ghost all = row_views(rows@);
    let mut hashes: Vec<[u8; 32]> = Vec::new();
    let mut i: usize = 0;
    assert(hash_views(hashes@) =~= Seq::empty());
    while i < rows.len()
        invariant
            i <= rows.len(),
            best <= MAX_CHAIN_HEIGHT,
            all == row_views(rows@),
            hashes_upto(all, i as nat) == Ok::<Seq<Seq<u8>>, StoreFault>(hash_views(hashes@)),
        decreases rows.len() - i,
    {
        let row = &rows[i];
        assert(all[i as int] == (row.0, row.1@));
        match read_hash(row.0, row.1.as_str()) {
            Ok(h) => {
                let ghost before = hashes@;
                hashes.push(h);
                assert(hash_views(hashes@) =~= hash_views(before).push(h@));
            },
            Err(e) => {
                proof {
                    lemma_hashes_fail(all, (i + 1) as nat, all.len());
                }
                return Err(e);
            },
        }
        i = i + 1;
    }
    Ok(hashes)
}

proof fn lemma_hashes_fail(rows: Seq<(u32, Seq<char>)>, n: nat, m: nat)
    requires
        n <= m,
        hashes_upto(rows, n) is Err,
    ensures
        hashes_upto(rows, m) == hashes_upto(rows, n),
    decreases m,
{
    if n < m {
        lemma_hashes_fail(rows, n, (m - 1) as nat);
    }
}

/// An unspent output.
#[derive(Debug, Clone)]
pub struct Utxo {
    /// The transaction of the output.
    pub txid: [u8; 32],
    /// The position of the output.
    pub vout: u32,
    /// What the output is worth.
    pub value: u64,
    /// The conditions under which it can be spent.
    pub script_pubkey: Vec<u8>,
    /// The height of its block.
    pub height: u32,
    /// The time of its block.
    pub timestamp: u32,
}

/// The outputs behind references.
pub open spec fn derefs(s: Seq<&Utxo>) -> Seq<Utxo> {
    s.map_values(|u: &Utxo| *u)
}

/// The outputs with the conditions `script`.
pub open spec fn with_script(all: Seq<Utxo>, script: Seq<u8>) -> Seq<Utxo> {
    all.filter(|u: Utxo| u.script_pubkey@ == script)
}

/// What outputs are worth.
pub open spec fn worth(s: Seq<Utxo>) -> nat
    decreases s.len(),
{
    if s.len() == 0 {
        0
    } else {
        worth(s.drop_last()) + s.last().value as nat
    }
}

/// The outputs with given conditions.
pub fn utxos_for_script<'a>(all: &'a [Utxo], script: &[u8]) -> (r: Vec<&'a Utxo>)
    ensures
        derefs(r@) == with_script(all@, script@),
{
    let ghost keep = |u: Utxo| u.script_pubkey@ == script@;
    let mut r: Vec<&'a Utxo> = Vec::new();
    let mut i: usize = 0;
    proof {
        reveal(Seq::filter);
        assert(derefs(r@) =~= all@.take(0).filter(keep));
    }
    while i < all.len()
        invariant
            i <= all.len(),
            keep == (|u: Utxo| u.script_pubkey@ == script@),
            derefs(r@) == all@.take(i as int).filter(keep),
        decreases all.len() - i,
    {
        let u: &'a Utxo = &all[i];
        proof {
            reveal(Seq::filter);
            assert(all@.take(i + 1).drop_last() =~= all@.take(i as int));
            assert(all@.take(i + 1).last() == *u);
        }
        if same_bytes(u.script_pubkey.as_slice(), script) {
            let ghost before = r@;
            r.push(u);
            assert(derefs(r@) =~= derefs(before).push(*u));
        }
        i = i + 1;
    }
    assert(all@.take(i as int) =~= all@);
    r
}

proof fn lemma_worth_prefix(s: Seq<Utxo>, n: int)
    requires
        0 <= n <= s.len(),
    ensures
        worth(s.take(n)) <= worth(s),
    decreases s.len() - n,
{
    if n < s.len() {
        lemma_worth_prefix(s, n + 1);
        assert(s.take(n + 1).drop_last() =~= s.take(n));
    } else {
        assert(s.take(n) =~= s);
    }
}

/// What the outputs with given conditions are worth together.
pub fn balance_for_script(all: &[Utxo], script: &[u8]) -> (r: u64)
    requires
        worth(with_script(all@, script@)) <= u64::MAX,
    ensures
        r == worth(with_script(all@, script@)),
{
    let found: Vec<&Utxo> = utxos_for_script(all, script);
    let ghost s = derefs(found@);
    let mut sum: u64 = 0;
    let mut i: usize = 0;
    assert(s.take(0) =~= Seq::empty());
    while i < found.len()
        invariant
            i <= found@.len(),
            s == derefs(found@),
            worth(s) <= u64::MAX,
            sum == worth(s.take(i as int)),
        decreases found@.len() - i,
    {
        proof {
            lemma_worth_prefix(s, i + 1);
            assert(s.take(i + 1).drop_last() =~= s.take(i as int));
            assert(s.take(i + 1).last() == *found@[i as int]);
        }
        sum = sum + found[i].value;
        i = i + 1;
    }
    assert(s.take(i as int) =~= s);
    sum
}

} // verus!
