//! What holds of the bytes of scripts and of the forms of outputs.
use crate::bytes::le_digits;
use crate::bytes::le_value;
use crate::bytes::lemma_le_digits_len;
use crate::bytes::lemma_le_roundtrip;
use crate::bytes::lemma_pow256_values;
use crate::crypto::hash160_of;
use crate::script::engine::p2sh_form;
use crate::script::engine::redeem;
use crate::script::engine::run_script;
use crate::script::engine::spend;
use crate::script::engine::top_check;
use crate::script::engine::ScriptEnv;
use crate::script::engine::Stacks;
use crate::script::error::ScriptError;
use crate::script::number::number_item;
use crate::script::number::truthy;
use crate::script::program::complete_from;
use crate::script::program::item_at;
use crate::script::program::items_from;
use crate::script::program::push_bytes;
use crate::script::program::push_int_bytes;
use crate::script::program::truncated_end;
use crate::script::program::Item;
use crate::script::program::MAX_PUSH_SIZE;
use crate::script::program::MAX_SCRIPT_SIZE;
use crate::script::standard::htlc_script;
use crate::script::standard::key_pushes;
use crate::script::standard::op_return_script;
use crate::script::standard::p2ms_script;
use crate::script::standard::p2pkh_script;
use crate::script::standard::p2sh_script;
use crate::script::standard::script_type;
use crate::script::standard::ScriptType;
use crate::script::standard::MAX_MULTISIG_KEYS;
use crate::script::standard::MAX_OP_RETURN_SIZE;
use vstd::prelude::*;

verus! {

// ---- elements ----

/// The largest script, pushed item and data output, and the most keys of a multisignature output.
pub proof fn law_sizes_of_scripts()
    ensures
        MAX_SCRIPT_SIZE == 10_000,
        MAX_PUSH_SIZE == 520,
        MAX_MULTISIG_KEYS == 15,
        MAX_OP_RETURN_SIZE == 80,
{
}

/// A push of up to 75 bytes starts with their number; one of up to 255 with `0x4c` and their number;
/// a longer one with `0x4d` and their number in two bytes, the low one first.
pub proof fn law_bytes_of_pushes(data: Seq<u8>)
    requires
        data.len() <= 0xffff,
    ensures
        ({
            let b = push_bytes(data);
            &&& data.len() <= 75 ==> b.len() == 1 + data.len() && b[0] == data.len() && b.skip(1) == data
            &&& 75 < data.len() <= 255 ==> b.len() == 2 + data.len() && b[0] == 0x4c && b[1]
                == data.len() && b.skip(2) == data
            &&& 255 < data.len() ==> b.len() == 3 + data.len() && b[0] == 0x4d && b[1] + 256 * b[2]
                == data.len() && b.skip(3) == data
        }),
{
    let b = push_bytes(data);
    if data.len() == 0 {
        assert(b.skip(1) =~= data);
    } else if data.len() <= 75 {
        assert(b.skip(1) =~= data);
    } else if data.len() <= 255 {
        assert(b.skip(2) =~= data);
    } else {
        lemma_le_digits_len(data.len(), 2);
        assert(b.skip(3) =~= data);
        lemma_pow256_values();
        lemma_le_roundtrip(data.len(), 2);
        let d = le_digits(data.len(), 2);
        reveal_with_fuel(le_value, 3);
        assert(le_value(d) == d[0] + 256 * d[1]) by {
            assert(d.skip(1).skip(1) =~= Seq::empty());
        }
    }
}

/// Small integers are opcodes of their own: zero is `0x00`, one to sixteen are `0x51` to `0x60`.
/// Greater ones are pushed as numbers.
pub proof fn law_bytes_of_integers(n: u8)
    ensures
        n == 0 ==> push_int_bytes(n) == seq![0x00u8],
        1 <= n <= 16 ==> push_int_bytes(n).len() == 1 && push_int_bytes(n)[0] == 0x50 + n,
        n > 16 ==> push_int_bytes(n) == push_bytes(number_item(n as int)),
{
}

/// A byte above `0x4e` is an opcode. A lower one announces a push: of as many bytes as it says up to
/// 75, or of as many as the one, two or four bytes behind it say. A push of more bytes than there are
/// is not read.
pub proof fn law_elements_are_read(b: Seq<u8>, p: int)
    requires
        0 <= p < b.len(),
    ensures
        b[p] > 0x4e ==> item_at(b, p) == Some((Item::Op(b[p]), p + 1)),
        1 <= b[p] <= 75 && p + 1 + b[p] <= b.len() ==> item_at(b, p) == Some(
            (Item::Push(b.skip(p + 1).take(b[p] as int)), p + 1 + b[p]),
        ),
        1 <= b[p] <= 75 && p + 1 + b[p] > b.len() ==> item_at(b, p) is None,
        b[p] == 0 ==> item_at(b, p) == Some((Item::Push(Seq::empty()), p + 1)),
        b[p] == 0x4c && p + 1 < b.len() && p + 2 + b[p + 1] <= b.len() ==> item_at(b, p) == Some(
            (Item::Push(b.skip(p + 2).take(b[p + 1] as int)), p + 2 + b[p + 1]),
        ),
        b[p] == 0x4c && (p + 1 >= b.len() || p + 2 + b[p + 1] > b.len()) ==> item_at(b, p) is None,
        b[p] == 0x4d && p + 2 < b.len() ==> {
            let n = b[p + 1] + 256 * b[p + 2];
            if p + 3 + n <= b.len() {
                item_at(b, p) == Some((Item::Push(b.skip(p + 3).take(n)), p + 3 + n))
            } else {
                item_at(b, p) is None
            }
        },
        b[p] == 0x4d && p + 2 >= b.len() ==> item_at(b, p) is None,
        b[p] == 0x4e && p + 4 < b.len() ==> {
            let n = b[p + 1] + 256 * b[p + 2] + 0x1_0000 * b[p + 3] + 0x100_0000 * b[p + 4];
            if p + 5 + n <= b.len() {
                item_at(b, p) == Some((Item::Push(b.skip(p + 5).take(n)), p + 5 + n))
            } else {
                item_at(b, p) is None
            }
        },
        b[p] == 0x4e && p + 4 >= b.len() ==> item_at(b, p) is None,
{
    if 1 <= b[p] <= 75 && p + 1 + b[p] <= b.len() {
        assert(b.skip(p + 1).take(b[p] as int) =~= b.subrange(p + 1, p + 1 + b[p]));
    }
    if b[p] == 0x4c && p + 1 < b.len() && p + 2 + b[p + 1] <= b.len() {
        assert(b.skip(p + 2).take(b[p + 1] as int) =~= b.subrange(p + 2, p + 2 + b[p + 1]));
    }
    if b[p] == 0x4d && p + 2 < b.len() {
        let n = b[p + 1] + 256 * b[p + 2];
        lemma_two_bytes(b.subrange(p + 1, p + 3));
        if p + 3 + n <= b.len() {
            assert(b.skip(p + 3).take(n) =~= b.subrange(p + 3, p + 3 + n));
        }
    }
    if b[p] == 0x4e && p + 4 < b.len() {
        let n = b[p + 1] + 256 * b[p + 2] + 0x1_0000 * b[p + 3] + 0x100_0000 * b[p + 4];
        lemma_four_bytes(b.subrange(p + 1, p + 5));
        if p + 5 + n <= b.len() {
            assert(b.skip(p + 5).take(n) =~= b.subrange(p + 5, p + 5 + n));
        }
    }
}

proof fn lemma_two_bytes(s: Seq<u8>)
    requires
        s.len() == 2,
    ensures
        le_value(s) == s[0] + 256 * s[1],
{
    reveal_with_fuel(le_value, 3);
    assert(s.skip(1).skip(1) =~= Seq::empty());
}

proof fn lemma_four_bytes(s: Seq<u8>)
    requires
        s.len() == 4,
    ensures
        le_value(s) == s[0] + 256 * s[1] + 0x1_0000 * s[2] + 0x100_0000 * s[3],
{
    reveal_with_fuel(le_value, 5);
    let a = s.skip(1);
    let b = a.skip(1);
    let c = b.skip(1);
    assert(c.skip(1) =~= Seq::empty());
    assert(a[0] == s[1] && b[0] == s[2] && c[0] == s[3]);
}

/// A script is the elements that are read one after the other. It is complete exactly if this reaches
/// its end.
pub proof fn law_scripts_are_read_in_order(b: Seq<u8>, p: int, item: Item, next: int)
    requires
        0 <= p < b.len(),
    ensures
        item_at(b, p) == Some((item, next)) && p < next ==> complete_from(b, p) == complete_from(b, next)
            && items_from(b, p) == seq![item] + items_from(b, next),
        item_at(b, p) is None ==> !complete_from(b, p) && items_from(b, p).len() == 0,
        complete_from(b, b.len() as int),
        items_from(b, b.len() as int).len() == 0,
{
}

/// Reading stops behind the header of a push that is cut off, as far as the header is there.
pub proof fn law_where_reading_stops(b: Seq<u8>, p: int)
    requires
        0 <= p < b.len(),
        item_at(b, p) is None,
    ensures
        b[p] <= 75 ==> truncated_end(b, p) == p + 1,
        b[p] == 0x4c ==> truncated_end(b, p) == (if p + 1 < b.len() {
            p + 2
        } else {
            p + 1
        }),
        b[p] == 0x4d ==> truncated_end(b, p) == (if p + 2 < b.len() {
            p + 3
        } else {
            p + 1
        }),
        b[p] == 0x4e ==> truncated_end(b, p) == (if p + 4 < b.len() {
            p + 5
        } else {
            p + 1
        }),
{
}

// ---- forms ----

/// The forms of outputs, by their bytes.
pub proof fn law_forms_of_outputs(b: Seq<u8>)
    ensures
        script_type(b) == ScriptType::P2PKH <==> b.len() == 25 && b.take(3) == seq![0x76u8, 0xa9, 0x14]
            && b.skip(23) == seq![0x88u8, 0xac],
        script_type(b) == ScriptType::P2SH <==> b.len() == 23 && b.take(2) == seq![0xa9u8, 0x14]
            && b.last() == 0x87,
        script_type(b) == ScriptType::P2PK <==> b.last() == 0xac && ((b.len() == 35 && b[0] == 33) || (
        b.len() == 67 && b[0] == 65)),
        script_type(b) == ScriptType::OpReturn <==> b.len() > 0 && b[0] == 0x6a,
        script_type(b) is P2MS <==> b.len() >= 3 && 0x51 <= b[0] <= b[b.len() - 2] <= 0x60 && b.last()
            == 0xae,
        script_type(b) matches ScriptType::P2MS { m, n } ==> b[0] == 0x50 + m && b[b.len() - 2] == 0x50 + n
            && 1 <= m <= n <= 16,
        script_type(b) == ScriptType::Htlc ==> b.len() > 5 && b.take(2) == seq![0x63u8, 0xa8],
        b.len() > 5 && b[0] == 0x63 && b[1] == 0xa8 ==> script_type(b) == ScriptType::Htlc,
        p2sh_form(b) <==> script_type(b) == ScriptType::P2SH,
{
    if b.len() == 25 {
        let t = b.take(3);
        let e = b.skip(23);
        assert(t[0] == b[0] && t[1] == b[1] && t[2] == b[2]);
        assert(e[0] == b[23] && e[1] == b[24]);
        if b[0] == 0x76 && b[1] == 0xa9 && b[2] == 0x14 && b[23] == 0x88 && b[24] == 0xac {
            assert(t =~= seq![0x76u8, 0xa9, 0x14]);
            assert(e =~= seq![0x88u8, 0xac]);
        }
        if t == seq![0x76u8, 0xa9, 0x14] && e == seq![0x88u8, 0xac] {
            assert(t[0] == 0x76 && t[1] == 0xa9 && t[2] == 0x14);
            assert(e[0] == 0x88 && e[1] == 0xac);
        }
    }
    if b.len() >= 2 {
        let t = b.take(2);
        assert(t[0] == b[0] && t[1] == b[1]);
        if b[0] == 0xa9 && b[1] == 0x14 {
            assert(t =~= seq![0xa9u8, 0x14]);
        }
        if b[0] == 0x63 && b[1] == 0xa8 {
            assert(t =~= seq![0x63u8, 0xa8]);
        }
        if t == seq![0xa9u8, 0x14] {
            assert(t[0] == 0xa9 && t[1] == 0x14);
        }
    }
}

/// The outputs that pay to a hash, byte by byte.
pub proof fn law_outputs_to_hashes(h: Seq<u8>)
    requires
        h.len() == 20,
    ensures
        p2pkh_script(h) == seq![0x76u8, 0xa9, 0x14] + h + seq![0x88u8, 0xac],
        p2sh_script(h) == seq![0xa9u8, 0x14] + h + seq![0x87u8],
{
    assert(p2pkh_script(h) =~= seq![0x76u8, 0xa9, 0x14] + h + seq![0x88u8, 0xac]);
    assert(p2sh_script(h) =~= seq![0xa9u8, 0x14] + h + seq![0x87u8]);
}

/// A multisignature output is the number of signatures, the keys, the number of keys and `0xae`.
pub proof fn law_multisignature_outputs(m: u8, keys: Seq<Seq<u8>>, key: Seq<u8>)
    requires
        1 <= m <= 15,
        1 <= keys.len() <= 15,
        0 < key.len() <= 75,
    ensures
        ({
            let b = p2ms_script(m, keys);
            &&& b[0] == 0x50 + m
            &&& b[b.len() - 2] == 0x50 + keys.len()
            &&& b.last() == 0xae
            &&& b.subrange(1, b.len() - 2) == key_pushes(keys)
        }),
        key_pushes(Seq::empty()) == Seq::<u8>::empty(),
        key_pushes(keys.push(key)) == key_pushes(keys) + seq![key.len() as u8] + key,
{
    let b = p2ms_script(m, keys);
    assert(push_int_bytes(m) =~= seq![(0x50 + m) as u8]);
    assert(push_int_bytes(keys.len() as u8) =~= seq![(0x50 + keys.len()) as u8]);
    assert(b.subrange(1, b.len() - 2) =~= key_pushes(keys));
    assert(keys.push(key).drop_last() =~= keys);
    assert(key_pushes(keys.push(key)) =~= key_pushes(keys) + seq![key.len() as u8] + key);
}

/// A contract, byte by byte: the claim with the digest of the secret and the claimer's hash, or the
/// refund with the time in four bytes, the low one first, and the refunder's hash.
pub proof fn law_contracts(lock: Seq<u8>, claimer: Seq<u8>, refunder: Seq<u8>, expiry: u32)
    requires
        lock.len() == 32,
        claimer.len() == 20,
        refunder.len() == 20,
    ensures
        ({
            let b = htlc_script(lock, claimer, refunder, expiry);
            &&& b.len() == 95
            &&& b.subrange(0, 3) == seq![0x63u8, 0xa8, 0x20]
            &&& b.subrange(3, 35) == lock
            &&& b.subrange(35, 39) == seq![0x88u8, 0x76, 0xa9, 0x14]
            &&& b.subrange(39, 59) == claimer
            &&& b.subrange(59, 63) == seq![0x88u8, 0xac, 0x67, 0x04]
            &&& b[63] + 256 * b[64] + 0x1_0000 * b[65] + 0x100_0000 * b[66] == expiry
            &&& b.subrange(67, 72) == seq![0xb1u8, 0x75, 0x76, 0xa9, 0x14]
            &&& b.subrange(72, 92) == refunder
            &&& b.subrange(92, 95) == seq![0x88u8, 0xac, 0x68]
        }),
{
    let b = htlc_script(lock, claimer, refunder, expiry);
    let d = le_digits(expiry as nat, 4);
    lemma_le_digits_len(expiry as nat, 4);
    lemma_pow256_values();
    lemma_le_roundtrip(expiry as nat, 4);
    lemma_four_bytes(d);
    assert(b.subrange(0, 3) =~= seq![0x63u8, 0xa8, 0x20]);
    assert(b.subrange(3, 35) =~= lock);
    assert(b.subrange(35, 39) =~= seq![0x88u8, 0x76, 0xa9, 0x14]);
    assert(b.subrange(39, 59) =~= claimer);
    assert(b.subrange(59, 63) =~= seq![0x88u8, 0xac, 0x67, 0x04]);
    assert(b.subrange(63, 67) =~= d);
    assert(b[63] == d[0] && b[64] == d[1] && b[65] == d[2] && b[66] == d[3]);
    assert(b.subrange(67, 72) =~= seq![0xb1u8, 0x75, 0x76, 0xa9, 0x14]);
    assert(b.subrange(72, 92) =~= refunder);
    assert(b.subrange(92, 95) =~= seq![0x88u8, 0xac, 0x68]);
}

/// A data output is `0x6a` and a push of the data, if there is any.
pub proof fn law_data_outputs(data: Seq<u8>)
    requires
        data.len() <= 80,
    ensures
        op_return_script(data)[0] == 0x6a,
        data.len() == 0 ==> op_return_script(data).len() == 1,
        0 < data.len() <= 75 ==> op_return_script(data) == seq![0x6au8, data.len() as u8] + data,
        75 < data.len() ==> op_return_script(data) == seq![0x6au8, 0x4c, data.len() as u8] + data,
{
    if 0 < data.len() <= 75 {
        assert(op_return_script(data) =~= seq![0x6au8, data.len() as u8] + data);
    }
    if 75 < data.len() {
        assert(op_return_script(data) =~= seq![0x6au8, 0x4c, data.len() as u8] + data);
    }
}

// ---- spending ----

/// What is on top decides: it must be there and not be zero.
pub proof fn law_top_item_decides(s: Seq<Seq<u8>>, item: Seq<u8>)
    ensures
        top_check(Seq::empty()) == Err::<(), ScriptError>(ScriptError::EmptyStack),
        truthy(item) ==> top_check(s.push(item)) is Ok,
        !truthy(item) ==> top_check(s.push(item)) == Err::<(), ScriptError>(ScriptError::VerifyFailed),
{
}

/// An output that does not pay to a script hash is spent exactly if the input's script goes through on
/// empty stacks, the output's script goes through on what that left, and a true item is on top.
pub proof fn law_when_an_output_is_spent(sig: Seq<u8>, pubkey: Seq<u8>, env: ScriptEnv)
    ensures
        ({
            let (a, first) = run_script(Stacks { main: Seq::empty(), alt: Seq::empty() }, sig, env);
            let (b, second) = run_script(a, pubkey, env);
            let spent = spend(sig, pubkey, env).1;
            &&& script_type(pubkey) != ScriptType::P2SH ==> (spent is Ok <==> first is Ok && second is Ok
                && b.main.len() > 0 && truthy(b.main.last()))
            &&& spent is Ok ==> first is Ok && second is Ok && b.main.len() > 0 && truthy(b.main.last())
        }),
{
    law_forms_of_outputs(pubkey);
}

/// An output that pays to a script hash is spent only by an input that leaves a script, which must go
/// through on the items below it and leave a true item.
pub proof fn law_redeem_script_must_agree(sig: Seq<u8>, pubkey: Seq<u8>, env: ScriptEnv)
    requires
        script_type(pubkey) == ScriptType::P2SH,
        spend(sig, pubkey, env).1 is Ok,
    ensures
        ({
            let a = run_script(Stacks { main: Seq::empty(), alt: Seq::empty() }, sig, env).0;
            let alt = run_script(a, pubkey, env).0.alt;
            let below = Stacks { main: a.main.drop_last(), alt };
            let (c, third) = run_script(below, a.main.last(), env);
            &&& a.main.len() > 0
            &&& a.main.last().len() <= 10_000
            &&& third is Ok
            &&& c.main.len() > 0 && truthy(c.main.last())
        }),
{
    law_forms_of_outputs(pubkey);
}

/// The script that redeems has the hash that the output names.
pub proof fn law_redeem_script_has_the_hash(h: Seq<u8>, sig: Seq<u8>, env: ScriptEnv)
    requires
        h.len() == 20,
        ({
            let (a, first) = run_script(Stacks { main: Seq::empty(), alt: Seq::empty() }, sig, env);
            first is Ok && 0 < a.main.len() < 1000
        }),
        spend(sig, p2sh_script(h), env).1 is Ok,
    ensures
        ({
            let a = run_script(Stacks { main: Seq::empty(), alt: Seq::empty() }, sig, env).0;
            hash160_of(a.main.last()) == h && redeem(a.main, a.alt, env).1 is Ok
        }),
{
    crate::script::spending::law_p2sh_spend(h, sig, env);
}

} // verus!
