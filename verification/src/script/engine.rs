//! Execution of scripts on a stack of byte strings.
use crate::bytes::copy_all;
use crate::bytes::same_bytes;
use crate::crypto::ecdsa_check;
use crate::crypto::hash160;
use crate::crypto::hash160_of;
use crate::crypto::ripemd160;
use crate::crypto::ripemd160_of;
use crate::crypto::sha1;
use crate::crypto::sha1_of;
use crate::crypto::sha256;
use crate::crypto::sha256_of;
use crate::crypto::sha256d;
use crate::crypto::sha256d_of;
use crate::crypto::verify_ecdsa;
use crate::crypto::SignatureFault;
use crate::script::error::ScriptError;
use crate::script::number::abs;
use crate::script::number::bool_item;
use crate::script::number::bool_to_bytes;
use crate::script::number::decode_script_num;
use crate::script::number::int_to_bytes;
use crate::script::number::is_true;
use crate::script::number::number_item;
use crate::script::number::script_number;
use crate::script::number::signed_item;
use crate::script::number::truthy;
use crate::script::program::complete_from;
use crate::script::program::item_at;
use crate::script::program::Item;
use crate::script::program::Script;
use crate::script::program::ScriptItem;
use crate::script::program::ScriptIter;
use vstd::prelude::*;

verus! {

/// The deepest stack on which data is still pushed.
pub const MAX_STACK_DEPTH: usize = 1000;

/// The largest operand and result of arithmetic, in bytes.
pub const MAX_ARITH_NUM_LEN: usize = 4;

/// The largest lock-time operand, in bytes.
pub const MAX_LOCK_NUM_LEN: usize = 5;

/// The most elements of one script that are executed.
pub const MAX_SCRIPT_EXEC_STEPS: usize = 200;

/// Lock times from here on are Unix times, below it block heights.
pub const LOCKTIME_THRESHOLD: u32 = 500_000_000;

/// The sequence number of a final input.
pub const SEQUENCE_FINAL: u32 = 0xffff_ffff;

/// The transaction and chain state that context-dependent opcodes look at.
#[derive(Debug, Clone, Copy, Default)]
pub struct ScriptEnv {
    /// The digest that signatures sign.
    pub tx_hash: [u8; 32],
    /// The current block height.
    pub block_height: u32,
    /// The current block's Unix time.
    pub block_time: u32,
    /// The spending transaction's lock time.
    pub tx_lock_time: u32,
    /// The spending input's sequence number.
    pub input_sequence: u32,
    /// The height at which the spent output was created.
    pub utxo_height: u32,
    /// The Unix time at which the spent output was created.
    pub utxo_timestamp: u32,
}

/// The byte strings that a vector of vectors holds.
pub open spec fn views(v: Seq<Vec<u8>>) -> Seq<Seq<u8>> {
    Seq::new(v.len(), |i: int| v[i]@)
}

/// What an operation leaves on the main stack, and whether it went through.
pub type Ran = (Seq<Seq<u8>>, Result<(), ScriptError>);

pub open spec fn done(s: Seq<Seq<u8>>) -> Ran {
    (s, Ok(()))
}

pub open spec fn failed(s: Seq<Seq<u8>>, e: ScriptError) -> Ran {
    (s, Err(e))
}

/// Taking a number off the stack; an item that is no number is gone all the same.
pub open spec fn pop_number_of(s: Seq<Seq<u8>>) -> (Seq<Seq<u8>>, Result<int, ScriptError>) {
    if s.len() == 0 {
        (s, Err(ScriptError::EmptyStack))
    } else {
        (s.drop_last(), script_number(s.last(), MAX_ARITH_NUM_LEN as nat))
    }
}

fn push_item(stack: &mut Vec<Vec<u8>>, item: Vec<u8>)
    ensures
        views(final(stack)@) == views(old(stack)@).push(item@),
{
    stack.push(item);
}

fn pop_item(stack: &mut Vec<Vec<u8>>) -> (r: Result<Vec<u8>, ScriptError>)
    ensures
        views(old(stack)@).len() == 0 ==> r == Err::<Vec<u8>, ScriptError>(ScriptError::EmptyStack)
            && views(final(stack)@) == views(old(stack)@),
        views(old(stack)@).len() > 0 ==> (r matches Ok(v) && v@ == views(old(stack)@).last())
            && views(final(stack)@) == views(old(stack)@).drop_last(),
{
    match stack.pop() {
        Some(v) => Ok(v),
        None => Err(ScriptError::EmptyStack),
    }
}

fn pop_number(stack: &mut Vec<Vec<u8>>) -> (r: Result<i64, ScriptError>)
    ensures
        views(final(stack)@) == pop_number_of(views(old(stack)@)).0,
        match pop_number_of(views(old(stack)@)).1 {
            Ok(n) => r matches Ok(v) && v == n,
            Err(e) => r == Err::<i64, ScriptError>(e),
        },
{
    let item: Vec<u8> = pop_item(stack)?;
    decode_script_num(item.as_slice(), MAX_ARITH_NUM_LEN)
}

/// A copy of the item `k` places below the top.
fn copy_item(stack: &Vec<Vec<u8>>, k: usize) -> (r: Vec<u8>)
    requires
        k < stack@.len(),
    ensures
        r@ == views(stack@)[stack@.len() - 1 - k],
{
    copy_all(stack[stack.len() - 1 - k].as_slice())
}

/// Takes out the item `k` places below the top.
fn take_item(stack: &mut Vec<Vec<u8>>, k: usize) -> (r: Vec<u8>)
    requires
        k < old(stack)@.len(),
    ensures
        r@ == views(old(stack)@)[old(stack)@.len() - 1 - k],
        views(final(stack)@) == views(old(stack)@).remove(old(stack)@.len() - 1 - k),
{
    let at: usize = stack.len() - 1 - k;
    stack.remove(at)
}

// ---- operations that copy items ----

/// The opcodes that leave the stack as it is and push copies or counts.
pub open spec fn is_copy_op(op: u8) -> bool {
    op == 0x6e || op == 0x6f || op == 0x70 || op == 0x73 || op == 0x74 || op == 0x76 || op == 0x79
        || op == 0x82
}

/// `OP_2DUP`, `OP_3DUP`, `OP_2OVER`, `OP_IFDUP`, `OP_DEPTH`, `OP_DUP`, `OP_OVER` and `OP_SIZE`.
pub open spec fn copy_op(op: u8, s: Seq<Seq<u8>>) -> Ran {
    let n = s.len();
    if op == 0x74 {
        done(s.push(number_item(n as int)))
    } else if (op == 0x76 || op == 0x73 || op == 0x82) && n < 1 {
        failed(s, ScriptError::EmptyStack)
    } else if op == 0x76 {
        done(s.push(s[n - 1]))
    } else if op == 0x73 {
        if truthy(s[n - 1]) {
            done(s.push(s[n - 1]))
        } else {
            done(s)
        }
    } else if op == 0x82 {
        done(s.push(number_item(s[n - 1].len() as int)))
    } else if n < 2 {
        failed(s, ScriptError::EmptyStack)
    } else if op == 0x79 {
        done(s.push(s[n - 2]))
    } else if op == 0x6e {
        done(s.push(s[n - 2]).push(s[n - 1]))
    } else if n < 3 {
        failed(s, ScriptError::EmptyStack)
    } else if op == 0x6f {
        done(s.push(s[n - 3]).push(s[n - 2]).push(s[n - 1]))
    } else if n < 4 {
        failed(s, ScriptError::EmptyStack)
    } else {
        done(s.push(s[n - 4]).push(s[n - 3]))
    }
}

fn exec_copy_op(stack: &mut Vec<Vec<u8>>, op: u8) -> (r: Result<(), ScriptError>)
    requires
        is_copy_op(op),
    ensures
        (views(final(stack)@), r) == copy_op(op, views(old(stack)@)),
{
    let n: usize = stack.len();
    if op == 0x74 {
        push_item(stack, signed_item(n as u64, false));
        return Ok(());
    }
    if op == 0x76 || op == 0x73 || op == 0x82 {
        if n < 1 {
            return Err(ScriptError::EmptyStack);
        }
        let top: Vec<u8> = copy_item(stack, 0);
        if op == 0x76 || (op == 0x73 && is_true(top.as_slice())) {
            push_item(stack, top);
        } else if op == 0x82 {
            push_item(stack, signed_item(top.len() as u64, false));
        }
        return Ok(());
    }
    let needed: usize = if op == 0x79 || op == 0x6e {
        2
    } else if op == 0x6f {
        3
    } else {
        4
    };
    if n < needed {
        return Err(ScriptError::EmptyStack);
    }
    if op == 0x79 {
        let a: Vec<u8> = copy_item(stack, 1);
        push_item(stack, a);
    } else if op == 0x6e {
        let a: Vec<u8> = copy_item(stack, 1);
        let b: Vec<u8> = copy_item(stack, 0);
        push_item(stack, a);
        push_item(stack, b);
    } else if op == 0x6f {
        let a: Vec<u8> = copy_item(stack, 2);
        let b: Vec<u8> = copy_item(stack, 1);
        let c: Vec<u8> = copy_item(stack, 0);
        push_item(stack, a);
        push_item(stack, b);
        push_item(stack, c);
    } else {
        let a: Vec<u8> = copy_item(stack, 3);
        let b: Vec<u8> = copy_item(stack, 2);
        push_item(stack, a);
        push_item(stack, b);
    }
    Ok(())
}

// ---- operations that move or drop items ----

/// The opcodes that rearrange or drop a fixed number of items.
pub open spec fn is_move_op(op: u8) -> bool {
    op == 0x6d || op == 0x71 || op == 0x72 || op == 0x75 || op == 0x77 || op == 0x7b || op == 0x7c
        || op == 0x7d
}

/// `OP_2DROP`, `OP_2ROT`, `OP_2SWAP`, `OP_DROP`, `OP_NIP`, `OP_ROT`, `OP_SWAP` and `OP_TUCK`.
pub open spec fn move_op(op: u8, s: Seq<Seq<u8>>) -> Ran {
    let n = s.len();
    if n < 1 {
        failed(s, ScriptError::EmptyStack)
    } else if op == 0x75 {
        done(s.drop_last())
    } else if op == 0x6d {
        if n < 2 {
            failed(s.drop_last(), ScriptError::EmptyStack)
        } else {
            done(s.take(n - 2))
        }
    } else if n < 2 {
        failed(s, ScriptError::EmptyStack)
    } else if op == 0x7c {
        done(s.take(n - 2).push(s[n - 1]).push(s[n - 2]))
    } else if op == 0x77 {
        done(s.take(n - 2).push(s[n - 1]))
    } else if op == 0x7d {
        done(s.take(n - 2).push(s[n - 1]).push(s[n - 2]).push(s[n - 1]))
    } else if n < 3 {
        failed(s, ScriptError::EmptyStack)
    } else if op == 0x7b {
        done(s.take(n - 3).push(s[n - 2]).push(s[n - 1]).push(s[n - 3]))
    } else if n < 4 {
        failed(s, ScriptError::EmptyStack)
    } else if op == 0x72 {
        done(s.take(n - 4).push(s[n - 2]).push(s[n - 1]).push(s[n - 4]).push(s[n - 3]))
    } else if n < 6 {
        failed(s, ScriptError::EmptyStack)
    } else {
        done(s.take(n - 6) + s.subrange(n - 4, n as int).push(s[n - 6]).push(s[n - 5]))
    }
}

fn exec_move_op(stack: &mut Vec<Vec<u8>>, op: u8) -> (r: Result<(), ScriptError>)
    requires
        is_move_op(op),
    ensures
        (views(final(stack)@), r) == move_op(op, views(old(stack)@)),
{
    let n: usize = stack.len();
    let ghost s = views(stack@);
    if op == 0x75 {
        pop_item(stack)?;
        return Ok(());
    }
    if op == 0x6d {
        pop_item(stack)?;
        pop_item(stack)?;
        assert(s.drop_last().drop_last() =~= s.take(n - 2));
        return Ok(());
    }
    let needed: usize = if op == 0x7c || op == 0x77 || op == 0x7d {
        2
    } else if op == 0x7b {
        3
    } else if op == 0x72 {
        4
    } else {
        6
    };
    if n < needed {
        return Err(ScriptError::EmptyStack);
    }
    if op == 0x7c {
        let a: Vec<u8> = take_item(stack, 1);
        push_item(stack, a);
        assert(views(stack@) =~= s.take(n - 2).push(s[n - 1]).push(s[n - 2]));
    } else if op == 0x77 {
        take_item(stack, 1);
        assert(views(stack@) =~= s.take(n - 2).push(s[n - 1]));
    } else if op == 0x7d {
        let top: Vec<u8> = copy_item(stack, 0);
        let a: Vec<u8> = take_item(stack, 1);
        push_item(stack, a);
        push_item(stack, top);
        assert(views(stack@) =~= s.take(n - 2).push(s[n - 1]).push(s[n - 2]).push(s[n - 1]));
    } else if op == 0x7b {
        let a: Vec<u8> = take_item(stack, 2);
        push_item(stack, a);
        assert(views(stack@) =~= s.take(n - 3).push(s[n - 2]).push(s[n - 1]).push(s[n - 3]));
    } else if op == 0x72 {
        let a: Vec<u8> = take_item(stack, 3);
        assert(views(stack@).len() == n - 1);
        let b: Vec<u8> = take_item(stack, 2);
        push_item(stack, a);
        push_item(stack, b);
        assert(views(stack@) =~= s.take(n - 4).push(s[n - 2]).push(s[n - 1]).push(s[n - 4]).push(
            s[n - 3],
        ));
    } else {
        let a: Vec<u8> = take_item(stack, 5);
        assert(views(stack@).len() == n - 1);
        let b: Vec<u8> = take_item(stack, 4);
        push_item(stack, a);
        push_item(stack, b);
        assert(views(stack@) =~= s.take(n - 6) + s.subrange(n - 4, n as int).push(s[n - 6]).push(
            s[n - 5],
        ));
    }
    Ok(())
}

/// `OP_ROLL` and `OP_PICK`: the number on top says how deep the item lies.
pub open spec fn indexed_op(op: u8, s: Seq<Seq<u8>>) -> Ran {
    let (t, popped) = pop_number_of(s);
    match popped {
        Err(e) => failed(t, e),
        Ok(k) => if k < 0 || k >= t.len() {
            failed(t, ScriptError::InvalidScriptNumber)
        } else if op == 0x7a {
            done(t.remove(t.len() - 1 - k).push(t[t.len() - 1 - k]))
        } else {
            done(t.push(t[t.len() - 1 - k]))
        },
    }
}

fn exec_indexed_op(stack: &mut Vec<Vec<u8>>, op: u8) -> (r: Result<(), ScriptError>)
    requires
        op == 0x7a || op == 0x78,
    ensures
        (views(final(stack)@), r) == indexed_op(op, views(old(stack)@)),
{
    let k: i64 = pop_number(stack)?;
    if k < 0 || k as u64 >= stack.len() as u64 {
        return Err(ScriptError::InvalidScriptNumber);
    }
    let item: Vec<u8> = if op == 0x7a {
        take_item(stack, k as usize)
    } else {
        copy_item(stack, k as usize)
    };
    push_item(stack, item);
    Ok(())
}

// ---- operations on truth values and bytes ----

/// The opcodes that look at items as truth values or as bytes.
pub open spec fn is_truth_op(op: u8) -> bool {
    op == 0x69 || op == 0x87 || op == 0x88 || op == 0x91 || op == 0x9a || op == 0x9b
}

/// `OP_VERIFY`, `OP_EQUAL`, `OP_EQUALVERIFY`, `OP_NOT`, `OP_BOOLAND` and `OP_BOOLOR`.
pub open spec fn truth_op(op: u8, s: Seq<Seq<u8>>) -> Ran {
    let n = s.len();
    if n < 1 {
        failed(s, ScriptError::EmptyStack)
    } else if op == 0x69 {
        if truthy(s[n - 1]) {
            done(s.take(n - 1))
        } else {
            failed(s.take(n - 1), ScriptError::VerifyFailed)
        }
    } else if op == 0x91 {
        done(s.take(n - 1).push(bool_item(!truthy(s[n - 1]))))
    } else if n < 2 {
        failed(s.take(n - 1), ScriptError::EmptyStack)
    } else if op == 0x87 {
        done(s.take(n - 2).push(bool_item(s[n - 2] == s[n - 1])))
    } else if op == 0x88 {
        if s[n - 2] == s[n - 1] {
            done(s.take(n - 2))
        } else {
            failed(s.take(n - 2), ScriptError::VerifyFailed)
        }
    } else if op == 0x9a {
        done(s.take(n - 2).push(bool_item(truthy(s[n - 2]) && truthy(s[n - 1]))))
    } else {
        done(s.take(n - 2).push(bool_item(truthy(s[n - 2]) || truthy(s[n - 1]))))
    }
}

fn exec_truth_op(stack: &mut Vec<Vec<u8>>, op: u8) -> (r: Result<(), ScriptError>)
    requires
        is_truth_op(op),
    ensures
        (views(final(stack)@), r) == truth_op(op, views(old(stack)@)),
{
    let ghost s = views(stack@);
    let b: Vec<u8> = pop_item(stack)?;
    assert(s.drop_last() =~= s.take(s.len() - 1));
    if op == 0x69 {
        if !is_true(b.as_slice()) {
            return Err(ScriptError::VerifyFailed);
        }
        return Ok(());
    }
    if op == 0x91 {
        push_item(stack, bool_to_bytes(!is_true(b.as_slice())));
        return Ok(());
    }
    let a: Vec<u8> = pop_item(stack)?;
    assert(s.take(s.len() - 1).drop_last() =~= s.take(s.len() - 2));
    if op == 0x87 {
        push_item(stack, bool_to_bytes(same_bytes(a.as_slice(), b.as_slice())));
    } else if op == 0x88 {
        if !same_bytes(a.as_slice(), b.as_slice()) {
            return Err(ScriptError::VerifyFailed);
        }
    } else {
        let left: bool = is_true(a.as_slice());
        let right: bool = is_true(b.as_slice());
        push_item(stack, bool_to_bytes(if op == 0x9a {
            left && right
        } else {
            left || right
        }));
    }
    Ok(())
}

// ---- digests ----

/// The opcodes that replace the top item by a digest of it.
pub open spec fn is_hash_op(op: u8) -> bool {
    0xa6 <= op <= 0xaa
}

/// The digest that an opcode of this kind takes.
pub open spec fn op_digest(op: u8, data: Seq<u8>) -> Seq<u8> {
    if op == 0xa6 {
        ripemd160_of(data)
    } else if op == 0xa7 {
        sha1_of(data)
    } else if op == 0xa8 {
        sha256_of(data)
    } else if op == 0xa9 {
        hash160_of(data)
    } else {
        sha256d_of(data)
    }
}

/// `OP_RIPEMD160`, `OP_SHA1`, `OP_SHA256`, `OP_HASH160` and `OP_HASH256`.
pub open spec fn hash_op(op: u8, s: Seq<Seq<u8>>) -> Ran {
    if s.len() == 0 {
        failed(s, ScriptError::EmptyStack)
    } else {
        done(s.drop_last().push(op_digest(op, s.last())))
    }
}

fn exec_hash_op(stack: &mut Vec<Vec<u8>>, op: u8) -> (r: Result<(), ScriptError>)
    requires
        is_hash_op(op),
    ensures
        (views(final(stack)@), r) == hash_op(op, views(old(stack)@)),
{
    let item: Vec<u8> = pop_item(stack)?;
    let data: &[u8] = item.as_slice();
    let digest: Vec<u8> = if op == 0xa6 {
        copy_all(ripemd160(data).as_slice())
    } else if op == 0xa7 {
        copy_all(sha1(data).as_slice())
    } else if op == 0xa8 {
        copy_all(sha256(data).as_slice())
    } else if op == 0xa9 {
        copy_all(hash160(data).as_slice())
    } else {
        copy_all(sha256d(data).as_slice())
    };
    push_item(stack, digest);
    Ok(())
}

// ---- arithmetic ----

/// Pushing an arithmetic result; one that needs more bytes than an operand may have is refused.
pub open spec fn push_result(s: Seq<Seq<u8>>, value: Option<int>) -> Ran {
    match value {
        Some(v) => if number_item(v).len() > MAX_ARITH_NUM_LEN {
            failed(s, ScriptError::InvalidScriptNumber)
        } else {
            done(s.push(number_item(v)))
        },
        None => failed(s, ScriptError::InvalidScriptNumber),
    }
}

/// Pushes an arithmetic result, refusing one that an operand could not hold.
pub fn push_arith_result(stack: &mut Vec<Vec<u8>>, value: Option<i64>) -> (r: Result<
    (),
    ScriptError,
>)
    ensures
        (views(final(stack)@), r) == push_result(
            views(old(stack)@),
            match value {
                Some(v) => Some(v as int),
                None => None,
            },
        ),
{
    match value {
        Some(v) => {
            let bytes: Vec<u8> = int_to_bytes(v);
            if bytes.len() > MAX_ARITH_NUM_LEN {
                return Err(ScriptError::InvalidScriptNumber);
            }
            push_item(stack, bytes);
            Ok(())
        },
        None => Err(ScriptError::InvalidScriptNumber),
    }
}

/// The opcodes on one number.
pub open spec fn is_unary_op(op: u8) -> bool {
    op == 0x8b || op == 0x8c || op == 0x8f || op == 0x90 || op == 0x92
}

/// `OP_1ADD`, `OP_1SUB`, `OP_NEGATE`, `OP_ABS` and `OP_0NOTEQUAL`.
pub open spec fn unary_op(op: u8, s: Seq<Seq<u8>>) -> Ran {
    let (t, popped) = pop_number_of(s);
    match popped {
        Err(e) => failed(t, e),
        Ok(a) => if op == 0x8b {
            push_result(t, Some(a + 1))
        } else if op == 0x8c {
            push_result(t, Some(a - 1))
        } else if op == 0x8f {
            push_result(t, Some(-a))
        } else if op == 0x90 {
            push_result(t, Some(abs(a) as int))
        } else {
            done(t.push(bool_item(a != 0)))
        },
    }
}

/// Four bytes hold no number of more than 31 bits.
proof fn lemma_operand_range(b: Seq<u8>)
    requires
        b.len() <= MAX_ARITH_NUM_LEN,
    ensures
        -0x8000_0000 < crate::script::number::number_of(b) < 0x8000_0000,
{
    if b.len() > 0 {
        crate::bytes::lemma_le_value_bound(b.drop_last());
        crate::bytes::lemma_pow256_values();
        let p = crate::bytes::pow256((b.len() - 1) as nat);
        assert((b.last() % 128) as nat * p <= 127 * p) by (nonlinear_arith)
            requires
                (b.last() % 128) as nat <= 127,
        ;
    }
}

fn pop_operand(stack: &mut Vec<Vec<u8>>) -> (r: Result<i64, ScriptError>)
    ensures
        views(final(stack)@) == pop_number_of(views(old(stack)@)).0,
        match pop_number_of(views(old(stack)@)).1 {
            Ok(n) => r matches Ok(v) && v == n && -0x8000_0000 < v < 0x8000_0000,
            Err(e) => r == Err::<i64, ScriptError>(e),
        },
{
    proof {
        let s = views(stack@);
        if s.len() > 0 && s.last().len() <= MAX_ARITH_NUM_LEN {
            lemma_operand_range(s.last());
        }
    }
    pop_number(stack)
}

fn exec_unary_op(stack: &mut Vec<Vec<u8>>, op: u8) -> (r: Result<(), ScriptError>)
    requires
        is_unary_op(op),
    ensures
        (views(final(stack)@), r) == unary_op(op, views(old(stack)@)),
{
    let a: i64 = pop_operand(stack)?;
    if op == 0x92 {
        push_item(stack, bool_to_bytes(a != 0));
        return Ok(());
    }
    let value: i64 = if op == 0x8b {
        a + 1
    } else if op == 0x8c {
        a - 1
    } else if op == 0x8f {
        -a
    } else if a < 0 {
        -a
    } else {
        a
    };
    push_arith_result(stack, Some(value))
}

/// Division that rounds toward zero.
pub open spec fn truncated_div(a: int, b: int) -> int {
    if (a < 0) == (b < 0) {
        (abs(a) / abs(b)) as int
    } else {
        -((abs(a) / abs(b)) as int)
    }
}

/// The remainder of `truncated_div`, with the sign of `a`.
pub open spec fn truncated_rem(a: int, b: int) -> int {
    if a < 0 {
        -((abs(a) % abs(b)) as int)
    } else {
        (abs(a) % abs(b)) as int
    }
}

/// The opcodes on two numbers.
pub open spec fn is_binary_op(op: u8) -> bool {
    0x93 <= op <= 0x97 || 0x9c <= op <= 0xa4
}

/// What the opcodes on two numbers leave, `b` having been on top.
pub open spec fn binary_result(op: u8, t: Seq<Seq<u8>>, a: int, b: int) -> Ran {
    if op == 0x93 {
        push_result(t, Some(a + b))
    } else if op == 0x94 {
        push_result(t, Some(a - b))
    } else if op == 0x95 {
        push_result(t, Some(a * b))
    } else if op == 0x96 {
        push_result(t, if b == 0 {
            None
        } else {
            Some(truncated_div(a, b))
        })
    } else if op == 0x97 {
        push_result(t, if b == 0 {
            None
        } else {
            Some(truncated_rem(a, b))
        })
    } else if op == 0x9c {
        done(t.push(bool_item(a == b)))
    } else if op == 0x9d {
        if a == b {
            done(t)
        } else {
            failed(t, ScriptError::VerifyFailed)
        }
    } else if op == 0x9e {
        done(t.push(bool_item(a != b)))
    } else if op == 0x9f {
        done(t.push(bool_item(a < b)))
    } else if op == 0xa0 {
        done(t.push(bool_item(a > b)))
    } else if op == 0xa1 {
        done(t.push(bool_item(a <= b)))
    } else if op == 0xa2 {
        done(t.push(bool_item(a >= b)))
    } else if op == 0xa3 {
        done(t.push(number_item(if a < b {
            a
        } else {
            b
        })))
    } else {
        done(t.push(number_item(if a > b {
            a
        } else {
            b
        })))
    }
}

/// `OP_ADD`, `OP_SUB`, `OP_MUL`, `OP_DIV`, `OP_MOD` and the numeric comparisons, minimum and
/// maximum.
pub open spec fn binary_op(op: u8, s: Seq<Seq<u8>>) -> Ran {
    let (t, top) = pop_number_of(s);
    match top {
        Err(e) => failed(t, e),
        Ok(b) => {
            let (u, below) = pop_number_of(t);
            match below {
                Err(e) => failed(u, e),
                Ok(a) => binary_result(op, u, a, b),
            }
        },
    }
}

/// Magnitude of a small number.
fn magnitude_of(a: i64) -> (r: u64)
    requires
        -0x8000_0000 < a < 0x8000_0000,
    ensures
        r == abs(a as int),
        r < 0x8000_0000,
{
    if a < 0 {
        (-a) as u64
    } else {
        a as u64
    }
}

fn exec_quotient(op: u8, a: i64, b: i64) -> (r: Option<i64>)
    requires
        op == 0x96 || op == 0x97,
        -0x8000_0000 < a < 0x8000_0000,
        -0x8000_0000 < b < 0x8000_0000,
    ensures
        b == 0 ==> r is None,
        b != 0 ==> (r matches Some(v) && v == if op == 0x96 {
            truncated_div(a as int, b as int)
        } else {
            truncated_rem(a as int, b as int)
        }),
{
    if b == 0 {
        return None;
    }
    let x: u64 = magnitude_of(a);
    let y: u64 = magnitude_of(b);
    assert(x / y <= x) by (nonlinear_arith)
        requires
            y > 0,
    ;
    let q: i64 = (x / y) as i64;
    let m: i64 = (x % y) as i64;
    if op == 0x96 {
        if (a < 0) == (b < 0) {
            Some(q)
        } else {
            Some(-q)
        }
    } else if a < 0 {
        Some(-m)
    } else {
        Some(m)
    }
}

fn exec_binary_op(stack: &mut Vec<Vec<u8>>, op: u8) -> (r: Result<(), ScriptError>)
    requires
        is_binary_op(op),
    ensures
        (views(final(stack)@), r) == binary_op(op, views(old(stack)@)),
{
    let b: i64 = pop_operand(stack)?;
    let a: i64 = pop_operand(stack)?;
    assert(-0x4000_0000_0000_0000 < a * b < 0x4000_0000_0000_0000) by (nonlinear_arith)
        requires
            -0x8000_0000 < a < 0x8000_0000,
            -0x8000_0000 < b < 0x8000_0000,
    ;
    if op == 0x93 {
        push_arith_result(stack, Some(a + b))
    } else if op == 0x94 {
        push_arith_result(stack, Some(a - b))
    } else if op == 0x95 {
        push_arith_result(stack, Some(a * b))
    } else if op == 0x96 || op == 0x97 {
        push_arith_result(stack, exec_quotient(op, a, b))
    } else if op == 0x9d {
        if a != b {
            return Err(ScriptError::VerifyFailed);
        }
        Ok(())
    } else if op == 0xa3 || op == 0xa4 {
        let least: bool = op == 0xa3;
        push_item(stack, int_to_bytes(if least == (a < b) {
            a
        } else {
            b
        }));
        Ok(())
    } else {
        let holds: bool = if op == 0x9c {
            a == b
        } else if op == 0x9e {
            a != b
        } else if op == 0x9f {
            a < b
        } else if op == 0xa0 {
            a > b
        } else if op == 0xa1 {
            a <= b
        } else {
            a >= b
        };
        push_item(stack, bool_to_bytes(holds));
        Ok(())
    }
}

/// `OP_WITHIN`: whether the third item lies in the half-open range of the two above it.
pub open spec fn within_op(s: Seq<Seq<u8>>) -> Ran {
    let (t, top) = pop_number_of(s);
    match top {
        Err(e) => failed(t, e),
        Ok(max) => {
            let (u, second) = pop_number_of(t);
            match second {
                Err(e) => failed(u, e),
                Ok(min) => {
                    let (v, third) = pop_number_of(u);
                    match third {
                        Err(e) => failed(v, e),
                        Ok(x) => done(v.push(bool_item(min <= x < max))),
                    }
                },
            }
        },
    }
}

fn exec_within(stack: &mut Vec<Vec<u8>>) -> (r: Result<(), ScriptError>)
    ensures
        (views(final(stack)@), r) == within_op(views(old(stack)@)),
{
    let max: i64 = pop_number(stack)?;
    let min: i64 = pop_number(stack)?;
    let x: i64 = pop_number(stack)?;
    push_item(stack, bool_to_bytes(min <= x && x < max));
    Ok(())
}

// ---- signatures ----

/// What `OP_CHECKSIG` decides: a DER signature followed by the byte of the hash type.
pub open spec fn signature_check(tx_hash: Seq<u8>, sig: Seq<u8>, key: Seq<u8>) -> Result<
    (),
    ScriptError,
> {
    if sig.len() == 0 || sig.last() != 0x01 {
        Err(ScriptError::InvalidSignature)
    } else {
        match ecdsa_check(tx_hash, sig.drop_last(), key) {
            Ok(()) => Ok(()),
            Err(SignatureFault::Encoding) => Err(ScriptError::InvalidSignature),
            Err(SignatureFault::PublicKey) => Err(ScriptError::InvalidPublicKey),
            Err(SignatureFault::Mismatch) => Err(ScriptError::SignatureVerification),
        }
    }
}

/// Checks a signature with its hash-type byte against a public key.
pub fn check_sig(tx_hash: &[u8; 32], sig: &[u8], key: &[u8]) -> (r: Result<(), ScriptError>)
    ensures
        r == signature_check(tx_hash@, sig@, key@),
{
    if sig.len() == 0 {
        return Err(ScriptError::InvalidSignature);
    }
    let end: usize = sig.len() - 1;
    if sig[end] != 0x01 {
        return Err(ScriptError::InvalidSignature);
    }
    let der: &[u8] = vstd::slice::slice_subrange(sig, 0, end);
    assert(der@ =~= sig@.drop_last());
    match verify_ecdsa(tx_hash, der, key) {
        Ok(()) => Ok(()),
        Err(SignatureFault::Encoding) => Err(ScriptError::InvalidSignature),
        Err(SignatureFault::PublicKey) => Err(ScriptError::InvalidPublicKey),
        Err(SignatureFault::Mismatch) => Err(ScriptError::SignatureVerification),
    }
}

/// `OP_CHECKSIG` and `OP_CHECKSIGVERIFY`.
pub open spec fn signature_op(op: u8, s: Seq<Seq<u8>>, tx_hash: Seq<u8>) -> Ran {
    let n = s.len();
    if n < 1 {
        failed(s, ScriptError::EmptyStack)
    } else if n < 2 {
        failed(s.drop_last(), ScriptError::EmptyStack)
    } else {
        let t = s.take(n - 2);
        let verdict = signature_check(tx_hash, s[n - 2], s[n - 1]);
        if op == 0xac {
            done(t.push(bool_item(verdict is Ok)))
        } else {
            (t, verdict)
        }
    }
}

fn exec_signature_op(stack: &mut Vec<Vec<u8>>, op: u8, tx_hash: &[u8; 32]) -> (r: Result<
    (),
    ScriptError,
>)
    requires
        op == 0xac || op == 0xad,
    ensures
        (views(final(stack)@), r) == signature_op(op, views(old(stack)@), tx_hash@),
{
    let ghost s = views(stack@);
    let key: Vec<u8> = pop_item(stack)?;
    let sig: Vec<u8> = pop_item(stack)?;
    assert(s.drop_last().drop_last() =~= s.take(s.len() - 2));
    let verdict: Result<(), ScriptError> = check_sig(tx_hash, sig.as_slice(), key.as_slice());
    if op == 0xac {
        push_item(stack, bool_to_bytes(verdict.is_ok()));
        Ok(())
    } else {
        verdict
    }
}

/// How many of the signatures from `i` on find a key from `j` on, each key serving once and in
/// order.
pub open spec fn matched(
    tx_hash: Seq<u8>,
    sigs: Seq<Seq<u8>>,
    keys: Seq<Seq<u8>>,
    i: int,
    j: int,
) -> nat
    decreases keys.len() - j,
{
    if i >= sigs.len() || j < 0 || j >= keys.len() {
        0
    } else if signature_check(tx_hash, sigs[i], keys[j]) is Ok {
        1 + matched(tx_hash, sigs, keys, i + 1, j + 1)
    } else {
        matched(tx_hash, sigs, keys, i, j + 1)
    }
}

/// The `k` items from the top of the stack, the top one first.
pub open spec fn top_items(s: Seq<Seq<u8>>, k: int) -> Seq<Seq<u8>> {
    Seq::new(k as nat, |i: int| s[s.len() - 1 - i])
}

/// Taking a count and then that many items off the stack.
pub open spec fn pop_counted(s: Seq<Seq<u8>>) -> (
    Seq<Seq<u8>>,
    Result<Seq<Seq<u8>>, ScriptError>,
) {
    let (t, popped) = pop_number_of(s);
    match popped {
        Err(e) => (t, Err(e)),
        Ok(k) => if k < 0 || k > t.len() {
            (t, Err(ScriptError::InvalidScriptNumber))
        } else {
            (t.take(t.len() - k), Ok(top_items(t, k)))
        },
    }
}

/// `OP_CHECKMULTISIG` and `OP_CHECKMULTISIGVERIFY`: keys, then signatures, then one item that is
/// dropped.
pub open spec fn multisig_op(op: u8, s: Seq<Seq<u8>>, tx_hash: Seq<u8>) -> Ran {
    let (t, popped_keys) = pop_counted(s);
    match popped_keys {
        Err(e) => failed(t, e),
        Ok(keys) => {
            let (u, popped_sigs) = pop_counted(t);
            match popped_sigs {
                Err(e) => failed(u, e),
                Ok(sigs) => {
                    let rest = if u.len() == 0 {
                        u
                    } else {
                        u.drop_last()
                    };
                    let success = matched(tx_hash, sigs, keys, 0, 0) >= sigs.len();
                    if sigs.len() > keys.len() {
                        failed(
                            rest,
                            ScriptError::MultisigKeyCount(
                                sigs.len() as usize,
                                keys.len() as usize,
                            ),
                        )
                    } else if op == 0xaf && !success {
                        failed(rest, ScriptError::SignatureVerification)
                    } else {
                        done(rest.push(bool_item(success)))
                    }
                },
            }
        },
    }
}

fn exec_pop_counted(stack: &mut Vec<Vec<u8>>) -> (r: Result<Vec<Vec<u8>>, ScriptError>)
    ensures
        views(final(stack)@) == pop_counted(views(old(stack)@)).0,
        match pop_counted(views(old(stack)@)).1 {
            Ok(items) => r matches Ok(v) && views(v@) == items,
            Err(e) => r == Err::<Vec<Vec<u8>>, ScriptError>(e),
        },
{
    let k: i64 = pop_number(stack)?;
    let ghost t = views(stack@);
    if k < 0 || k as u64 > stack.len() as u64 {
        return Err(ScriptError::InvalidScriptNumber);
    }
    let count: usize = k as usize;
    let mut items: Vec<Vec<u8>> = Vec::new();
    let mut i: usize = 0;
    assert(t.take(t.len() as int) =~= t);
    while i < count
        invariant
            i <= count <= t.len(),
            views(stack@) == t.take(t.len() - i),
            views(items@) == top_items(t, i as int),
        decreases count - i,
    {
        let item: Vec<u8> = pop_item(stack)?;
        assert(item@ == t[t.len() - 1 - i]);
        push_item(&mut items, item);
        i = i + 1;
        assert(t.take(t.len() - i + 1).drop_last() =~= t.take(t.len() - i));
        assert(views(items@) =~= top_items(t, i as int));
    }
    Ok(items)
}

/// Runs a multisignature check: `OP_CHECKMULTISIG`, or with `verify` its verifying form.
pub fn exec_checkmultisig(stack: &mut Vec<Vec<u8>>, tx_hash: &[u8; 32], verify: bool) -> (r: Result<
    (),
    ScriptError,
>)
    ensures
        (views(final(stack)@), r) == multisig_op(
            if verify {
                0xaf
            } else {
                0xae
            },
            views(old(stack)@),
            tx_hash@,
        ),
{
    let keys: Vec<Vec<u8>> = exec_pop_counted(stack)?;
    let sigs: Vec<Vec<u8>> = exec_pop_counted(stack)?;
    let ghost u = views(stack@);
    if stack.len() > 0 {
        pop_item(stack)?;
    }
    assert(views(keys@).len() == keys@.len());
    assert(views(sigs@).len() == sigs@.len());
    if sigs.len() > keys.len() {
        return Err(ScriptError::MultisigKeyCount(sigs.len(), keys.len()));
    }
    let mut i: usize = 0;
    let mut j: usize = 0;
    while i < sigs.len() && j < keys.len()
        invariant
            i <= sigs@.len(),
            i <= j <= keys@.len(),
            matched(tx_hash@, views(sigs@), views(keys@), 0, 0) == i + matched(
                tx_hash@,
                views(sigs@),
                views(keys@),
                i as int,
                j as int,
            ),
        decreases keys@.len() - j,
    {
        if check_sig(tx_hash, sigs[i].as_slice(), keys[j].as_slice()).is_ok() {
            i = i + 1;
        }
        j = j + 1;
    }
    let success: bool = i >= sigs.len();
    if verify && !success {
        return Err(ScriptError::SignatureVerification);
    }
    push_item(stack, bool_to_bytes(success));
    Ok(())
}

// ---- lock times ----

/// Whether the environment says nothing of the chain.
pub open spec fn without_chain(env: ScriptEnv) -> bool {
    env.block_height == 0 && env.block_time == 0
}

/// What an absolute lock time asks of a transaction and of the chain. An environment without
/// chain state is only held to the transaction's own lock time.
pub open spec fn locktime_check(lock: int, env: ScriptEnv) -> Result<(), ScriptError> {
    let by_time = lock >= LOCKTIME_THRESHOLD;
    if lock < 0 {
        Err(ScriptError::NegativeLocktime)
    } else if lock > 0x7fff_ffff || env.input_sequence == SEQUENCE_FINAL || by_time != (
    env.tx_lock_time >= LOCKTIME_THRESHOLD) {
        Err(ScriptError::UnsatisfiedLocktime)
    } else if env.tx_lock_time < lock {
        Err(ScriptError::HtlcLocktimeNotExpired)
    } else if !without_chain(env) && lock > (if by_time {
        env.block_time
    } else {
        env.block_height
    }) {
        Err(ScriptError::HtlcLocktimeNotExpired)
    } else {
        Ok(())
    }
}

/// Bit 31 of a relative lock time switches it off.
pub open spec fn sequence_disabled(seq: int) -> bool {
    seq / 0x8000_0000 % 2 == 1
}

/// Bit 22 of a sequence number says that it counts time, in units of 512 seconds.
pub open spec fn sequence_by_time(seq: int) -> bool {
    seq / 0x0040_0000 % 2 == 1
}

pub open spec fn saturating_diff(a: u32, b: u32) -> int {
    if a < b {
        0
    } else {
        a - b
    }
}

/// What a relative lock time asks of an input and of the spent output's age. An environment
/// without chain state is only held to the input's own sequence number.
pub open spec fn sequence_check(seq: int, env: ScriptEnv) -> Result<(), ScriptError> {
    let units = seq % 0x1_0000;
    if seq < 0 {
        Err(ScriptError::NegativeSequence)
    } else if seq > 0xffff_ffff {
        Err(ScriptError::UnsatisfiedSequence)
    } else if sequence_disabled(seq) {
        Ok(())
    } else if env.input_sequence == SEQUENCE_FINAL || sequence_by_time(seq) != sequence_by_time(
        env.input_sequence as int,
    ) || env.input_sequence as int % 0x1_0000 < units {
        Err(ScriptError::UnsatisfiedSequence)
    } else if without_chain(env) {
        Ok(())
    } else if sequence_by_time(seq) && saturating_diff(env.block_time, env.utxo_timestamp) < units
        * 512 {
        Err(ScriptError::UnsatisfiedSequence)
    } else if !sequence_by_time(seq) && saturating_diff(env.block_height, env.utxo_height) < units {
        Err(ScriptError::UnsatisfiedSequence)
    } else {
        Ok(())
    }
}

/// `OP_CHECKLOCKTIMEVERIFY` and `OP_CHECKSEQUENCEVERIFY`: the stack stays as it is.
pub open spec fn lock_op(op: u8, s: Seq<Seq<u8>>, env: ScriptEnv) -> Ran {
    if s.len() == 0 {
        failed(s, ScriptError::EmptyStack)
    } else {
        match script_number(s.last(), MAX_LOCK_NUM_LEN as nat) {
            Err(e) => failed(s, e),
            Ok(lock) => (
                s,
                if op == 0xb1 {
                    locktime_check(lock, env)
                } else {
                    sequence_check(lock, env)
                },
            ),
        }
    }
}

fn exec_locktime_check(lock: i64, env: &ScriptEnv) -> (r: Result<(), ScriptError>)
    ensures
        r == locktime_check(lock as int, *env),
{
    if lock < 0 {
        return Err(ScriptError::NegativeLocktime);
    }
    if lock > 0x7fff_ffff {
        return Err(ScriptError::UnsatisfiedLocktime);
    }
    let lock: u32 = lock as u32;
    let by_time: bool = lock >= LOCKTIME_THRESHOLD;
    if env.input_sequence == SEQUENCE_FINAL || by_time != (env.tx_lock_time >= LOCKTIME_THRESHOLD) {
        return Err(ScriptError::UnsatisfiedLocktime);
    }
    if env.tx_lock_time < lock {
        return Err(ScriptError::HtlcLocktimeNotExpired);
    }
    let chain: u32 = if by_time {
        env.block_time
    } else {
        env.block_height
    };
    if (env.block_height != 0 || env.block_time != 0) && chain < lock {
        return Err(ScriptError::HtlcLocktimeNotExpired);
    }
    Ok(())
}

fn exec_sequence_check(lock: i64, env: &ScriptEnv) -> (r: Result<(), ScriptError>)
    ensures
        r == sequence_check(lock as int, *env),
{
    if lock < 0 {
        return Err(ScriptError::NegativeSequence);
    }
    if lock > 0xffff_ffff {
        return Err(ScriptError::UnsatisfiedSequence);
    }
    let seq: u32 = lock as u32;
    if seq / 0x8000_0000 % 2 == 1 {
        return Ok(());
    }
    let by_time: bool = seq / 0x0040_0000 % 2 == 1;
    let units: u32 = seq % 0x1_0000;
    if env.input_sequence == SEQUENCE_FINAL || by_time != (env.input_sequence / 0x0040_0000 % 2
        == 1) || env.input_sequence % 0x1_0000 < units {
        return Err(ScriptError::UnsatisfiedSequence);
    }
    if env.block_height == 0 && env.block_time == 0 {
        return Ok(());
    }
    let aged: bool = if by_time {
        env.block_time.saturating_sub(env.utxo_timestamp) >= units * 512
    } else {
        env.block_height.saturating_sub(env.utxo_height) >= units
    };
    if !aged {
        return Err(ScriptError::UnsatisfiedSequence);
    }
    Ok(())
}

fn exec_lock_op(stack: &Vec<Vec<u8>>, op: u8, env: &ScriptEnv) -> (r: Result<(), ScriptError>)
    requires
        op == 0xb1 || op == 0xb2,
    ensures
        (views(stack@), r) == lock_op(op, views(stack@), *env),
{
    if stack.len() == 0 {
        return Err(ScriptError::EmptyStack);
    }
    assert(views(stack@).last() == stack@[stack@.len() - 1]@);
    let lock: i64 = decode_script_num(stack[stack.len() - 1].as_slice(), MAX_LOCK_NUM_LEN)?;
    if op == 0xb1 {
        exec_locktime_check(lock, env)
    } else {
        exec_sequence_check(lock, env)
    }
}

// ---- the machine ----

/// The two stacks of an engine.
#[verifier::ext_equal]
pub struct Stacks {
    /// The main stack, its top at the end.
    pub main: Seq<Seq<u8>>,
    /// The stack for items put aside.
    pub alt: Seq<Seq<u8>>,
}

/// What an opcode other than flow control does to the main stack.
pub open spec fn main_op(op: u8, s: Seq<Seq<u8>>, env: ScriptEnv) -> Ran {
    if is_copy_op(op) {
        copy_op(op, s)
    } else if is_move_op(op) {
        move_op(op, s)
    } else if op == 0x7a || op == 0x78 {
        indexed_op(op, s)
    } else if is_truth_op(op) {
        truth_op(op, s)
    } else if is_hash_op(op) {
        hash_op(op, s)
    } else if is_unary_op(op) {
        unary_op(op, s)
    } else if is_binary_op(op) {
        binary_op(op, s)
    } else if op == 0xa5 {
        within_op(s)
    } else if op == 0xac || op == 0xad {
        signature_op(op, s, env.tx_hash@)
    } else if op == 0xae || op == 0xaf {
        multisig_op(op, s, env.tx_hash@)
    } else if op == 0xb1 || op == 0xb2 {
        lock_op(op, s, env)
    } else if op == 0x00 {
        done(s.push(Seq::empty()))
    } else if 0x51 <= op <= 0x60 {
        done(s.push(seq![(op - 0x50) as u8]))
    } else if op == 0x4f {
        done(s.push(seq![0x81u8]))
    } else {
        failed(s, ScriptError::InvalidOpcode(op))
    }
}

/// What an opcode other than flow control does to both stacks.
pub open spec fn apply_op(op: u8, st: Stacks, env: ScriptEnv) -> (Stacks, Result<(), ScriptError>) {
    if op == 0x6b {
        if st.main.len() == 0 {
            (st, Err(ScriptError::EmptyStack))
        } else {
            (
                Stacks { main: st.main.drop_last(), alt: st.alt.push(st.main.last()) },
                Ok(()),
            )
        }
    } else if op == 0x6c {
        if st.alt.len() == 0 {
            (st, Err(ScriptError::EmptyStack))
        } else {
            (
                Stacks { main: st.main.push(st.alt.last()), alt: st.alt.drop_last() },
                Ok(()),
            )
        }
    } else {
        let (main, r) = main_op(op, st.main, env);
        (Stacks { main, alt: st.alt }, r)
    }
}

/// A running script: its stacks, whether the current branch is executed, and for each open
/// conditional whether the code around it was.
pub struct Machine {
    pub stacks: Stacks,
    pub executing: bool,
    pub conds: Seq<bool>,
}

/// What one element does.
pub open spec fn step(m: Machine, item: Item, env: ScriptEnv) -> (
    Machine,
    Result<(), ScriptError>,
) {
    match item {
        Item::Push(data) => if !m.executing {
            (m, Ok(()))
        } else if m.stacks.main.len() >= MAX_STACK_DEPTH {
            (m, Err(ScriptError::StackOverflow))
        } else {
            (
                Machine {
                    stacks: Stacks { main: m.stacks.main.push(data), alt: m.stacks.alt },
                    ..m
                },
                Ok(()),
            )
        },
        Item::Op(op) => if op == 0x63 || op == 0x64 {
            let s = m.stacks.main;
            if !m.executing {
                (Machine { conds: m.conds.push(false), ..m }, Ok(()))
            } else if s.len() == 0 {
                (m, Err(ScriptError::EmptyStack))
            } else {
                (
                    Machine {
                        stacks: Stacks { main: s.drop_last(), alt: m.stacks.alt },
                        executing: truthy(s.last()) == (op == 0x63),
                        conds: m.conds.push(true),
                    },
                    Ok(()),
                )
            }
        } else if op == 0x67 {
            let around = m.conds.len() == 0 || m.conds.last();
            (Machine { executing: around && !m.executing, ..m }, Ok(()))
        } else if op == 0x68 {
            if m.conds.len() == 0 {
                (Machine { executing: true, ..m }, Ok(()))
            } else {
                (Machine { executing: m.conds.last(), conds: m.conds.drop_last(), ..m }, Ok(()))
            }
        } else if op == 0x61 || op == 0xab {
            (m, Ok(()))
        } else if op == 0x6a {
            (m, Err(ScriptError::OpReturnUnspendable))
        } else if !m.executing {
            (m, Ok(()))
        } else {
            let (stacks, r) = apply_op(op, m.stacks, env);
            (Machine { stacks, ..m }, r)
        },
    }
}

/// Running the elements from `p` on, `steps` of them having been executed before.
pub open spec fn run_from(m: Machine, b: Seq<u8>, p: int, steps: nat, env: ScriptEnv) -> (
    Stacks,
    Result<(), ScriptError>,
)
    decreases b.len() - p,
{
    match item_at(b, p) {
        Some((item, next)) if p < next => if steps >= MAX_SCRIPT_EXEC_STEPS {
            (m.stacks, Err(ScriptError::StackOverflow))
        } else {
            let (m2, r) = step(m, item, env);
            match r {
                Ok(()) => run_from(m2, b, next, steps + 1, env),
                Err(e) => (m2.stacks, Err(e)),
            }
        },
        _ => if m.conds.len() > 0 {
            (m.stacks, Err(ScriptError::UnbalancedConditional))
        } else {
            (m.stacks, Ok(()))
        },
    }
}

/// Running a whole script; one with a truncated push is not started.
pub open spec fn run_script(st: Stacks, b: Seq<u8>, env: ScriptEnv) -> (
    Stacks,
    Result<(), ScriptError>,
) {
    if complete_from(b, 0) {
        run_from(Machine { stacks: st, executing: true, conds: Seq::empty() }, b, 0, 0, env)
    } else {
        (st, Err(ScriptError::TruncatedPush))
    }
}

/// Whether the script has the pay-to-script-hash form.
pub open spec fn p2sh_form(b: Seq<u8>) -> bool {
    b.len() == 23 && b[0] == 0xa9 && b[1] == 0x14 && b[22] == 0x87
}

/// Whether the top item is there and true.
pub open spec fn top_check(s: Seq<Seq<u8>>) -> Result<(), ScriptError> {
    if s.len() == 0 {
        Err(ScriptError::EmptyStack)
    } else if !truthy(s.last()) {
        Err(ScriptError::VerifyFailed)
    } else {
        Ok(())
    }
}

/// Running a redeem script: the item on top of `after_sig`.
pub open spec fn redeem(after_sig: Seq<Seq<u8>>, alt: Seq<Seq<u8>>, env: ScriptEnv) -> (
    Stacks,
    Result<(), ScriptError>,
) {
    if after_sig.len() == 0 {
        (Stacks { main: after_sig, alt }, Err(ScriptError::EmptyStack))
    } else {
        let rest = Stacks { main: after_sig.drop_last(), alt };
        let script = after_sig.last();
        if script.len() > crate::script::program::MAX_SCRIPT_SIZE {
            (rest, Err(ScriptError::ScriptTooLarge(script.len() as usize)))
        } else {
            let (st, r) = run_script(rest, script, env);
            match r {
                Ok(()) => (st, top_check(st.main)),
                Err(e) => (st, Err(e)),
            }
        }
    }
}

/// Spending an output: the input's script runs on empty stacks, then the output's script on what
/// that left; the top item must be true, and so must the redeem script's result where the output
/// pays to a script hash.
pub open spec fn spend(sig: Seq<u8>, pubkey: Seq<u8>, env: ScriptEnv) -> (
    Stacks,
    Result<(), ScriptError>,
) {
    let (st1, r1) = run_script(
        Stacks { main: Seq::empty(), alt: Seq::empty() },
        sig,
        env,
    );
    match r1 {
        Err(e) => (st1, Err(e)),
        Ok(()) => {
            let (st2, r2) = run_script(st1, pubkey, env);
            match r2 {
                Err(e) => (st2, Err(e)),
                Ok(()) => match top_check(st2.main) {
                    Err(e) => (st2, Err(e)),
                    Ok(()) => if p2sh_form(pubkey) {
                        redeem(st1.main, st2.alt, env)
                    } else {
                        (st2, Ok(()))
                    },
                },
            }
        },
    }
}

/// Whether the script has the pay-to-script-hash form.
pub fn is_p2sh(script: &Script) -> (r: bool)
    ensures
        r == p2sh_form(script@),
{
    let b: &[u8] = script.as_bytes();
    b.len() == 23 && b[0] == 0xa9 && b[1] == 0x14 && b[22] == 0x87
}

/// The script execution engine.
pub struct Engine {
    /// The main stack, its top at the end.
    pub stack: Vec<Vec<u8>>,
    /// The stack for items put aside.
    pub alt_stack: Vec<Vec<u8>>,
    /// The transaction and chain state.
    pub env: ScriptEnv,
}

impl View for Engine {
    type V = Stacks;

    open spec fn view(&self) -> Stacks {
        Stacks { main: views(self.stack@), alt: views(self.alt_stack@) }
    }
}

impl Engine {
    /// An engine with empty stacks.
    pub fn new(env: ScriptEnv) -> (e: Self)
        ensures
            e@ == (Stacks { main: Seq::empty(), alt: Seq::empty() }),
            e.env == env,
    {
        Engine { stack: Vec::new(), alt_stack: Vec::new(), env }
    }

    fn exec_main_op(&mut self, op: u8) -> (r: Result<(), ScriptError>)
        requires
            op != 0x6b,
            op != 0x6c,
        ensures
            final(self).env == old(self).env,
            final(self).alt_stack == old(self).alt_stack,
            (views(final(self).stack@), r) == main_op(op, views(old(self).stack@), old(self).env),
    {
        if op == 0x6e || op == 0x6f || op == 0x70 || op == 0x73 || op == 0x74 || op == 0x76 || op
            == 0x79 || op == 0x82 {
            exec_copy_op(&mut self.stack, op)
        } else if op == 0x6d || op == 0x71 || op == 0x72 || op == 0x75 || op == 0x77 || op == 0x7b
            || op == 0x7c || op == 0x7d {
            exec_move_op(&mut self.stack, op)
        } else if op == 0x7a || op == 0x78 {
            exec_indexed_op(&mut self.stack, op)
        } else if op == 0x69 || op == 0x87 || op == 0x88 || op == 0x91 || op == 0x9a || op == 0x9b {
            exec_truth_op(&mut self.stack, op)
        } else if 0xa6 <= op && op <= 0xaa {
            exec_hash_op(&mut self.stack, op)
        } else if op == 0x8b || op == 0x8c || op == 0x8f || op == 0x90 || op == 0x92 {
            exec_unary_op(&mut self.stack, op)
        } else if (0x93 <= op && op <= 0x97) || (0x9c <= op && op <= 0xa4) {
            exec_binary_op(&mut self.stack, op)
        } else if op == 0xa5 {
            exec_within(&mut self.stack)
        } else if op == 0xac || op == 0xad {
            exec_signature_op(&mut self.stack, op, &self.env.tx_hash)
        } else if op == 0xae || op == 0xaf {
            exec_checkmultisig(&mut self.stack, &self.env.tx_hash, op == 0xaf)
        } else if op == 0xb1 || op == 0xb2 {
            exec_lock_op(&self.stack, op, &self.env)
        } else {
            let mut item: Vec<u8> = Vec::new();
            if 0x51 <= op && op <= 0x60 {
                item.push(op - 0x50);
            } else if op == 0x4f {
                item.push(0x81);
            } else if op != 0x00 {
                return Err(ScriptError::InvalidOpcode(op));
            }
            proof {
                if 0x51 <= op && op <= 0x60 {
                    assert(item@ =~= seq![(op - 0x50) as u8]);
                } else if op == 0x4f {
                    assert(item@ =~= seq![0x81u8]);
                } else {
                    assert(item@ =~= Seq::<u8>::empty());
                }
            }
            push_item(&mut self.stack, item);
            Ok(())
        }
    }

    fn exec_op(&mut self, op: u8) -> (r: Result<(), ScriptError>)
        ensures
            final(self).env == old(self).env,
            (final(self)@, r) == apply_op(op, old(self)@, old(self).env),
    {
        if op == 0x6b {
            let item: Vec<u8> = pop_item(&mut self.stack)?;
            push_item(&mut self.alt_stack, item);
            Ok(())
        } else if op == 0x6c {
            let item: Vec<u8> = pop_item(&mut self.alt_stack)?;
            push_item(&mut self.stack, item);
            Ok(())
        } else {
            self.exec_main_op(op)
        }
    }

    /// Executes one element; `executing` and `conds` are the state of the open conditionals.
    fn exec_item(&mut self, item: ScriptItem<'_>, executing: &mut bool, conds: &mut Vec<bool>) -> (r:
        Result<(), ScriptError>)
        ensures
            final(self).env == old(self).env,
            (
                Machine {
                    stacks: final(self)@,
                    executing: *final(executing),
                    conds: final(conds)@,
                },
                r,
            ) == step(
                Machine { stacks: old(self)@, executing: *old(executing), conds: old(conds)@ },
                item@,
                old(self).env,
            ),
    {
        match item {
            ScriptItem::PushData(data) => {
                if *executing {
                    assert(self@.main.len() == self.stack@.len());
                    if self.stack.len() >= MAX_STACK_DEPTH {
                        return Err(ScriptError::StackOverflow);
                    }
                    push_item(&mut self.stack, copy_all(data));
                }
                Ok(())
            },
            ScriptItem::Opcode(op) => {
                if op == 0x63 || op == 0x64 {
                    if *executing {
                        let top: Vec<u8> = pop_item(&mut self.stack)?;
                        conds.push(true);
                        *executing = is_true(top.as_slice()) == (op == 0x63);
                    } else {
                        conds.push(false);
                    }
                    Ok(())
                } else if op == 0x67 {
                    let around: bool = if conds.len() == 0 {
                        true
                    } else {
                        conds[conds.len() - 1]
                    };
                    *executing = around && !*executing;
                    Ok(())
                } else if op == 0x68 {
                    *executing = match conds.pop() {
                        Some(around) => around,
                        None => true,
                    };
                    Ok(())
                } else if op == 0x61 || op == 0xab {
                    Ok(())
                } else if op == 0x6a {
                    Err(ScriptError::OpReturnUnspendable)
                } else if *executing {
                    self.exec_op(op)
                } else {
                    Ok(())
                }
            },
        }
    }

    /// Runs one script on the stacks as they are.
    pub fn run(&mut self, script: &Script) -> (r: Result<(), ScriptError>)
        ensures
            final(self).env == old(self).env,
            (final(self)@, r) == run_script(old(self)@, script@, old(self).env),
    {
        script.validate()?;
        let ghost b = script@;
        let ghost env = self.env;
        let ghost target = run_script(self@, b, env);
        let mut executing: bool = true;
        let mut conds: Vec<bool> = Vec::new();
        let mut steps: usize = 0;
        let mut it: ScriptIter<'_> = script.iter();
        assert(conds@ =~= Seq::<bool>::empty());
        loop
            invariant
                it.data@ == b,
                self.env == env,
                env == old(self).env,
                target == run_script(old(self)@, script@, env),
                steps <= MAX_SCRIPT_EXEC_STEPS,
                target == run_from(
                    Machine { stacks: self@, executing, conds: conds@ },
                    b,
                    it.pos as int,
                    steps as nat,
                    env,
                ),
            ensures
                self.env == env,
                target == run_from(
                    Machine { stacks: self@, executing, conds: conds@ },
                    b,
                    it.pos as int,
                    steps as nat,
                    env,
                ),
                item_at(b, it.pos as int) is None,
            decreases b.len() - it.pos,
        {
            let before: usize = it.pos;
            match it.next() {
                None => {
                    it.pos = before;
                    break;
                },
                Some(item) => {
                    if steps >= MAX_SCRIPT_EXEC_STEPS {
                        return Err(ScriptError::StackOverflow);
                    }
                    steps = steps + 1;
                    self.exec_item(item, &mut executing, &mut conds)?;
                },
            }
        }
        if conds.len() > 0 {
            return Err(ScriptError::UnbalancedConditional);
        }
        Ok(())
    }

    /// Whether the top item is there and true.
    fn check_top(&self) -> (r: Result<(), ScriptError>)
        ensures
            r == top_check(self@.main),
    {
        if self.stack.len() == 0 {
            return Err(ScriptError::EmptyStack);
        }
        assert(self@.main.last() == self.stack@[self.stack@.len() - 1]@);
        if !is_true(self.stack[self.stack.len() - 1].as_slice()) {
            return Err(ScriptError::VerifyFailed);
        }
        Ok(())
    }

    /// Runs an input's script and then the output's script that it spends.
    pub fn execute(&mut self, script_sig: &Script, script_pubkey: &Script) -> (r: Result<
        (),
        ScriptError,
    >)
        ensures
            final(self).env == old(self).env,
            (final(self)@, r) == spend(script_sig@, script_pubkey@, old(self).env),
    {
        self.stack.clear();
        self.alt_stack.clear();
        assert(self@ =~= (Stacks { main: Seq::empty(), alt: Seq::empty() }));
        self.run(script_sig)?;
        let ghost st1 = self@;
        let after_sig: Vec<Vec<u8>> = copy_stack(&self.stack);
        self.run(script_pubkey)?;
        self.check_top()?;
        if is_p2sh(script_pubkey) {
            self.stack = after_sig;
            assert(self@.main == st1.main);
            let redeem_bytes: Vec<u8> = pop_item(&mut self.stack)?;
            let redeem_script: Script = Script::from_bytes(redeem_bytes)?;
            self.run(&redeem_script)?;
            self.check_top()?;
        }
        Ok(())
    }
}

fn copy_stack(stack: &Vec<Vec<u8>>) -> (r: Vec<Vec<u8>>)
    ensures
        views(r@) == views(stack@),
{
    let mut r: Vec<Vec<u8>> = Vec::new();
    let mut i: usize = 0;
    while i < stack.len()
        invariant
            i <= stack@.len(),
            views(r@) == views(stack@).take(i as int),
        decreases stack@.len() - i,
    {
        push_item(&mut r, copy_all(stack[i].as_slice()));
        i = i + 1;
        assert(views(stack@).take(i as int) =~= views(stack@).take(i - 1).push(
            views(stack@)[i - 1],
        ));
    }
    assert(views(stack@).take(i as int) =~= views(stack@));
    r
}

} // verus!
