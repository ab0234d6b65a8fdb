//! What holds of running scripts: of the items that opcodes take and leave, of numbers, of
//! signatures, of conditionals and of lock times.
use crate::bytes::le_value;
use crate::bytes::lemma_le_value_push;
use crate::bytes::pow256;
use crate::crypto::ecdsa_check;
use crate::crypto::ripemd160_of;
use crate::crypto::sha1_of;
use crate::crypto::sha256_of;
use crate::script::engine::apply_op;
use crate::script::engine::main_op;
use crate::script::engine::matched;
use crate::script::engine::run_from;
use crate::script::engine::run_script;
use crate::script::engine::signature_check;
use crate::script::engine::step;
use crate::script::engine::top_items;
use crate::script::engine::Machine;
use crate::script::engine::ScriptEnv;
use crate::script::engine::Stacks;
use crate::script::error::ScriptError;
use crate::script::number::abs;
use crate::script::number::bool_item;
use crate::script::number::counts_as_true;
use crate::script::number::law_number_roundtrip;
use crate::script::number::magnitude;
use crate::script::number::minimal_digits;
use crate::script::number::number_item;
use crate::script::number::number_of;
use crate::script::number::script_number;
use crate::script::number::truthy;
use crate::script::program::item_at;
use crate::script::program::items_from;
use crate::script::program::Item;
use vstd::prelude::*;

verus! {

// ---- lock times ----

/// A relative lock by height: the input must not be final and must itself wait as long in blocks,
/// and unless nothing is known of the chain, as many blocks must lie between the spent output and
/// now.
pub proof fn law_relative_lock_by_height(s: Seq<Seq<u8>>, env: ScriptEnv, n: int)
    requires
        s.len() > 0,
        script_number(s.last(), 5) == Ok::<int, ScriptError>(n),
        0 <= n <= 0xffff,
    ensures
        main_op(0xb2, s, env).0 == s,
        main_op(0xb2, s, env).1 is Ok <==> {
            &&& env.input_sequence < 0xffff_ffff
            &&& (env.input_sequence as int / 4_194_304) % 2 == 0
            &&& env.input_sequence as int % 65_536 >= n
            &&& env.block_height == 0 && env.block_time == 0 || n == 0 || env.block_height
                >= env.utxo_height + n
        },
        main_op(0xb2, s, env).1 is Err ==> main_op(0xb2, s, env).1 == Err::<(), ScriptError>(
            ScriptError::UnsatisfiedSequence,
        ),
{
}

/// A relative lock by time, in units of 512 seconds: the input must not be final and must itself
/// wait as long by time, and unless nothing is known of the chain, as much time must lie between
/// the spent output and now.
pub proof fn law_relative_lock_by_time(s: Seq<Seq<u8>>, env: ScriptEnv, n: int)
    requires
        s.len() > 0,
        script_number(s.last(), 5) == Ok::<int, ScriptError>(4_194_304 + n),
        0 <= n <= 0xffff,
    ensures
        main_op(0xb2, s, env).0 == s,
        main_op(0xb2, s, env).1 is Ok <==> {
            &&& env.input_sequence < 0xffff_ffff
            &&& (env.input_sequence as int / 4_194_304) % 2 == 1
            &&& env.input_sequence as int % 65_536 >= n
            &&& env.block_height == 0 && env.block_time == 0 || n == 0 || env.block_time
                >= env.utxo_timestamp + 512 * n
        },
        main_op(0xb2, s, env).1 is Err ==> main_op(0xb2, s, env).1 == Err::<(), ScriptError>(
            ScriptError::UnsatisfiedSequence,
        ),
{
    assert((4_194_304 + n) % 0x1_0000 == n);
    assert((4_194_304 + n) / 0x8000_0000 == 0);
    assert((4_194_304 + n) / 0x0040_0000 == 1);
}

/// A relative lock asks for an age alone: where the output and the chain are both as many blocks
/// higher and as many seconds later, the verdict is the same.
pub proof fn law_relative_locks_ask_for_age(
    s: Seq<Seq<u8>>,
    env: ScriptEnv,
    later: ScriptEnv,
    blocks: u32,
    seconds: u32,
)
    requires
        env.block_height > 0,
        later.input_sequence == env.input_sequence,
        later.block_height == env.block_height + blocks,
        later.utxo_height == env.utxo_height + blocks,
        later.block_time == env.block_time + seconds,
        later.utxo_timestamp == env.utxo_timestamp + seconds,
    ensures
        main_op(0xb2, s, env) == main_op(0xb2, s, later),
{
}

/// A relative lock that has its highest bit set asks for nothing; a negative one, or one of more
/// than 32 bits, is never satisfied.
pub proof fn law_relative_lock_out_of_use(s: Seq<Seq<u8>>, env: ScriptEnv, n: int)
    requires
        s.len() > 0,
        script_number(s.last(), 5) == Ok::<int, ScriptError>(n),
    ensures
        0x8000_0000 <= n <= 0xffff_ffff ==> main_op(0xb2, s, env) == (s, Ok::<(), ScriptError>(())),
        n < 0 ==> main_op(0xb2, s, env) == (
            s,
            Err::<(), ScriptError>(ScriptError::NegativeSequence),
        ),
        n > 0xffff_ffff ==> main_op(0xb2, s, env) == (
            s,
            Err::<(), ScriptError>(ScriptError::UnsatisfiedSequence),
        ),
{
    if 0x8000_0000 <= n <= 0xffff_ffff {
        assert(n / 0x8000_0000 == 1);
    }
}

/// An absolute lock: a number below five hundred million is a height, any other a time. The
/// transaction must be locked in the same way and as long, its input must not be final, and unless
/// nothing is known of the chain, the chain must have come as far.
pub proof fn law_absolute_lock(s: Seq<Seq<u8>>, env: ScriptEnv, n: int)
    requires
        s.len() > 0,
        script_number(s.last(), 5) == Ok::<int, ScriptError>(n),
    ensures
        main_op(0xb1, s, env).0 == s,
        main_op(0xb1, s, env).1 is Ok <==> {
            &&& 0 <= n < 0x8000_0000
            &&& env.input_sequence < 0xffff_ffff
            &&& n <= env.tx_lock_time
            &&& n < 500_000_000 <==> env.tx_lock_time < 500_000_000
            &&& env.block_height == 0 && env.block_time == 0 || (n < 500_000_000 && n
                <= env.block_height) || (n >= 500_000_000 && n <= env.block_time)
        },
        n < 0 ==> main_op(0xb1, s, env).1 == Err::<(), ScriptError>(ScriptError::NegativeLocktime),
{
}

/// The number that a lock is read from has at most five bytes.
pub proof fn law_lock_numbers_have_five_bytes(s: Seq<Seq<u8>>, env: ScriptEnv)
    requires
        s.len() > 0,
        s.last().len() > 5,
    ensures
        main_op(0xb1, s, env).1 == Err::<(), ScriptError>(ScriptError::InvalidScriptNumber),
        main_op(0xb2, s, env).1 == Err::<(), ScriptError>(ScriptError::InvalidScriptNumber),
{
}

// ---- items ----

/// Whether an opcode takes `taken` items off the stack and leaves those that `given` names by
/// their depth, the lowest first: the top item has depth zero.
pub open spec fn has_effect(
    op: u8,
    s: Seq<Seq<u8>>,
    env: ScriptEnv,
    taken: int,
    given: Seq<int>,
) -> bool {
    let (r, v) = main_op(op, s, env);
    let n = s.len();
    if n < taken {
        v == Err::<(), ScriptError>(ScriptError::EmptyStack)
    } else {
        &&& v is Ok
        &&& r.len() == n - taken + given.len()
        &&& forall|i: int| 0 <= i < n - taken ==> #[trigger] r[i] == s[i]
        &&& forall|k: int| 0 <= k < given.len() ==> r[n - taken + k] == s[n - 1 - #[trigger] given[k]]
    }
}

/// What the opcodes that copy, move and drop items do.
pub proof fn law_stack_effects(s: Seq<Seq<u8>>, env: ScriptEnv)
    ensures
        has_effect(0x75, s, env, 1, Seq::empty()),
        has_effect(0x6d, s, env, 2, Seq::empty()),
        has_effect(0x76, s, env, 1, seq![0int, 0]),
        has_effect(0x6e, s, env, 2, seq![1int, 0, 1, 0]),
        has_effect(0x6f, s, env, 3, seq![2int, 1, 0, 2, 1, 0]),
        has_effect(0x79, s, env, 2, seq![1int, 0, 1]),
        has_effect(0x70, s, env, 4, seq![3int, 2, 1, 0, 3, 2]),
        has_effect(0x71, s, env, 6, seq![3int, 2, 1, 0, 5, 4]),
        has_effect(0x72, s, env, 4, seq![1int, 0, 3, 2]),
        has_effect(0x77, s, env, 2, seq![0int]),
        has_effect(0x7b, s, env, 3, seq![1int, 0, 2]),
        has_effect(0x7c, s, env, 2, seq![0int, 1]),
        has_effect(0x7d, s, env, 2, seq![0int, 1, 0]),
{
}

/// An item is copied or left alone by its truth, and its length and the depth of the stack are
/// pushed as numbers.
pub proof fn law_measures(s: Seq<Seq<u8>>, env: ScriptEnv)
    requires
        s.len() > 0,
    ensures
        main_op(0x73, s, env) == (
            if truthy(s.last()) {
                s.push(s.last())
            } else {
                s
            },
            Ok::<(), ScriptError>(()),
        ),
        main_op(0x74, s, env).1 is Ok,
        main_op(0x74, s, env).0.drop_last() == s,
        number_of(main_op(0x74, s, env).0.last()) == s.len(),
        main_op(0x82, s, env).1 is Ok,
        main_op(0x82, s, env).0.drop_last() == s,
        number_of(main_op(0x82, s, env).0.last()) == s.last().len(),
{
    law_number_roundtrip(s.len() as int, number_item(s.len() as int).len());
    law_number_roundtrip(s.last().len() as int, number_item(s.last().len() as int).len());
    assert(main_op(0x74, s, env).0.drop_last() =~= s);
    assert(main_op(0x82, s, env).0.drop_last() =~= s);
}

/// The number on top says how deep an item lies below it: one opcode copies that item to the top,
/// the other moves it there.
pub proof fn law_items_by_depth(s: Seq<Seq<u8>>, env: ScriptEnv, k: int)
    requires
        s.len() > 0,
        script_number(s.last(), 4) == Ok::<int, ScriptError>(k),
    ensures
        0 <= k < s.len() - 1 ==> {
            let n = s.len() - 1;
            let copied = main_op(0x78, s, env);
            let moved = main_op(0x7a, s, env);
            &&& copied.1 is Ok && moved.1 is Ok
            &&& copied.0 == s.drop_last().push(s[n - 1 - k])
            &&& moved.0.len() == n
            &&& moved.0.last() == s[n - 1 - k]
            &&& forall|i: int| 0 <= i < n - 1 - k ==> #[trigger] moved.0[i] == s[i]
            &&& forall|i: int| n - 1 - k <= i < n - 1 ==> #[trigger] moved.0[i] == s[i + 1]
        },
        k < 0 || k >= s.len() - 1 ==> main_op(0x78, s, env).1 == Err::<(), ScriptError>(
            ScriptError::InvalidScriptNumber,
        ) && main_op(0x7a, s, env).1 == Err::<(), ScriptError>(ScriptError::InvalidScriptNumber),
{
}

/// What is put aside comes back: the last item that was put aside is the first to return.
pub proof fn law_items_put_aside_come_back(st: Stacks, env: ScriptEnv)
    ensures
        st.main.len() > 0 ==> {
            let (aside, r) = apply_op(0x6b, st, env);
            &&& r is Ok
            &&& aside.main == st.main.drop_last()
            &&& aside.alt.last() == st.main.last()
            &&& apply_op(0x6c, aside, env) == (st, Ok::<(), ScriptError>(()))
        },
        st.main.len() == 0 ==> apply_op(0x6b, st, env).1 is Err,
        st.alt.len() == 0 ==> apply_op(0x6c, st, env).1 is Err,
{
    if st.main.len() > 0 {
        let (aside, r) = apply_op(0x6b, st, env);
        assert(apply_op(0x6c, aside, env).0.main =~= st.main);
        assert(apply_op(0x6c, aside, env).0.alt =~= st.alt);
    }
}

/// The digests that opcodes take.
pub proof fn law_digest_opcodes(s: Seq<Seq<u8>>, env: ScriptEnv)
    requires
        s.len() > 0,
    ensures
        ({
            let x = s.last();
            let t = s.drop_last();
            &&& main_op(0xa6, s, env) == (t.push(ripemd160_of(x)), Ok::<(), ScriptError>(()))
            &&& main_op(0xa7, s, env) == (t.push(sha1_of(x)), Ok::<(), ScriptError>(()))
            &&& main_op(0xa8, s, env) == (t.push(sha256_of(x)), Ok::<(), ScriptError>(()))
            &&& main_op(0xa9, s, env) == (
                t.push(ripemd160_of(sha256_of(x))),
                Ok::<(), ScriptError>(()),
            )
            &&& main_op(0xaa, s, env) == (
                t.push(sha256_of(sha256_of(x))),
                Ok::<(), ScriptError>(()),
            )
        }),
{
}

/// The opcodes that push a constant push the number that they are named after.
pub proof fn law_constants(s: Seq<Seq<u8>>, env: ScriptEnv, n: int)
    requires
        1 <= n <= 16,
    ensures
        ({
            let r = main_op((0x50 + n) as u8, s, env);
            r.1 is Ok && r.0.drop_last() == s && number_of(r.0.last()) == n
        }),
        main_op(0x4f, s, env).1 is Ok,
        main_op(0x4f, s, env).0.drop_last() == s,
        number_of(main_op(0x4f, s, env).0.last()) == -1,
        main_op(0x00, s, env).1 is Ok,
        number_of(main_op(0x00, s, env).0.last()) == 0,
{
    let r = main_op((0x50 + n) as u8, s, env);
    assert(r.0.drop_last() =~= s);
    assert(main_op(0x4f, s, env).0.drop_last() =~= s);
    lemma_one_byte(n as u8);
    lemma_one_byte(0x81);
}

proof fn lemma_one_byte(b: u8)
    ensures
        number_of(seq![b]) == if b < 128 {
            b as int
        } else {
            128 - b
        },
{
    let s = seq![b];
    assert(s.drop_last() =~= Seq::<u8>::empty());
    assert(pow256(0) == 1);
    assert((b % 128) as nat * 1 == b % 128);
}

// ---- truth ----

/// An item that holds anything but zero, in either sign, is true, and no other is.
pub proof fn law_truth_is_not_zero(b: Seq<u8>)
    ensures
        truthy(b) <==> number_of(b) != 0,
{
    if b.len() > 0 {
        let head = b.drop_last();
        lemma_zero_bytes(head);
        let p = pow256((b.len() - 1) as nat);
        lemma_pow256_positive((b.len() - 1) as nat);
        assert((b.last() % 128) as nat * p == 0 <==> b.last() % 128 == 0) by (nonlinear_arith)
            requires
                p > 0,
        ;
        if truthy(b) {
            let i = choose|i: int| 0 <= i < b.len() && #[trigger] counts_as_true(b, i);
            if i < b.len() - 1 {
                assert(head[i] != 0);
            }
        } else {
            assert(!counts_as_true(b, b.len() - 1));
            assert forall|i: int| 0 <= i < head.len() implies #[trigger] head[i] == 0 by {
                assert(!counts_as_true(b, i));
            }
        }
    }
}

proof fn lemma_pow256_positive(n: nat)
    ensures
        pow256(n) > 0,
    decreases n,
{
    if n > 0 {
        lemma_pow256_positive((n - 1) as nat);
    }
}

proof fn lemma_zero_bytes(s: Seq<u8>)
    ensures
        le_value(s) == 0 <==> forall|i: int| 0 <= i < s.len() ==> #[trigger] s[i] == 0,
    decreases s.len(),
{
    if s.len() > 0 {
        lemma_zero_bytes(s.skip(1));
        assert forall|i: int| 0 <= i < s.len() - 1 implies #[trigger] s.skip(1)[i] == s[i + 1] by {}
        if le_value(s) == 0 {
            assert forall|i: int| 0 <= i < s.len() implies #[trigger] s[i] == 0 by {
                if i > 0 {
                    assert(s.skip(1)[i - 1] == 0);
                }
            }
        }
    }
}

/// The number in an item: its bytes, the least significant first, make it, but for the highest
/// bit, which makes it negative.
pub proof fn law_number_in_bytes(b: Seq<u8>)
    requires
        b.len() > 0,
    ensures
        b.last() < 128 ==> number_of(b) == le_value(b),
        b.last() >= 128 ==> number_of(b) == 128 * pow256((b.len() - 1) as nat) - le_value(b),
{
    assert(b =~= b.drop_last().push(b.last()));
    lemma_le_value_push(b.drop_last(), b.last());
    let p = pow256((b.len() - 1) as nat);
    let l = b.last();
    assert(magnitude(b) == le_value(b.drop_last()) + (l % 128) as nat * p);
    if l >= 128 {
        assert((l % 128) as nat * p == l as nat * p - 128 * p) by (nonlinear_arith)
            requires
                l % 128 == l - 128,
        ;
    }
}

/// Whether an opcode takes `taken` items and leaves this truth value in their place.
pub open spec fn leaves_truth(
    op: u8,
    s: Seq<Seq<u8>>,
    env: ScriptEnv,
    taken: int,
    v: bool,
) -> bool {
    let (r, res) = main_op(op, s, env);
    &&& res is Ok
    &&& r.len() == s.len() - taken + 1
    &&& r.drop_last() == s.take(s.len() - taken)
    &&& truthy(r.last()) == v
    &&& number_of(r.last()) == if v {
        1int
    } else {
        0
    }
}

proof fn lemma_truth_items()
    ensures
        truthy(bool_item(true)),
        !truthy(bool_item(false)),
        number_of(bool_item(true)) == 1,
        number_of(bool_item(false)) == 0,
{
    assert(counts_as_true(bool_item(true), 0));
    lemma_one_byte(1);
}

/// Items are compared byte by byte, and truth values are joined and turned round as such.
pub proof fn law_truth_opcodes(s: Seq<Seq<u8>>, env: ScriptEnv)
    requires
        s.len() >= 2,
    ensures
        ({
            let n = s.len();
            let a = s[n - 2];
            let b = s[n - 1];
            &&& leaves_truth(0x87, s, env, 2, a == b)
            &&& leaves_truth(0x91, s, env, 1, !truthy(b))
            &&& leaves_truth(0x9a, s, env, 2, truthy(a) && truthy(b))
            &&& leaves_truth(0x9b, s, env, 2, truthy(a) || truthy(b))
            &&& main_op(0x69, s, env).1 is Ok <==> truthy(b)
            &&& main_op(0x69, s, env).0 == s.drop_last()
            &&& main_op(0x88, s, env).1 is Ok <==> a == b
            &&& main_op(0x88, s, env).0 == s.take(n - 2)
        }),
{
    lemma_truth_items();
    let n = s.len();
    assert(s.take(n - 1) =~= s.drop_last());
    assert(s.take(n - 2).push(bool_item(true)).drop_last() =~= s.take(n - 2));
    assert(s.take(n - 2).push(bool_item(false)).drop_last() =~= s.take(n - 2));
    assert(s.take(n - 1).push(bool_item(true)).drop_last() =~= s.take(n - 1));
    assert(s.take(n - 1).push(bool_item(false)).drop_last() =~= s.take(n - 1));
}

// ---- numbers ----

/// Whether an opcode takes `taken` items and leaves this number in their place, or refuses it
/// where 31 bits and a sign do not hold it.
pub open spec fn leaves_number(
    op: u8,
    s: Seq<Seq<u8>>,
    env: ScriptEnv,
    taken: int,
    v: int,
) -> bool {
    let (r, res) = main_op(op, s, env);
    if -0x8000_0000 < v < 0x8000_0000 {
        &&& res is Ok
        &&& r.len() == s.len() - taken + 1
        &&& r.drop_last() == s.take(s.len() - taken)
        &&& number_of(r.last()) == v
    } else {
        res == Err::<(), ScriptError>(ScriptError::InvalidScriptNumber)
    }
}

/// A number takes at most four bytes exactly where 31 bits and a sign hold it.
pub proof fn law_four_bytes_hold_31_bits(v: int)
    ensures
        number_item(v).len() <= 4 <==> -0x8000_0000 < v < 0x8000_0000,
{
    let m = abs(v);
    reveal_with_fuel(minimal_digits, 6);
    let d = minimal_digits(m);
    if m < 0x100_0000 {
        assert(d.len() <= 3);
    } else if m < 0x1_0000_0000 {
        let d1 = minimal_digits(m / 256);
        let d2 = minimal_digits(m / 256 / 256);
        let d3 = minimal_digits(m / 256 / 256 / 256);
        let d4 = minimal_digits(m / 256 / 256 / 256 / 256);
        assert(m / 256 / 256 / 256 / 256 == 0);
        assert(d4.len() == 0);
        assert(d3.len() == 1);
        assert(d.len() == 4);
        assert(d.last() == d1.last());
        assert(d1.last() == d2.last());
        assert(d2.last() == d3.last());
        assert(d3.last() == ((m / 256 / 256 / 256) % 256) as u8);
        assert(m / 256 / 256 / 256 < 256);
    } else {
        assert(m / 256 / 256 / 256 / 256 > 0);
        assert(minimal_digits(m / 256 / 256 / 256 / 256).len() > 0);
        assert(d.len() >= 5);
    }
}

proof fn lemma_leaves_number(op: u8, s: Seq<Seq<u8>>, env: ScriptEnv, taken: int, v: int)
    requires
        0 <= taken <= s.len(),
        main_op(op, s, env) == crate::script::engine::push_result(
            s.take(s.len() - taken),
            Some(v),
        ),
    ensures
        leaves_number(op, s, env, taken, v),
{
    law_four_bytes_hold_31_bits(v);
    law_number_roundtrip(v, number_item(v).len());
    let t = s.take(s.len() - taken);
    assert(t.push(number_item(v)).drop_last() =~= t);
}

/// The opcodes on two numbers, the second of which is on top, add, subtract, multiply, divide
/// toward zero, compare and choose.
pub proof fn law_arithmetic(s: Seq<Seq<u8>>, env: ScriptEnv, a: int, b: int) -> (qr: (int, int))
    requires
        s.len() >= 2,
        script_number(s[s.len() - 2], 4) == Ok::<int, ScriptError>(a),
        script_number(s[s.len() - 1], 4) == Ok::<int, ScriptError>(b),
    ensures
        leaves_number(0x93, s, env, 2, a + b),
        leaves_number(0x94, s, env, 2, a - b),
        leaves_number(0x95, s, env, 2, a * b),
        b != 0 ==> {
            let (q, r) = qr;
            &&& leaves_number(0x96, s, env, 2, q)
            &&& leaves_number(0x97, s, env, 2, r)
            &&& a == q * b + r
            &&& abs(r) < abs(b)
            &&& a >= 0 ==> r >= 0
            &&& a <= 0 ==> r <= 0
        },
        b == 0 ==> main_op(0x96, s, env).1 is Err && main_op(0x97, s, env).1 is Err,
        leaves_truth(0x9c, s, env, 2, a == b),
        leaves_truth(0x9e, s, env, 2, a != b),
        leaves_truth(0x9f, s, env, 2, a < b),
        leaves_truth(0xa0, s, env, 2, b < a),
        leaves_truth(0xa1, s, env, 2, a <= b),
        leaves_truth(0xa2, s, env, 2, b <= a),
        main_op(0x9d, s, env).1 is Ok <==> a == b,
        main_op(0x9d, s, env).0 == s.take(s.len() - 2),
        a <= b ==> leaves_number(0xa3, s, env, 2, a) && leaves_number(0xa4, s, env, 2, b),
        b <= a ==> leaves_number(0xa3, s, env, 2, b) && leaves_number(0xa4, s, env, 2, a),
{
    let n = s.len();
    let t = s.take(n - 2);
    assert(s.drop_last().drop_last() =~= t);
    assert(s.drop_last().last() == s[n - 2]);
    lemma_leaves_number(0x93, s, env, 2, a + b);
    lemma_leaves_number(0x94, s, env, 2, a - b);
    lemma_leaves_number(0x95, s, env, 2, a * b);
    lemma_truth_items();
    assert(t.push(bool_item(true)).drop_last() =~= t);
    assert(t.push(bool_item(false)).drop_last() =~= t);
    lemma_operand(s[n - 2]);
    lemma_operand(s[n - 1]);
    law_four_bytes_hold_31_bits(a);
    law_four_bytes_hold_31_bits(b);
    law_number_roundtrip(a, number_item(a).len());
    law_number_roundtrip(b, number_item(b).len());
    assert(t.push(number_item(a)).drop_last() =~= t);
    assert(t.push(number_item(b)).drop_last() =~= t);
    if b == 0 {
        (0, 0)
    } else {
        let q = crate::script::engine::truncated_div(a, b);
        let r = crate::script::engine::truncated_rem(a, b);
        lemma_leaves_number(0x96, s, env, 2, q);
        lemma_leaves_number(0x97, s, env, 2, r);
        let x = abs(a) as int;
        let y = abs(b) as int;
        vstd::arithmetic::div_mod::lemma_fundamental_div_mod(x, y);
        vstd::arithmetic::div_mod::lemma_mod_bound(x, y);
        let k = x / y;
        let m = x % y;
        assert(abs(a) / abs(b) == k);
        assert(abs(a) % abs(b) == m);
        assert(x == k * y + m) by (nonlinear_arith)
            requires
                x == y * k + m,
        ;
        assert(k * (-y) == -(k * y)) by (nonlinear_arith);
        assert((-k) * y == -(k * y)) by (nonlinear_arith);
        assert((-k) * (-y) == k * y) by (nonlinear_arith);
        (q, r)
    }
}

proof fn lemma_operand(b: Seq<u8>)
    requires
        b.len() <= 4,
    ensures
        -0x8000_0000 < number_of(b) < 0x8000_0000,
{
    if b.len() > 0 {
        crate::bytes::lemma_le_value_bound(b.drop_last());
        crate::bytes::lemma_pow256_values();
        let p = pow256((b.len() - 1) as nat);
        assert((b.last() % 128) as nat * p <= 127 * p) by (nonlinear_arith)
            requires
                (b.last() % 128) as nat <= 127,
        ;
    }
}

/// The opcodes on one number.
pub proof fn law_arithmetic_on_one(s: Seq<Seq<u8>>, env: ScriptEnv, a: int)
    requires
        s.len() >= 1,
        script_number(s.last(), 4) == Ok::<int, ScriptError>(a),
    ensures
        leaves_number(0x8b, s, env, 1, a + 1),
        leaves_number(0x8c, s, env, 1, a - 1),
        leaves_number(0x8f, s, env, 1, 0 - a),
        a >= 0 ==> leaves_number(0x90, s, env, 1, a),
        a <= 0 ==> leaves_number(0x90, s, env, 1, 0 - a),
        leaves_truth(0x92, s, env, 1, a != 0),
{
    let t = s.take(s.len() - 1);
    assert(s.drop_last() =~= t);
    lemma_leaves_number(0x8b, s, env, 1, a + 1);
    lemma_leaves_number(0x8c, s, env, 1, a - 1);
    lemma_leaves_number(0x8f, s, env, 1, 0 - a);
    if a >= 0 {
        lemma_leaves_number(0x90, s, env, 1, a);
    }
    if a <= 0 {
        lemma_leaves_number(0x90, s, env, 1, 0 - a);
    }
    lemma_truth_items();
    assert(t.push(bool_item(true)).drop_last() =~= t);
    assert(t.push(bool_item(false)).drop_last() =~= t);
}

/// A number lies within a range that begins with the item above it and ends before the item on
/// top.
pub proof fn law_within(s: Seq<Seq<u8>>, env: ScriptEnv, x: int, min: int, max: int)
    requires
        s.len() >= 3,
        script_number(s[s.len() - 3], 4) == Ok::<int, ScriptError>(x),
        script_number(s[s.len() - 2], 4) == Ok::<int, ScriptError>(min),
        script_number(s[s.len() - 1], 4) == Ok::<int, ScriptError>(max),
    ensures
        leaves_truth(0xa5, s, env, 3, min <= x && x < max),
{
    let n = s.len();
    let t = s.take(n - 3);
    assert(s.drop_last().drop_last().drop_last() =~= t);
    assert(s.drop_last().drop_last().last() == s[n - 3]);
    assert(s.drop_last().last() == s[n - 2]);
    lemma_truth_items();
    assert(t.push(bool_item(true)).drop_last() =~= t);
    assert(t.push(bool_item(false)).drop_last() =~= t);
}

/// No item of more than four bytes is a number to calculate with.
pub proof fn law_long_items_are_no_numbers(s: Seq<Seq<u8>>, env: ScriptEnv, op: u8)
    requires
        s.len() > 0,
        s.last().len() > 4,
        op == 0x78 || op == 0x7a || 0x8b <= op <= 0x8c || 0x8f <= op <= 0x90 || 0x92 <= op <= 0x97
            || 0x9c <= op <= 0xa5 || 0xae <= op <= 0xaf,
    ensures
        main_op(op, s, env) == (
            s.drop_last(),
            Err::<(), ScriptError>(ScriptError::InvalidScriptNumber),
        ),
{
}

// ---- signatures ----

/// A signature is accepted exactly where its last byte is one and the bytes before it are a
/// signature of the transaction's digest by the key.
pub proof fn law_signature_opcodes(s: Seq<Seq<u8>>, env: ScriptEnv)
    requires
        s.len() >= 2,
    ensures
        ({
            let n = s.len();
            let sig = s[n - 2];
            let good = sig.len() > 0 && sig.last() == 1 && ecdsa_check(
                env.tx_hash@,
                sig.take(sig.len() - 1),
                s[n - 1],
            ) is Ok;
            &&& leaves_truth(0xac, s, env, 2, good)
            &&& main_op(0xad, s, env).0 == s.take(n - 2)
            &&& main_op(0xad, s, env).1 is Ok <==> good
        }),
{
    lemma_truth_items();
    let n = s.len();
    let t = s.take(n - 2);
    let sig = s[n - 2];
    assert(t.push(bool_item(true)).drop_last() =~= t);
    assert(t.push(bool_item(false)).drop_last() =~= t);
    if sig.len() > 0 {
        assert(sig.drop_last() =~= sig.take(sig.len() - 1));
    }
}

/// Whether `by` names for each signature a key that made it, in the order of the keys.
pub open spec fn signers(
    tx_hash: Seq<u8>,
    sigs: Seq<Seq<u8>>,
    keys: Seq<Seq<u8>>,
    by: Seq<int>,
) -> bool {
    &&& by.len() == sigs.len()
    &&& forall|i: int|
        0 <= i < sigs.len() ==> 0 <= #[trigger] by[i] < keys.len() && signature_check(
            tx_hash,
            sigs[i],
            keys[by[i]],
        ) is Ok
    &&& forall|i: int, j: int| 0 <= i < j < sigs.len() ==> #[trigger] by[i] < #[trigger] by[j]
}

proof fn lemma_all_matched(
    tx_hash: Seq<u8>,
    sigs: Seq<Seq<u8>>,
    keys: Seq<Seq<u8>>,
    by: Seq<int>,
    i: int,
    j: int,
)
    requires
        signers(tx_hash, sigs, keys, by),
        0 <= i <= sigs.len(),
        0 <= j <= keys.len(),
        forall|k: int| i <= k < sigs.len() ==> #[trigger] by[k] >= j,
    ensures
        matched(tx_hash, sigs, keys, i, j) == sigs.len() - i,
    decreases keys.len() - j,
{
    if i < sigs.len() {
        assert(by[i] >= j);
        assert(j < keys.len());
        if signature_check(tx_hash, sigs[i], keys[j]) is Ok {
            assert forall|k: int| i + 1 <= k < sigs.len() implies #[trigger] by[k] >= j + 1 by {
                assert(by[i] < by[k]);
            }
            lemma_all_matched(tx_hash, sigs, keys, by, i + 1, j + 1);
        } else {
            assert forall|k: int| i <= k < sigs.len() implies #[trigger] by[k] >= j + 1 by {
                if k > i {
                    assert(by[i] < by[k]);
                }
            }
            lemma_all_matched(tx_hash, sigs, keys, by, i, j + 1);
        }
    }
}

/// The keys that the signatures from `i` on are matched with, from `j` on.
proof fn lemma_matching(
    tx_hash: Seq<u8>,
    sigs: Seq<Seq<u8>>,
    keys: Seq<Seq<u8>>,
    i: int,
    j: int,
) -> (by: Seq<int>)
    requires
        0 <= i <= sigs.len(),
        0 <= j <= keys.len(),
    ensures
        matched(tx_hash, sigs, keys, i, j) <= sigs.len() - i,
        matched(tx_hash, sigs, keys, i, j) == sigs.len() - i ==> {
            &&& by.len() == sigs.len() - i
            &&& forall|k: int|
                0 <= k < by.len() ==> j <= #[trigger] by[k] < keys.len() && signature_check(
                    tx_hash,
                    sigs[i + k],
                    keys[by[k]],
                ) is Ok
            &&& forall|k: int, l: int| 0 <= k < l < by.len() ==> #[trigger] by[k] < #[trigger] by[l]
        },
    decreases keys.len() - j,
{
    if i >= sigs.len() || j >= keys.len() {
        Seq::empty()
    } else if signature_check(tx_hash, sigs[i], keys[j]) is Ok {
        let rest = lemma_matching(tx_hash, sigs, keys, i + 1, j + 1);
        let by = seq![j] + rest;
        if matched(tx_hash, sigs, keys, i, j) == sigs.len() - i {
            assert forall|k: int| 0 <= k < by.len() implies j <= #[trigger] by[k] < keys.len()
                && signature_check(tx_hash, sigs[i + k], keys[by[k]]) is Ok by {
                if k > 0 {
                    assert(by[k] == rest[k - 1]);
                    assert(sigs[i + k] == sigs[i + 1 + (k - 1)]);
                }
            }
            assert forall|k: int, l: int| 0 <= k < l < by.len() implies #[trigger] by[k]
                < #[trigger] by[l] by {
                assert(by[l] == rest[l - 1]);
                if k > 0 {
                    assert(by[k] == rest[k - 1]);
                }
            }
        }
        by
    } else {
        lemma_matching(tx_hash, sigs, keys, i, j + 1)
    }
}

/// As many signatures are matched as there are exactly where each can be given a key of its own
/// that made it, in the order of the keys.
pub proof fn law_matching_finds_the_signers(
    tx_hash: Seq<u8>,
    sigs: Seq<Seq<u8>>,
    keys: Seq<Seq<u8>>,
)
    ensures
        matched(tx_hash, sigs, keys, 0, 0) == sigs.len() <==> exists|by: Seq<int>|
            signers(tx_hash, sigs, keys, by),
{
    let by = lemma_matching(tx_hash, sigs, keys, 0, 0);
    if matched(tx_hash, sigs, keys, 0, 0) == sigs.len() {
        assert forall|i: int| 0 <= i < sigs.len() implies 0 <= #[trigger] by[i] < keys.len()
            && signature_check(tx_hash, sigs[i], keys[by[i]]) is Ok by {
            assert(sigs[0 + i] == sigs[i]);
        }
        assert(signers(tx_hash, sigs, keys, by));
    }
    if exists|by: Seq<int>| signers(tx_hash, sigs, keys, by) {
        let f = choose|f: Seq<int>| signers(tx_hash, sigs, keys, f);
        lemma_all_matched(tx_hash, sigs, keys, f, 0, 0);
    }
}

proof fn lemma_signers_reversed(
    tx_hash: Seq<u8>,
    sigs: Seq<Seq<u8>>,
    keys: Seq<Seq<u8>>,
    by: Seq<int>,
) -> (r: Seq<int>)
    requires
        signers(tx_hash, sigs, keys, by),
    ensures
        signers(tx_hash, sigs.reverse(), keys.reverse(), r),
{
    let n = sigs.len() as int;
    let r = Seq::new(sigs.len(), |i: int| keys.len() - 1 - by[n - 1 - i]);
    assert forall|i: int| 0 <= i < n implies 0 <= #[trigger] r[i] < keys.len() && signature_check(
        tx_hash,
        sigs.reverse()[i],
        keys.reverse()[r[i]],
    ) is Ok by {
        assert(0 <= by[n - 1 - i] < keys.len());
    }
    assert forall|i: int, j: int| 0 <= i < j < n implies #[trigger] r[i] < #[trigger] r[j] by {
        assert(by[n - 1 - j] < by[n - 1 - i]);
    }
    r
}

/// A multisignature check takes the keys and their number, the signatures and theirs, and one item
/// more. It holds exactly where each signature was made by a key of its own, in the order of the
/// keys; more signatures than keys are refused.
pub proof fn law_multisig(
    below: Seq<Seq<u8>>,
    spare: Seq<u8>,
    sigs: Seq<Seq<u8>>,
    count_sigs: Seq<u8>,
    keys: Seq<Seq<u8>>,
    count_keys: Seq<u8>,
    env: ScriptEnv,
)
    requires
        script_number(count_sigs, 4) == Ok::<int, ScriptError>(sigs.len() as int),
        script_number(count_keys, 4) == Ok::<int, ScriptError>(keys.len() as int),
    ensures
        ({
            let s = below.push(spare) + sigs.push(count_sigs) + keys.push(count_keys);
            let check = main_op(0xae, s, env);
            let verify = main_op(0xaf, s, env);
            let signed = exists|by: Seq<int>| signers(env.tx_hash@, sigs, keys, by);
            if sigs.len() > keys.len() {
                &&& check.1 is Err
                &&& verify.1 is Err
                &&& !signed
            } else {
                &&& check.1 is Ok
                &&& check.0.drop_last() == below
                &&& truthy(check.0.last()) == signed
                &&& verify.1 is Ok <==> signed
                &&& signed ==> verify.0 == check.0
            }
        }),
{
    let s = below.push(spare) + sigs.push(count_sigs) + keys.push(count_keys);
    let t1 = below.push(spare) + sigs.push(count_sigs) + keys;
    let u1 = below.push(spare) + sigs.push(count_sigs);
    let t2 = below.push(spare) + sigs;
    assert(s.last() == count_keys);
    assert(s.drop_last() =~= t1);
    assert(t1.take(t1.len() - keys.len()) =~= u1);
    assert(top_items(t1, keys.len() as int) =~= keys.reverse());
    assert(u1.last() == count_sigs);
    assert(u1.drop_last() =~= t2);
    assert(t2.take(t2.len() - sigs.len()) =~= below.push(spare));
    assert(top_items(t2, sigs.len() as int) =~= sigs.reverse());
    assert(below.push(spare).drop_last() =~= below);
    let h = env.tx_hash@;
    let rs = sigs.reverse();
    let rk = keys.reverse();
    law_matching_finds_the_signers(h, rs, rk);
    let by0 = lemma_matching(h, rs, rk, 0, 0);
    if exists|by: Seq<int>| signers(h, rs, rk, by) {
        let f = choose|f: Seq<int>| signers(h, rs, rk, f);
        let r = lemma_signers_reversed(h, rs, rk, f);
        assert(rs.reverse() =~= sigs);
        assert(rk.reverse() =~= keys);
        assert(signers(h, sigs, keys, r));
    }
    if exists|by: Seq<int>| signers(h, sigs, keys, by) {
        let f = choose|f: Seq<int>| signers(h, sigs, keys, f);
        let r = lemma_signers_reversed(h, sigs, keys, f);
        assert(signers(h, rs, rk, r));
        lemma_enough_keys(h, sigs, keys, f);
    }
    lemma_truth_items();
    assert(below.push(bool_item(true)).drop_last() =~= below);
    assert(below.push(bool_item(false)).drop_last() =~= below);
}

/// A multisignature check needs no item below the signatures: without one it leaves its verdict
/// alone, and that is the verdict which it gives with one.
pub proof fn law_multisig_without_a_spare_item(
    sigs: Seq<Seq<u8>>,
    count_sigs: Seq<u8>,
    keys: Seq<Seq<u8>>,
    count_keys: Seq<u8>,
    spare: Seq<u8>,
    env: ScriptEnv,
)
    requires
        script_number(count_sigs, 4) == Ok::<int, ScriptError>(sigs.len() as int),
        script_number(count_keys, 4) == Ok::<int, ScriptError>(keys.len() as int),
    ensures
        ({
            let s = sigs.push(count_sigs) + keys.push(count_keys);
            let more = Seq::empty().push(spare) + s;
            &&& main_op(0xae, s, env) == main_op(0xae, more, env)
            &&& main_op(0xaf, s, env) == main_op(0xaf, more, env)
        }),
{
    let none = Seq::<Seq<u8>>::empty();
    let s = sigs.push(count_sigs) + keys.push(count_keys);
    let more = none.push(spare) + s;
    let t = sigs.push(count_sigs) + keys;
    let u = none.push(spare) + t;
    assert(s.drop_last() =~= t);
    assert(more.drop_last() =~= u);
    assert(s.last() == count_keys && more.last() == count_keys);
    assert(top_items(t, keys.len() as int) =~= top_items(u, keys.len() as int));
    let v = sigs.push(count_sigs);
    let w = none.push(spare) + v;
    assert(t.take(t.len() - keys.len()) =~= v);
    assert(u.take(u.len() - keys.len()) =~= w);
    assert(v.last() == count_sigs && w.last() == count_sigs);
    assert(v.drop_last() =~= sigs);
    assert(w.drop_last() =~= none.push(spare) + sigs);
    let x = none.push(spare) + sigs;
    assert(top_items(sigs, sigs.len() as int) =~= top_items(x, sigs.len() as int));
    assert(sigs.take(0) =~= none);
    assert(x.take(1) =~= none.push(spare));
    assert(none.push(spare).drop_last() =~= none);
}

/// A multisignature check fails where the number of keys is negative or greater than the number of
/// items below it, and where there is no number.
pub proof fn law_multisig_counts_its_keys(s: Seq<Seq<u8>>, count: Seq<u8>, n: int, env: ScriptEnv)
    requires
        script_number(count, 4) == Ok::<int, ScriptError>(n),
        n < 0 || n > s.len(),
    ensures
        main_op(0xae, s.push(count), env) == (s, Err::<(), ScriptError>(ScriptError::InvalidScriptNumber)),
        main_op(0xaf, s.push(count), env) == (s, Err::<(), ScriptError>(ScriptError::InvalidScriptNumber)),
        main_op(0xae, Seq::empty(), env).1 == Err::<(), ScriptError>(ScriptError::EmptyStack),
        main_op(0xaf, Seq::empty(), env).1 == Err::<(), ScriptError>(ScriptError::EmptyStack),
{
    assert(s.push(count).drop_last() =~= s);
}

proof fn lemma_enough_keys(tx_hash: Seq<u8>, sigs: Seq<Seq<u8>>, keys: Seq<Seq<u8>>, by: Seq<int>)
    requires
        signers(tx_hash, sigs, keys, by),
    ensures
        sigs.len() <= keys.len(),
{
    lemma_apart(by, by.len() as int - 1);
    if by.len() > 0 {
        assert(by[by.len() - 1] < keys.len());
    }
}

proof fn lemma_apart(by: Seq<int>, i: int)
    requires
        i < by.len(),
        forall|k: int| 0 <= k < by.len() ==> 0 <= #[trigger] by[k],
        forall|k: int, l: int| 0 <= k < l < by.len() ==> #[trigger] by[k] < #[trigger] by[l],
    ensures
        i >= 0 ==> by[i] >= i,
    decreases i,
{
    if i > 0 {
        lemma_apart(by, i - 1);
        assert(by[i - 1] < by[i]);
    }
}

// ---- conditionals and limits ----

/// A conditional takes the item on top. What follows runs where the item is true, or false for the
/// opposite opcode; after the switch what follows runs in the other case; and its end leaves all
/// as it was before, but for the item.
pub proof fn law_conditionals(m: Machine, env: ScriptEnv)
    requires
        m.executing,
        m.stacks.main.len() > 0,
    ensures
        ({
            let top = m.stacks.main.last();
            let (yes, r1) = step(m, Item::Op(0x63), env);
            let (no, r2) = step(m, Item::Op(0x64), env);
            let (otherwise, r3) = step(yes, Item::Op(0x67), env);
            let (closed, r4) = step(yes, Item::Op(0x68), env);
            let (closed_otherwise, r5) = step(otherwise, Item::Op(0x68), env);
            &&& r1 is Ok && r2 is Ok && r3 is Ok && r4 is Ok && r5 is Ok
            &&& yes.executing == truthy(top)
            &&& no.executing == !truthy(top)
            &&& otherwise.executing == !truthy(top)
            &&& yes.stacks.main == m.stacks.main.drop_last()
            &&& no.stacks.main == m.stacks.main.drop_last()
            &&& yes.stacks.alt == m.stacks.alt
            &&& otherwise.stacks == yes.stacks
            &&& closed == Machine { stacks: yes.stacks, ..m }
            &&& closed_otherwise == closed
            &&& yes.conds.len() == m.conds.len() + 1
        }),
{
    let (yes, r1) = step(m, Item::Op(0x63), env);
    let (otherwise, r3) = step(yes, Item::Op(0x67), env);
    assert(m.conds.push(true).drop_last() =~= m.conds);
    assert(step(yes, Item::Op(0x68), env).0.conds =~= m.conds);
    assert(step(otherwise, Item::Op(0x68), env).0.conds =~= m.conds);
}

/// Where the code does not run, no element changes the stacks, and a conditional within it does
/// not run in either case and ends where it began.
pub proof fn law_code_that_does_not_run(m: Machine, item: Item, env: ScriptEnv)
    requires
        !m.executing,
    ensures
        step(m, item, env).0.stacks == m.stacks,
        step(m, item, env).1 is Err <==> item == Item::Op(0x6a),
        item == Item::Op(0x63) || item == Item::Op(0x64) ==> {
            let inner = step(m, item, env).0;
            &&& !inner.executing
            &&& !step(inner, Item::Op(0x67), env).0.executing
            &&& step(inner, Item::Op(0x68), env).0 == m
        },
{
    assert(m.conds.push(false).drop_last() =~= m.conds);
    assert(m.conds.push(false).last() == false);
}

/// Data is pushed onto fewer than a thousand items only, and an opcode that marks an output as
/// unspendable ends every script.
pub proof fn law_pushes(m: Machine, data: Seq<u8>, env: ScriptEnv)
    requires
        m.executing,
    ensures
        step(m, Item::Push(data), env).1 is Ok <==> m.stacks.main.len() < 1000,
        m.stacks.main.len() < 1000 ==> step(m, Item::Push(data), env).0.stacks == (Stacks {
            main: m.stacks.main.push(data),
            alt: m.stacks.alt,
        }),
        step(m, Item::Op(0x6a), env).1 == Err::<(), ScriptError>(ScriptError::OpReturnUnspendable),
        step(m, Item::Op(0x61), env) == (m, Ok::<(), ScriptError>(())),
{
}

proof fn lemma_steps(m: Machine, b: Seq<u8>, p: int, steps: nat, env: ScriptEnv)
    requires
        run_from(m, b, p, steps, env).1 is Ok,
    ensures
        items_from(b, p).len() > 0 ==> steps + items_from(b, p).len() <= 200,
    decreases b.len() - p,
{
    match item_at(b, p) {
        Some((item, next)) if p < next => {
            let (m2, r) = step(m, item, env);
            lemma_steps(m2, b, next, steps + 1, env);
        },
        _ => {},
    }
}

/// A script that goes through has at most two hundred elements.
pub proof fn law_two_hundred_elements(st: Stacks, b: Seq<u8>, env: ScriptEnv)
    requires
        run_script(st, b, env).1 is Ok,
    ensures
        items_from(b, 0).len() <= 200,
{
    lemma_steps(Machine { stacks: st, executing: true, conds: Seq::empty() }, b, 0, 0, env);
}

} // verus!
