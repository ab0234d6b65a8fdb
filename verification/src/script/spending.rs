//! What it takes to spend the standard outputs.
use crate::bytes::le_digits;
use crate::bytes::lemma_le_digits_len;
use crate::bytes::lemma_le_roundtrip;
use crate::bytes::lemma_le_value_push;
use crate::bytes::lemma_pow256_values;
use crate::crypto::hash160_of;
use crate::crypto::sha256_of;
use crate::script::engine::locktime_check;
use crate::script::engine::redeem;
use crate::script::engine::run_from;
use crate::script::engine::run_script;
use crate::script::engine::signature_check;
use crate::script::engine::spend;
use crate::script::engine::step;
use crate::script::engine::Machine;
use crate::script::engine::ScriptEnv;
use crate::script::engine::Stacks;
use crate::script::error::ScriptError;
use crate::script::number::bool_item;
use crate::script::number::counts_as_true;
use crate::script::number::number_of;
use crate::script::number::truthy;
use crate::script::program::complete_from;
use crate::script::program::item_at;
use crate::script::program::law_push_reads_back;
use crate::script::program::push_bytes;
use crate::script::program::Item;
use crate::script::program::MAX_PUSH_SIZE;
use crate::script::standard::htlc_claim_branch;
use crate::script::standard::htlc_refund_branch;
use crate::script::standard::htlc_script;
use crate::script::standard::p2pkh_script;
use crate::script::standard::p2sh_script;
use vstd::prelude::*;

verus! {

/// The bytes of these elements, pushes in their shortest form.
pub open spec fn assemble(items: Seq<Item>) -> Seq<u8>
    decreases items.len(),
{
    if items.len() == 0 {
        Seq::empty()
    } else {
        item_bytes(items[0]) + assemble(items.skip(1))
    }
}

/// The bytes of one element.
pub open spec fn item_bytes(item: Item) -> Seq<u8> {
    match item {
        Item::Push(data) => push_bytes(data),
        Item::Op(op) => seq![op],
    }
}

/// Whether the element reads back as itself.
pub open spec fn readable(item: Item) -> bool {
    match item {
        Item::Push(data) => data.len() <= MAX_PUSH_SIZE,
        Item::Op(op) => op > 0x4e,
    }
}

/// Running elements one after the other.
pub open spec fn run_items(m: Machine, items: Seq<Item>, env: ScriptEnv) -> (
    Stacks,
    Result<(), ScriptError>,
)
    decreases items.len(),
{
    if items.len() == 0 {
        if m.conds.len() > 0 {
            (m.stacks, Err(ScriptError::UnbalancedConditional))
        } else {
            (m.stacks, Ok(()))
        }
    } else {
        let (m2, r) = step(m, items[0], env);
        match r {
            Ok(()) => run_items(m2, items.skip(1), env),
            Err(e) => (m2.stacks, Err(e)),
        }
    }
}

proof fn lemma_item_reads_back(before: Seq<u8>, item: Item, after: Seq<u8>)
    requires
        readable(item),
    ensures
        item_at(before + item_bytes(item) + after, before.len() as int) == Some(
            (item, (before.len() + item_bytes(item).len()) as int),
        ),
        item_bytes(item).len() > 0,
{
    match item {
        Item::Push(data) => {
            law_push_reads_back(before, data, after);
        },
        Item::Op(op) => {},
    }
}

/// Running the bytes of a list of elements is running the elements.
pub proof fn law_assembled_script_runs(
    m: Machine,
    before: Seq<u8>,
    items: Seq<Item>,
    steps: nat,
    env: ScriptEnv,
)
    requires
        forall|i: int| 0 <= i < items.len() ==> readable(#[trigger] items[i]),
        steps + items.len() <= crate::script::engine::MAX_SCRIPT_EXEC_STEPS,
    ensures
        complete_from(before + assemble(items), before.len() as int),
        run_from(m, before + assemble(items), before.len() as int, steps, env) == run_items(
            m,
            items,
            env,
        ),
    decreases items.len(),
{
    let b = before + assemble(items);
    if items.len() > 0 {
        let head = items[0];
        let rest = items.skip(1);
        lemma_item_reads_back(before, head, assemble(rest));
        assert(b =~= before + item_bytes(head) + assemble(rest));
        let (m2, r) = step(m, head, env);
        assert forall|i: int| 0 <= i < rest.len() implies readable(#[trigger] rest[i]) by {
            assert(rest[i] == items[i + 1]);
        }
        law_assembled_script_runs(m2, before + item_bytes(head), rest, steps + 1, env);
        assert(b =~= (before + item_bytes(head)) + assemble(rest));
    } else {
        assert(b =~= before);
    }
}

/// One more element at the front.
proof fn lemma_assemble_cons(head: Item, rest: Seq<Item>)
    ensures
        assemble(seq![head] + rest) == item_bytes(head) + assemble(rest),
{
    assert((seq![head] + rest).skip(1) =~= rest);
}

proof fn lemma_run_cons(m: Machine, head: Item, rest: Seq<Item>, env: ScriptEnv)
    ensures
        run_items(m, seq![head] + rest, env) == {
            let (m2, r) = step(m, head, env);
            match r {
                Ok(()) => run_items(m2, rest, env),
                Err(e) => (m2.stacks, Err(e)),
            }
        },
{
    assert((seq![head] + rest).skip(1) =~= rest);
}

proof fn lemma_bool_items()
    ensures
        truthy(bool_item(true)),
        !truthy(bool_item(false)),
{
    assert(counts_as_true(bool_item(true), 0));
}

/// What spending a key-hash output with this signature and key gives.
pub open spec fn key_hash_verdict(
    hash: Seq<u8>,
    sig: Seq<u8>,
    key: Seq<u8>,
    env: ScriptEnv,
) -> Result<(), ScriptError> {
    if hash160_of(key) == hash && signature_check(env.tx_hash@, sig, key) is Ok {
        Ok(())
    } else {
        Err(ScriptError::VerifyFailed)
    }
}

/// The elements after the hash checks of a key-hash output, up to the closing of a conditional.
spec fn key_hash_items(hash: Seq<u8>) -> Seq<Item> {
    seq![
        Item::Op(0x76),
        Item::Op(0xa9),
        Item::Push(hash),
        Item::Op(0x88),
        Item::Op(0xac),
    ]
}

/// Running the key-hash elements on a signature and a key, whatever follows them.
proof fn lemma_key_hash_items(
    m: Machine,
    hash: Seq<u8>,
    sig: Seq<u8>,
    key: Seq<u8>,
    tail: Seq<Item>,
    env: ScriptEnv,
)
    requires
        m.executing,
        m.stacks.main == seq![sig, key],
    ensures
        hash160_of(key) != hash ==> run_items(m, key_hash_items(hash) + tail, env).1 == Err::<
            (),
            ScriptError,
        >(ScriptError::VerifyFailed),
        hash160_of(key) == hash ==> run_items(m, key_hash_items(hash) + tail, env) == run_items(
            Machine {
                stacks: Stacks {
                    main: seq![bool_item(signature_check(env.tx_hash@, sig, key) is Ok)],
                    alt: m.stacks.alt,
                },
                ..m
            },
            tail,
            env,
        ),
{
    let alt = m.stacks.alt;
    let t4 = seq![Item::Op(0xacu8)] + tail;
    let t3 = seq![Item::Op(0x88u8)] + t4;
    let t2 = seq![Item::Push(hash)] + t3;
    let t1 = seq![Item::Op(0xa9u8)] + t2;
    let t0 = seq![Item::Op(0x76u8)] + t1;
    assert(t0 =~= key_hash_items(hash) + tail);
    let digest = hash160_of(key);
    let m1 = Machine { stacks: Stacks { main: seq![sig, key, key], alt }, ..m };
    let m2 = Machine { stacks: Stacks { main: seq![sig, key, digest], alt }, ..m };
    let m3 = Machine { stacks: Stacks { main: seq![sig, key, digest, hash], alt }, ..m };
    let m4 = Machine { stacks: Stacks { main: seq![sig, key], alt }, ..m };
    lemma_run_cons(m, Item::Op(0x76), t1, env);
    assert(m.stacks.main.push(key) =~= m1.stacks.main);
    assert(step(m, Item::Op(0x76), env) == (m1, Ok::<(), ScriptError>(())));
    lemma_run_cons(m1, Item::Op(0xa9), t2, env);
    assert(m1.stacks.main.drop_last().push(digest) =~= m2.stacks.main);
    assert(step(m1, Item::Op(0xa9), env) == (m2, Ok::<(), ScriptError>(())));
    lemma_run_cons(m2, Item::Push(hash), t3, env);
    assert(m2.stacks.main.push(hash) =~= m3.stacks.main);
    assert(step(m2, Item::Push(hash), env) == (m3, Ok::<(), ScriptError>(())));
    lemma_run_cons(m3, Item::Op(0x88), t4, env);
    assert(m3.stacks.main.take(2) =~= m4.stacks.main);
    if digest == hash {
        assert(step(m3, Item::Op(0x88), env) == (m4, Ok::<(), ScriptError>(())));
        lemma_run_cons(m4, Item::Op(0xac), tail, env);
        let verdict = bool_item(signature_check(env.tx_hash@, sig, key) is Ok);
        assert(m4.stacks.main.take(0).push(verdict) =~= seq![verdict]);
    }
}

/// Running an input script that pushes the given items.
proof fn lemma_run_pushes(st: Stacks, items: Seq<Item>, env: ScriptEnv)
    requires
        forall|i: int| 0 <= i < items.len() ==> readable(#[trigger] items[i]),
        items.len() <= crate::script::engine::MAX_SCRIPT_EXEC_STEPS,
    ensures
        run_script(st, assemble(items), env) == run_items(
            Machine { stacks: st, executing: true, conds: Seq::empty() },
            items,
            env,
        ),
{
    let m = Machine { stacks: st, executing: true, conds: Seq::<bool>::empty() };
    law_assembled_script_runs(m, Seq::empty(), items, 0, env);
    assert(Seq::<u8>::empty() + assemble(items) =~= assemble(items));
}

/// An output that pays to a key hash is spent by exactly a key with that hash together with a
/// signature by it.
pub proof fn law_p2pkh_spend(hash: Seq<u8>, sig: Seq<u8>, key: Seq<u8>, env: ScriptEnv)
    requires
        hash.len() == 20,
        sig.len() <= MAX_PUSH_SIZE,
        key.len() <= MAX_PUSH_SIZE,
    ensures
        spend(push_bytes(sig) + push_bytes(key), p2pkh_script(hash), env).1 == key_hash_verdict(
            hash,
            sig,
            key,
            env,
        ),
{
    let none = Seq::<Seq<u8>>::empty();
    let empty = Stacks { main: none, alt: none };
    let m0 = Machine { stacks: empty, executing: true, conds: Seq::<bool>::empty() };
    let nil = Seq::<Item>::empty();
    // The input script.
    let second = seq![Item::Push(key)] + nil;
    let first = seq![Item::Push(sig)] + second;
    lemma_assemble_cons(Item::Push(key), nil);
    lemma_assemble_cons(Item::Push(sig), second);
    assert(assemble(first) =~= push_bytes(sig) + push_bytes(key));
    lemma_run_pushes(empty, first, env);
    let m1 = Machine { stacks: Stacks { main: seq![sig], alt: none }, ..m0 };
    let m2 = Machine { stacks: Stacks { main: seq![sig, key], alt: none }, ..m0 };
    lemma_run_cons(m0, Item::Push(sig), second, env);
    assert(m0.stacks.main.push(sig) =~= m1.stacks.main);
    lemma_run_cons(m1, Item::Push(key), nil, env);
    assert(m1.stacks.main.push(key) =~= m2.stacks.main);
    // The output script.
    let out = key_hash_items(hash) + nil;
    assert(out =~= key_hash_items(hash));
    let t4 = seq![Item::Op(0xacu8)] + nil;
    let t3 = seq![Item::Op(0x88u8)] + t4;
    let t2 = seq![Item::Push(hash)] + t3;
    let t1 = seq![Item::Op(0xa9u8)] + t2;
    lemma_assemble_cons(Item::Op(0xac), nil);
    lemma_assemble_cons(Item::Op(0x88), t4);
    lemma_assemble_cons(Item::Push(hash), t3);
    lemma_assemble_cons(Item::Op(0xa9), t2);
    lemma_assemble_cons(Item::Op(0x76), t1);
    assert(seq![Item::Op(0x76u8)] + t1 =~= out);
    assert(assemble(out) =~= p2pkh_script(hash));
    lemma_run_pushes(m2.stacks, out, env);
    lemma_key_hash_items(m2, hash, sig, key, nil, env);
    lemma_bool_items();
    assert(p2pkh_script(hash)[0] == 0x76);
}

/// Whether the element neither opens, switches nor closes a conditional, nor ends the script.
spec fn inert(item: Item) -> bool {
    match item {
        Item::Push(_) => true,
        Item::Op(op) => op != 0x63 && op != 0x64 && op != 0x67 && op != 0x68 && op != 0x6a,
    }
}

/// A branch that is not executed changes nothing.
proof fn lemma_skip_items(m: Machine, items: Seq<Item>, tail: Seq<Item>, env: ScriptEnv)
    requires
        !m.executing,
        forall|i: int| 0 <= i < items.len() ==> inert(#[trigger] items[i]),
    ensures
        run_items(m, items + tail, env) == run_items(m, tail, env),
    decreases items.len(),
{
    if items.len() == 0 {
        assert(items + tail =~= tail);
    } else {
        let rest = items.skip(1);
        assert(items + tail =~= seq![items[0]] + (rest + tail));
        lemma_run_cons(m, items[0], rest + tail, env);
        assert(inert(items[0]));
        assert forall|i: int| 0 <= i < rest.len() implies inert(#[trigger] rest[i]) by {
            assert(rest[i] == items[i + 1]);
        }
        lemma_skip_items(m, rest, tail, env);
    }
}

spec fn claim_items(payment_hash: Seq<u8>, claim_hash: Seq<u8>) -> Seq<Item> {
    seq![Item::Op(0xa8), Item::Push(payment_hash), Item::Op(0x88)] + key_hash_items(claim_hash)
}

spec fn refund_items(refund_hash: Seq<u8>, expiry: u32) -> Seq<Item> {
    seq![Item::Push(le_digits(expiry as nat, 4)), Item::Op(0xb1), Item::Op(0x75)] + key_hash_items(
        refund_hash,
    )
}

spec fn htlc_items(
    payment_hash: Seq<u8>,
    claim_hash: Seq<u8>,
    refund_hash: Seq<u8>,
    expiry: u32,
) -> Seq<Item> {
    seq![Item::Op(0x63u8)] + (claim_items(payment_hash, claim_hash) + (seq![Item::Op(0x67u8)] + (
    refund_items(refund_hash, expiry) + seq![Item::Op(0x68u8)])))
}

proof fn lemma_assemble_append(a: Seq<Item>, b: Seq<Item>)
    ensures
        assemble(a + b) == assemble(a) + assemble(b),
    decreases a.len(),
{
    if a.len() == 0 {
        assert(a + b =~= b);
        assert(assemble(a) + assemble(b) =~= assemble(b));
    } else {
        lemma_assemble_append(a.skip(1), b);
        assert((a + b).skip(1) =~= a.skip(1) + b);
        assert(assemble(a) + assemble(b) =~= item_bytes(a[0]) + (assemble(a.skip(1)) + assemble(
            b,
        )));
    }
}

proof fn lemma_assemble_one(item: Item)
    ensures
        assemble(seq![item]) == item_bytes(item),
{
    assert(seq![item] =~= seq![item] + Seq::<Item>::empty());
    lemma_assemble_cons(item, Seq::empty());
    assert(item_bytes(item) + assemble(Seq::<Item>::empty()) =~= item_bytes(item));
}

proof fn lemma_assemble_three(a: Item, b: Item, c: Item)
    ensures
        assemble(seq![a, b, c]) == item_bytes(a) + item_bytes(b) + item_bytes(c),
{
    lemma_assemble_one(c);
    lemma_assemble_cons(b, seq![c]);
    lemma_assemble_cons(a, seq![b] + seq![c]);
    assert(seq![a, b, c] =~= seq![a] + (seq![b] + seq![c]));
    assert(item_bytes(a) + (item_bytes(b) + item_bytes(c)) =~= item_bytes(a) + item_bytes(b)
        + item_bytes(c));
}

proof fn lemma_assemble_key_hash(hash: Seq<u8>)
    ensures
        assemble(key_hash_items(hash)) == p2pkh_script(hash),
{
    lemma_assemble_three(Item::Op(0x76), Item::Op(0xa9), Item::Push(hash));
    lemma_assemble_one(Item::Op(0x88));
    lemma_assemble_one(Item::Op(0xac));
    let head = seq![Item::Op(0x76u8), Item::Op(0xa9u8), Item::Push(hash)];
    lemma_assemble_append(seq![Item::Op(0x88u8)], seq![Item::Op(0xacu8)]);
    lemma_assemble_append(head, seq![Item::Op(0x88u8)] + seq![Item::Op(0xacu8)]);
    assert(key_hash_items(hash) =~= head + (seq![Item::Op(0x88u8)] + seq![Item::Op(0xacu8)]));
    assert(assemble(key_hash_items(hash)) =~= p2pkh_script(hash));
}

proof fn lemma_assemble_htlc(
    payment_hash: Seq<u8>,
    claim_hash: Seq<u8>,
    refund_hash: Seq<u8>,
    expiry: u32,
)
    ensures
        assemble(htlc_items(payment_hash, claim_hash, refund_hash, expiry)) == htlc_script(
            payment_hash,
            claim_hash,
            refund_hash,
            expiry,
        ),
{
    let lock = le_digits(expiry as nat, 4);
    lemma_assemble_key_hash(claim_hash);
    lemma_assemble_key_hash(refund_hash);
    lemma_assemble_three(Item::Op(0xa8), Item::Push(payment_hash), Item::Op(0x88));
    lemma_assemble_three(Item::Push(lock), Item::Op(0xb1), Item::Op(0x75));
    lemma_assemble_append(
        seq![Item::Op(0xa8u8), Item::Push(payment_hash), Item::Op(0x88u8)],
        key_hash_items(claim_hash),
    );
    lemma_assemble_append(
        seq![Item::Push(lock), Item::Op(0xb1u8), Item::Op(0x75u8)],
        key_hash_items(refund_hash),
    );
    let claim = claim_items(payment_hash, claim_hash);
    let refund = refund_items(refund_hash, expiry);
    assert(assemble(claim) =~= htlc_claim_branch(payment_hash, claim_hash));
    assert(assemble(refund) =~= htlc_refund_branch(refund_hash, expiry));
    let close = seq![Item::Op(0x68u8)];
    lemma_assemble_one(Item::Op(0x68));
    lemma_assemble_append(refund, close);
    lemma_assemble_cons(Item::Op(0x67), refund + close);
    lemma_assemble_append(claim, seq![Item::Op(0x67u8)] + (refund + close));
    lemma_assemble_cons(Item::Op(0x63), claim + (seq![Item::Op(0x67u8)] + (refund + close)));
    assert(assemble(htlc_items(payment_hash, claim_hash, refund_hash, expiry)) =~= htlc_script(
        payment_hash,
        claim_hash,
        refund_hash,
        expiry,
    ));
}

/// Running the contract on these items is running its elements.
proof fn lemma_htlc_runs(
    st: Stacks,
    payment_hash: Seq<u8>,
    claim_hash: Seq<u8>,
    refund_hash: Seq<u8>,
    expiry: u32,
    env: ScriptEnv,
)
    requires
        payment_hash.len() == 32,
        claim_hash.len() == 20,
        refund_hash.len() == 20,
    ensures
        run_script(st, htlc_script(payment_hash, claim_hash, refund_hash, expiry), env)
            == run_items(
            Machine { stacks: st, executing: true, conds: Seq::empty() },
            htlc_items(payment_hash, claim_hash, refund_hash, expiry),
            env,
        ),
{
    let items = htlc_items(payment_hash, claim_hash, refund_hash, expiry);
    lemma_le_digits_len(expiry as nat, 4);
    assert(items.len() == 19);
    assert forall|i: int| 0 <= i < items.len() implies readable(#[trigger] items[i]) by {
        if i == 0 {
            assert(items[i] == Item::Op(0x63));
        } else if i < 9 {
            assert(items[i] == claim_items(payment_hash, claim_hash)[i - 1]);
        } else if i == 9 {
            assert(items[i] == Item::Op(0x67));
        } else if i < 18 {
            assert(items[i] == refund_items(refund_hash, expiry)[i - 10]);
        } else {
            assert(items[i] == Item::Op(0x68));
        }
    }
    lemma_run_pushes(st, items, env);
    lemma_assemble_htlc(payment_hash, claim_hash, refund_hash, expiry);
}

/// A swap contract is claimed by exactly the preimage of its hash together with a key of the
/// claimer's hash and a signature by it.
pub proof fn law_htlc_claim(
    payment_hash: Seq<u8>,
    claim_hash: Seq<u8>,
    refund_hash: Seq<u8>,
    expiry: u32,
    sig: Seq<u8>,
    key: Seq<u8>,
    preimage: Seq<u8>,
    env: ScriptEnv,
)
    requires
        payment_hash.len() == 32,
        claim_hash.len() == 20,
        refund_hash.len() == 20,
        sig.len() <= MAX_PUSH_SIZE,
        key.len() <= MAX_PUSH_SIZE,
        preimage.len() <= MAX_PUSH_SIZE,
    ensures
        spend(
            push_bytes(sig) + push_bytes(key) + push_bytes(preimage) + seq![0x51u8],
            htlc_script(payment_hash, claim_hash, refund_hash, expiry),
            env,
        ).1 == if sha256_of(preimage) == payment_hash {
            key_hash_verdict(claim_hash, sig, key, env)
        } else {
            Err(ScriptError::VerifyFailed)
        },
{
    let none = Seq::<Seq<u8>>::empty();
    let empty = Stacks { main: none, alt: none };
    let m0 = Machine { stacks: empty, executing: true, conds: Seq::<bool>::empty() };
    let nil = Seq::<Item>::empty();
    let one = seq![1u8];
    // The input script.
    let i3 = seq![Item::Op(0x51u8)];
    let i2 = seq![Item::Push(preimage)] + i3;
    let i1 = seq![Item::Push(key)] + i2;
    let i0 = seq![Item::Push(sig)] + i1;
    lemma_assemble_one(Item::Op(0x51));
    lemma_assemble_cons(Item::Push(preimage), i3);
    lemma_assemble_cons(Item::Push(key), i2);
    lemma_assemble_cons(Item::Push(sig), i1);
    assert(assemble(i0) =~= push_bytes(sig) + push_bytes(key) + push_bytes(preimage)
        + seq![0x51u8]);
    lemma_run_pushes(empty, i0, env);
    let m1 = Machine { stacks: Stacks { main: seq![sig], alt: none }, ..m0 };
    let m2 = Machine { stacks: Stacks { main: seq![sig, key], alt: none }, ..m0 };
    let m3 = Machine { stacks: Stacks { main: seq![sig, key, preimage], alt: none }, ..m0 };
    let m4 = Machine { stacks: Stacks { main: seq![sig, key, preimage, one], alt: none }, ..m0 };
    lemma_run_cons(m0, Item::Push(sig), i1, env);
    assert(m0.stacks.main.push(sig) =~= m1.stacks.main);
    lemma_run_cons(m1, Item::Push(key), i2, env);
    assert(m1.stacks.main.push(key) =~= m2.stacks.main);
    lemma_run_cons(m2, Item::Push(preimage), i3, env);
    assert(m2.stacks.main.push(preimage) =~= m3.stacks.main);
    assert(i3 =~= seq![Item::Op(0x51u8)] + nil);
    lemma_run_cons(m3, Item::Op(0x51), nil, env);
    assert(m3.stacks.main.push(one) =~= m4.stacks.main);
    // The contract, up to the claim branch.
    lemma_htlc_runs(m4.stacks, payment_hash, claim_hash, refund_hash, expiry, env);
    let refund = refund_items(refund_hash, expiry);
    let close = seq![Item::Op(0x68u8)];
    let after = seq![Item::Op(0x67u8)] + (refund + close);
    let branch = claim_items(payment_hash, claim_hash) + after;
    let open = seq![true];
    lemma_run_cons(m4, Item::Op(0x63), branch, env);
    assert(counts_as_true(one, 0));
    let c0 = Machine { stacks: m3.stacks, executing: true, conds: open };
    assert(m4.stacks.main.drop_last() =~= m3.stacks.main);
    assert(m4.conds.push(true) =~= open);
    assert(step(m4, Item::Op(0x63), env) == (c0, Ok::<(), ScriptError>(())));
    let b3 = key_hash_items(claim_hash) + after;
    let b2 = seq![Item::Op(0x88u8)] + b3;
    let b1 = seq![Item::Push(payment_hash)] + b2;
    assert(branch =~= seq![Item::Op(0xa8u8)] + b1);
    let digest = sha256_of(preimage);
    let c1 = Machine { stacks: Stacks { main: seq![sig, key, digest], alt: none }, ..c0 };
    let c2 = Machine {
        stacks: Stacks { main: seq![sig, key, digest, payment_hash], alt: none },
        ..c0
    };
    let c3 = Machine { stacks: Stacks { main: seq![sig, key], alt: none }, ..c0 };
    lemma_run_cons(c0, Item::Op(0xa8), b1, env);
    assert(c0.stacks.main.drop_last().push(digest) =~= c1.stacks.main);
    assert(step(c0, Item::Op(0xa8), env) == (c1, Ok::<(), ScriptError>(())));
    lemma_run_cons(c1, Item::Push(payment_hash), b2, env);
    assert(c1.stacks.main.push(payment_hash) =~= c2.stacks.main);
    lemma_run_cons(c2, Item::Op(0x88), b3, env);
    assert(c2.stacks.main.take(2) =~= c3.stacks.main);
    lemma_key_hash_items(c3, claim_hash, sig, key, after, env);
    // The refund branch is skipped.
    let verdict = bool_item(signature_check(env.tx_hash@, sig, key) is Ok);
    let c4 = Machine { stacks: Stacks { main: seq![verdict], alt: none }, ..c0 };
    let c5 = Machine { executing: false, ..c4 };
    lemma_run_cons(c4, Item::Op(0x67), refund + close, env);
    lemma_skip_items(c5, refund, close, env);
    assert(close =~= close + nil);
    lemma_run_cons(c5, Item::Op(0x68), nil, env);
    assert(open.drop_last() =~= Seq::<bool>::empty());
    lemma_bool_items();
    assert(htlc_script(payment_hash, claim_hash, refund_hash, expiry)[0] == 0x63);
}

/// A swap contract is refunded, on the branch without a preimage, by exactly a key of the
/// refunder's hash and a signature by it, once the contract's lock time is satisfied.
pub proof fn law_htlc_refund(
    payment_hash: Seq<u8>,
    claim_hash: Seq<u8>,
    refund_hash: Seq<u8>,
    expiry: u32,
    sig: Seq<u8>,
    key: Seq<u8>,
    env: ScriptEnv,
)
    requires
        payment_hash.len() == 32,
        claim_hash.len() == 20,
        refund_hash.len() == 20,
        sig.len() <= MAX_PUSH_SIZE,
        key.len() <= MAX_PUSH_SIZE,
    ensures
        spend(
            push_bytes(sig) + push_bytes(key) + seq![0x00u8],
            htlc_script(payment_hash, claim_hash, refund_hash, expiry),
            env,
        ).1 == match locktime_check(number_of(le_digits(expiry as nat, 4)), env) {
            Ok(()) => key_hash_verdict(refund_hash, sig, key, env),
            Err(e) => Err(e),
        },
{
    let none = Seq::<Seq<u8>>::empty();
    let empty = Stacks { main: none, alt: none };
    let m0 = Machine { stacks: empty, executing: true, conds: Seq::<bool>::empty() };
    let nil = Seq::<Item>::empty();
    let zero = Seq::<u8>::empty();
    // The input script.
    let i2 = seq![Item::Push(zero)];
    let i1 = seq![Item::Push(key)] + i2;
    let i0 = seq![Item::Push(sig)] + i1;
    lemma_assemble_one(Item::Push(zero));
    lemma_assemble_cons(Item::Push(key), i2);
    lemma_assemble_cons(Item::Push(sig), i1);
    assert(assemble(i0) =~= push_bytes(sig) + push_bytes(key) + seq![0x00u8]);
    lemma_run_pushes(empty, i0, env);
    let m1 = Machine { stacks: Stacks { main: seq![sig], alt: none }, ..m0 };
    let m2 = Machine { stacks: Stacks { main: seq![sig, key], alt: none }, ..m0 };
    let m3 = Machine { stacks: Stacks { main: seq![sig, key, zero], alt: none }, ..m0 };
    lemma_run_cons(m0, Item::Push(sig), i1, env);
    assert(m0.stacks.main.push(sig) =~= m1.stacks.main);
    lemma_run_cons(m1, Item::Push(key), i2, env);
    assert(m1.stacks.main.push(key) =~= m2.stacks.main);
    assert(i2 =~= i2 + nil);
    lemma_run_cons(m2, Item::Push(zero), nil, env);
    assert(m2.stacks.main.push(zero) =~= m3.stacks.main);
    // The claim branch is skipped.
    lemma_htlc_runs(m3.stacks, payment_hash, claim_hash, refund_hash, expiry, env);
    let claim = claim_items(payment_hash, claim_hash);
    let refund = refund_items(refund_hash, expiry);
    let close = seq![Item::Op(0x68u8)];
    let after = seq![Item::Op(0x67u8)] + (refund + close);
    let open = seq![true];
    lemma_run_cons(m3, Item::Op(0x63), claim + after, env);
    let c0 = Machine { stacks: m2.stacks, executing: false, conds: open };
    assert(m3.stacks.main.drop_last() =~= m2.stacks.main);
    assert(m3.conds.push(true) =~= open);
    assert(step(m3, Item::Op(0x63), env) == (c0, Ok::<(), ScriptError>(())));
    lemma_skip_items(c0, claim, after, env);
    let c1 = Machine { executing: true, ..c0 };
    lemma_run_cons(c0, Item::Op(0x67), refund + close, env);
    // The refund branch.
    let lock = le_digits(expiry as nat, 4);
    lemma_le_digits_len(expiry as nat, 4);
    let b3 = key_hash_items(refund_hash) + close;
    let b2 = seq![Item::Op(0x75u8)] + b3;
    let b1 = seq![Item::Op(0xb1u8)] + b2;
    assert(refund + close =~= seq![Item::Push(lock)] + b1);
    let c2 = Machine { stacks: Stacks { main: seq![sig, key, lock], alt: none }, ..c1 };
    lemma_run_cons(c1, Item::Push(lock), b1, env);
    assert(c1.stacks.main.push(lock) =~= c2.stacks.main);
    lemma_run_cons(c2, Item::Op(0xb1), b2, env);
    lemma_run_cons(c2, Item::Op(0x75), b3, env);
    assert(c2.stacks.main.drop_last() =~= c1.stacks.main);
    lemma_key_hash_items(c1, refund_hash, sig, key, close, env);
    let verdict = bool_item(signature_check(env.tx_hash@, sig, key) is Ok);
    let c4 = Machine { stacks: Stacks { main: seq![verdict], alt: none }, ..c1 };
    assert(close =~= close + nil);
    lemma_run_cons(c4, Item::Op(0x68), nil, env);
    assert(open.drop_last() =~= Seq::<bool>::empty());
    lemma_bool_items();
    assert(htlc_script(payment_hash, claim_hash, refund_hash, expiry)[0] == 0x63);
}

/// The lock time in a swap contract is its expiry, as long as the sign bit is clear.
pub proof fn law_htlc_expiry(expiry: u32)
    requires
        expiry < 0x8000_0000,
    ensures
        number_of(le_digits(expiry as nat, 4)) == expiry,
{
    let d = le_digits(expiry as nat, 4);
    lemma_pow256_values();
    lemma_le_roundtrip(expiry as nat, 4);
    assert(d.drop_last().push(d.last()) =~= d);
    lemma_le_value_push(d.drop_last(), d.last());
    assert(d.last() < 128) by (nonlinear_arith)
        requires
            d.last() as nat * 0x100_0000 <= expiry,
            expiry < 0x8000_0000,
    ;
}

/// An output that pays to a script hash is spent by exactly a redeem script with that hash on
/// top of the stack, which must in turn accept the items below it.
pub proof fn law_p2sh_spend(hash: Seq<u8>, sig: Seq<u8>, env: ScriptEnv)
    requires
        hash.len() == 20,
        run_script(Stacks { main: Seq::empty(), alt: Seq::empty() }, sig, env).1 is Ok,
        0 < run_script(Stacks { main: Seq::empty(), alt: Seq::empty() }, sig, env).0.main.len()
            < crate::script::engine::MAX_STACK_DEPTH,
    ensures
        spend(sig, p2sh_script(hash), env).1 == {
            let st = run_script(Stacks { main: Seq::empty(), alt: Seq::empty() }, sig, env).0;
            if hash160_of(st.main.last()) == hash {
                redeem(st.main, st.alt, env).1
            } else {
                Err(ScriptError::VerifyFailed)
            }
        },
{
    let st = run_script(Stacks { main: Seq::empty(), alt: Seq::empty() }, sig, env).0;
    let nil = Seq::<Item>::empty();
    let n = st.main.len();
    let digest = hash160_of(st.main.last());
    let rest = st.main.drop_last();
    let items = seq![Item::Op(0xa9u8), Item::Push(hash), Item::Op(0x87u8)];
    lemma_assemble_three(Item::Op(0xa9), Item::Push(hash), Item::Op(0x87));
    assert(assemble(items) =~= p2sh_script(hash));
    lemma_run_pushes(st, items, env);
    let t2 = seq![Item::Op(0x87u8)] + nil;
    let t1 = seq![Item::Push(hash)] + t2;
    assert(items =~= seq![Item::Op(0xa9u8)] + t1);
    let m0 = Machine { stacks: st, executing: true, conds: Seq::<bool>::empty() };
    let m1 = Machine { stacks: Stacks { main: rest.push(digest), alt: st.alt }, ..m0 };
    let m2 = Machine { stacks: Stacks { main: rest.push(digest).push(hash), alt: st.alt }, ..m0 };
    lemma_run_cons(m0, Item::Op(0xa9), t1, env);
    assert(step(m0, Item::Op(0xa9), env) == (m1, Ok::<(), ScriptError>(())));
    lemma_run_cons(m1, Item::Push(hash), t2, env);
    assert(step(m1, Item::Push(hash), env) == (m2, Ok::<(), ScriptError>(())));
    lemma_run_cons(m2, Item::Op(0x87), nil, env);
    assert(m2.stacks.main.take(n - 1) =~= rest);
    let end = rest.push(bool_item(digest == hash));
    let m3 = Machine { stacks: Stacks { main: end, alt: st.alt }, ..m0 };
    assert(step(m2, Item::Op(0x87), env) == (m3, Ok::<(), ScriptError>(())));
    lemma_bool_items();
    let b = p2sh_script(hash);
    assert(b.len() == 23 && b[0] == 0xa9 && b[1] == 0x14 && b[22] == 0x87);
}

} // verus!
