//! Bencode: numbers, byte strings, lists and dictionaries.
use crate::bytes::append_slice;
use crate::bytes::same_bytes;
use crate::text::all_digits;
use crate::text::decimal;
use crate::text::is_digit;
use crate::text::law_decimal_roundtrip;
use crate::text::lemma_decimal_digits;
use crate::text::plain_number;
use crate::text::push_decimal;
use crate::torrent::bencode_guard::bencode_depth_ok;
use crate::torrent::bencode_guard::digits_end;
use crate::torrent::bencode_guard::scan_from;
use crate::torrent::bencode_guard::Scan;
use crate::torrent::bencode_guard::MAX_BENCODE_DEPTH;
use vstd::prelude::*;
use vstd::utf8::encode_utf8;

verus! {

/// A bencode value.
#[derive(Debug)]
pub enum Bencode {
    /// A number.
    Int(i64),
    /// A byte string.
    Bytes(Vec<u8>),
    /// A list.
    List(Vec<Bencode>),
    /// Keys with their values. Where a key occurs twice, the first counts.
    Dict(Vec<(Vec<u8>, Bencode)>),
}

/// What a bencode value says.
pub enum Tree {
    Int(i64),
    Bytes(Seq<u8>),
    List(Seq<Tree>),
    Dict(Map<Seq<u8>, Tree>),
}

/// The first position of a key; the number of entries where there is none.
pub open spec fn key_position(d: Seq<(Vec<u8>, Bencode)>, key: Seq<u8>, from: int) -> int
    decreases d.len() - from,
{
    if from < 0 || from >= d.len() {
        d.len() as int
    } else if d[from].0@ == key {
        from
    } else {
        key_position(d, key, from + 1)
    }
}

/// What a value says.
pub open spec fn tree_of(b: Bencode) -> Tree
    decreases b,
{
    match b {
        Bencode::Int(i) => Tree::Int(i),
        Bencode::Bytes(v) => Tree::Bytes(v@),
        Bencode::List(v) => Tree::List(
            Seq::new(
                v@.len(),
                |i: int|
                    if 0 <= i < v@.len() {
                        tree_of(v@[i])
                    } else {
                        Tree::Int(0)
                    },
            ),
        ),
        Bencode::Dict(v) => Tree::Dict(
            Map::new(
                |k: Seq<u8>| key_position(v@, k, 0) < v@.len(),
                |k: Seq<u8>|
                    {
                        let i = key_position(v@, k, 0);
                        if 0 <= i < v@.len() {
                            tree_of(v@[i].1)
                        } else {
                            Tree::Int(0)
                        }
                    },
            ),
        ),
    }
}

/// The value under a key.
pub open spec fn tree_get(t: Tree, key: Seq<u8>) -> Option<Tree> {
    match t {
        Tree::Dict(m) => if m.dom().contains(key) {
            Some(m[key])
        } else {
            None
        },
        _ => None,
    }
}

/// Whether two optional values are the same.
pub open spec fn same_entry(b: Option<&Bencode>, t: Option<Tree>) -> bool {
    match b {
        Some(x) => t == Some(tree_of(*x)),
        None => t is None,
    }
}

impl Bencode {
    /// The value under a key; nothing where there is none or this is no dictionary.
    pub fn get(&self, key: &[u8]) -> (r: Option<&Bencode>)
        ensures
            same_entry(r, tree_get(tree_of(*self), key@)),
    {
        match self {
            Bencode::Dict(d) => {
                let mut i: usize = 0;
                while i < d.len()
                    invariant
                        *self == Bencode::Dict(*d),
                        i <= d@.len(),
                        key_position(d@, key@, 0) == key_position(d@, key@, i as int),
                    decreases d@.len() - i,
                {
                    if same_bytes(d[i].0.as_slice(), key) {
                        return Some(&d[i].1);
                    }
                    i = i + 1;
                }
                None
            },
            _ => None,
        }
    }

    /// Whether this is a dictionary.
    pub fn is_dict(&self) -> (r: bool)
        ensures
            r == (tree_of(*self) is Dict),
    {
        match self {
            Bencode::Dict(_) => true,
            _ => false,
        }
    }
}

// ---- writing ----

/// The code of a byte string: its length, a colon and its bytes.
pub open spec fn bytes_code(b: Seq<u8>) -> Seq<u8> {
    encode_utf8(decimal(b.len())) + seq![0x3au8] + b
}

/// The code of a number: its digits between two letters.
pub open spec fn int_code(n: int) -> Seq<u8> {
    seq![0x69u8] + (if n < 0 {
        seq![0x2du8] + encode_utf8(decimal((-n) as nat))
    } else {
        encode_utf8(decimal(n as nat))
    }) + seq![0x65u8]
}

/// Appends a number in decimal.
pub(crate) fn push_number(buf: &mut Vec<u8>, n: u64)
    ensures
        final(buf)@ == old(buf)@ + encode_utf8(decimal(n as nat)),
{
    let mut s: String = String::new();
    push_decimal(&mut s, n);
    assert(s@ =~= decimal(n as nat));
    append_slice(buf, s.as_str().as_bytes());
}

/// Appends the code of a byte string.
pub fn push_bytes_code(buf: &mut Vec<u8>, b: &[u8])
    ensures
        final(buf)@ == old(buf)@ + bytes_code(b@),
{
    push_number(buf, b.len() as u64);
    buf.push(0x3a);
    append_slice(buf, b);
    assert(buf@ =~= old(buf)@ + bytes_code(b@));
}

/// Appends the code of a number.
pub fn push_int_code(buf: &mut Vec<u8>, n: i64)
    ensures
        final(buf)@ == old(buf)@ + int_code(n as int),
{
    buf.push(0x69);
    if n < 0 {
        buf.push(0x2d);
        let m: u64 = if n == i64::MIN {
            0x8000_0000_0000_0000
        } else {
            (-n) as u64
        };
        push_number(buf, m);
    } else {
        push_number(buf, n as u64);
    }
    buf.push(0x65);
    assert(buf@ =~= old(buf)@ + int_code(n as int));
}

proof fn lemma_digits_stop(data: Seq<u8>, d: Seq<u8>, i: int)
    requires
        0 <= i <= d.len() < data.len(),
        all_digits(d),
        data.take(d.len() as int) == d,
        !is_digit(data[d.len() as int]),
    ensures
        digits_end(data, i) == d.len(),
    decreases d.len() - i,
{
    if i < d.len() {
        assert(data[i] == d[i]) by {
            assert(data.take(d.len() as int)[i] == d[i]);
        }
        lemma_digits_stop(data, d, i + 1);
    }
}

/// The code of a byte string is not nested.
pub proof fn lemma_bytes_code_shallow(b: Seq<u8>)
    ensures
        shallow(bytes_code(b)),
{
    let data = bytes_code(b);
    let d = encode_utf8(decimal(b.len()));
    law_decimal_roundtrip(b.len());
    lemma_decimal_digits(b.len());
    vstd::utf8::is_ascii_chars_encode_utf8(decimal(b.len()));
    assert(d =~= Seq::new(decimal(b.len()).len(), |i: int| decimal(b.len())[i] as u8));
    assert(is_digit(d[0]));
    assert(plain_number(d) == Some(b.len()));
    assert(data.take(d.len() as int) =~= d);
    assert(data[0] == d[0]);
    lemma_digits_stop(data, d, 0);
    assert(data.subrange(0, d.len() as int) =~= d);
    let next = d.len() + 1 + b.len();
    assert(next == data.len());
    assert(scan_from(data, next as int, 0, MAX_BENCODE_DEPTH as nat) == Scan::Balanced);
}

// ---- parsing ----

/// `serde_bencode`'s own value, opaque here.
#[verifier::external_type_specification]
#[verifier::external_body]
pub struct ExValue(serde_bencode::value::Value);

/// What an outside value holds.
pub uninterp spec fn outside_tree(v: serde_bencode::value::Value) -> Tree;

/// What `serde_bencode::from_bytes` makes of bytes: the value that they say, or the text of its
/// error.
pub uninterp spec fn bencode_tree(data: Seq<u8>) -> Result<Tree, Seq<char>>;

/// Whether the scan finds no more levels than are allowed.
pub open spec fn shallow(data: Seq<u8>) -> bool {
    scan_from(data, 0, 0, MAX_BENCODE_DEPTH as nat) != Scan::TooDeep
}

/// Whether `r` is the byte string whose code `data` is, if it is one.
spec fn reads_strings(data: Seq<u8>, r: Result<serde_bencode::value::Value, String>) -> bool {
    forall|b: Seq<u8>|
        data == #[trigger] bytes_code(b) ==> (r matches Ok(v) && outside_tree(v) == Tree::Bytes(b))
}

/// `serde_bencode::from_bytes`: a value, or the text of its error; either depends on the bytes
/// alone. A byte string after its length and a colon is that byte string. The function calls
/// itself for every level of nesting, so the levels are bounded.
#[verifier::external_body]
fn parse_value(data: &[u8]) -> (r: Result<serde_bencode::value::Value, String>)
    requires
        shallow(data@),
    ensures
        match r {
            Ok(v) => bencode_tree(data@) == Ok::<Tree, Seq<char>>(outside_tree(v)),
            Err(t) => bencode_tree(data@) == Err::<Tree, Seq<char>>(t@),
        },
        reads_strings(data@, r),
{
    serde_bencode::from_bytes(data).map_err(|e| e.to_string())
}

/// The parts of an outside value.
enum Parts {
    Int(i64),
    Bytes(Vec<u8>),
    List(Vec<serde_bencode::value::Value>),
    Dict(Vec<(Vec<u8>, serde_bencode::value::Value)>),
}

/// Whether the parts are those of the tree. The entries of a dictionary come in any order, each
/// key once.
spec fn parts_of(t: Tree, parts: Parts) -> bool {
    match parts {
        Parts::Int(i) => t == Tree::Int(i),
        Parts::Bytes(b) => t == Tree::Bytes(b@),
        Parts::List(l) => t matches Tree::List(s) && s.len() == l@.len() && forall|i: int|
            0 <= i < s.len() ==> #[trigger] s[i] == outside_tree(l@[i]),
        Parts::Dict(d) => t matches Tree::Dict(m) && m.dom().finite() && (forall|i: int|
            0 <= i < d@.len() ==> m.dom().contains((#[trigger] d@[i]).0@) && m[d@[i].0@]
                == outside_tree(d@[i].1)) && (forall|k: Seq<u8>| #[trigger]
            m.dom().contains(k) ==> exists|i: int| 0 <= i < d@.len() && (#[trigger] d@[i]).0@ == k),
    }
}

/// The variants of `serde_bencode::value::Value`, with their fields: a number, bytes, the items of
/// a list, or the entries of a dictionary.
#[verifier::external_body]
fn open_value(v: serde_bencode::value::Value) -> (parts: Parts)
    ensures
        parts_of(outside_tree(v), parts),
{
    match v {
        serde_bencode::value::Value::Int(i) => Parts::Int(i),
        serde_bencode::value::Value::Bytes(b) => Parts::Bytes(b),
        serde_bencode::value::Value::List(l) => Parts::List(l),
        serde_bencode::value::Value::Dict(d) => Parts::Dict(d.into_iter().collect()),
    }
}

pub proof fn lemma_key_position(d: Seq<(Vec<u8>, Bencode)>, key: Seq<u8>, from: int)
    requires
        0 <= from <= d.len(),
    ensures
        from <= key_position(d, key, from) <= d.len(),
        key_position(d, key, from) < d.len() ==> d[key_position(d, key, from)].0@ == key,
        key_position(d, key, from) == d.len() ==> forall|i: int|
            from <= i < d.len() ==> (#[trigger] d[i]).0@ != key,
    decreases d.len() - from,
{
    if from < d.len() && d[from].0@ != key {
        lemma_key_position(d, key, from + 1);
    }
}

/// Reads an outside value into one of the library's own.
fn read_value(v: serde_bencode::value::Value) -> (b: Bencode)
    ensures
        tree_of(b) == outside_tree(v),
    decreases outside_tree(v),
{
    let ghost t = outside_tree(v);
    match open_value(v) {
        Parts::Int(i) => Bencode::Int(i),
        Parts::Bytes(b) => Bencode::Bytes(b),
        Parts::List(l) => {
            let mut rest: Vec<serde_bencode::value::Value> = l;
            let ghost s = t->List_0;
            let mut back: Vec<Bencode> = Vec::new();
            let ghost n = rest@.len();
            while rest.len() > 0
                invariant
                    t == Tree::List(s),
                    t == outside_tree(v),
                    s.len() == n,
                    rest@.len() + back@.len() == n,
                    forall|i: int| 0 <= i < rest@.len() ==> #[trigger] s[i] == outside_tree(rest@[i]),
                    forall|i: int|
                        0 <= i < back@.len() ==> tree_of(#[trigger] back@[i]) == s[n - 1 - i],
                decreases rest@.len(),
            {
                let ghost k = rest@.len() - 1;
                assert(s[k] == outside_tree(rest@[k]));
                assert(decreases_to!(t => s[k])) by {
                    assert(decreases_to!(t => t->List_0));
                    assert(decreases_to!(s => s[k]));
                }
                let x = match rest.pop() {
                    Some(x) => x,
                    None => {
                        return Bencode::Int(0);
                    },
                };
                back.push(read_value(x));
            }
            let mut items: Vec<Bencode> = Vec::new();
            while back.len() > 0
                invariant
                    s.len() == n,
                    back@.len() + items@.len() == n,
                    forall|i: int|
                        0 <= i < back@.len() ==> tree_of(#[trigger] back@[i]) == s[n - 1 - i],
                    forall|i: int| 0 <= i < items@.len() ==> tree_of(#[trigger] items@[i]) == s[i],
                decreases back@.len(),
            {
                let ghost k = back@.len() - 1;
                assert(tree_of(back@[k]) == s[n - 1 - k]);
                match back.pop() {
                    Some(x) => {
                        items.push(x);
                    },
                    None => {},
                }
            }
            let b: Bencode = Bencode::List(items);
            assert(tree_of(b)->List_0 =~= s);
            b
        },
        Parts::Dict(d) => {
            let mut rest: Vec<(Vec<u8>, serde_bencode::value::Value)> = d;
            let ghost all = d@;
            let ghost m = t->Dict_0;
            let ghost n = all.len();
            let mut entries: Vec<(Vec<u8>, Bencode)> = Vec::new();
            while rest.len() > 0
                invariant
                    t == Tree::Dict(m),
                    t == outside_tree(v),
                    m.dom().finite(),
                    n == all.len(),
                    rest@ == all.take(rest@.len() as int),
                    rest@.len() + entries@.len() == n,
                    forall|i: int|
                        0 <= i < n ==> m.dom().contains((#[trigger] all[i]).0@) && m[all[i].0@]
                            == outside_tree(all[i].1),
                    forall|i: int|
                        0 <= i < entries@.len() ==> (#[trigger] entries@[i]).0@ == all[n - 1 - i].0@
                            && tree_of(entries@[i].1) == outside_tree(all[n - 1 - i].1),
                decreases rest@.len(),
            {
                let ghost k = rest@.len() - 1;
                assert(rest@[k] == all[k]);
                let (key, x) = match rest.pop() {
                    Some(e) => e,
                    None => {
                        return Bencode::Int(0);
                    },
                };
                assert(m.dom().contains(all[k].0@));
                assert(decreases_to!(t => m[all[k].0@])) by {
                    assert(decreases_to!(t => t->Dict_0));
                    assert(decreases_to!(m => m[all[k].0@]));
                }
                entries.push((key, read_value(x)));
                assert(rest@ =~= all.take(rest@.len() as int));
            }
            let b: Bencode = Bencode::Dict(entries);
            proof {
                let w = tree_of(b)->Dict_0;
                assert forall|k: Seq<u8>| w.dom().contains(k) == m.dom().contains(k) by {
                    lemma_key_position(entries@, k, 0);
                    if m.dom().contains(k) {
                        let i = choose|i: int| 0 <= i < n && (#[trigger] all[i]).0@ == k;
                        assert(entries@[n - 1 - i].0@ == k);
                    }
                    if w.dom().contains(k) {
                        let i = key_position(entries@, k, 0);
                        assert(entries@[i].0@ == all[n - 1 - i].0@);
                    }
                }
                assert forall|k: Seq<u8>| m.dom().contains(k) implies w[k] == m[k] by {
                    lemma_key_position(entries@, k, 0);
                    assert(w.dom().contains(k));
                    let i = key_position(entries@, k, 0);
                    assert(entries@[i].0@ == all[n - 1 - i].0@);
                    assert(m[all[n - 1 - i].0@] == outside_tree(all[n - 1 - i].1));
                }
                assert(w =~= m);
            }
            b
        },
    }
}

/// Parses bytes that are not nested too deeply.
pub fn parse_bencode(data: &[u8]) -> (r: Result<Bencode, String>)
    requires
        shallow(data@),
    ensures
        match bencode_tree(data@) {
            Ok(t) => r matches Ok(b) && tree_of(b) == t,
            Err(m) => r matches Err(e) && e@ == m,
        },
        forall|b: Seq<u8>| data@ == #[trigger] bytes_code(b) ==> bencode_tree(data@) == Ok::<
            Tree,
            Seq<char>,
        >(Tree::Bytes(b)),
{
    match parse_value(data) {
        Ok(v) => Ok(read_value(v)),
        Err(e) => Err(e),
    }
}

/// Parses bytes from outside: nothing where they are nested too deeply or malformed.
pub fn parse_untrusted(data: &[u8]) -> (r: Option<Result<Bencode, String>>)
    ensures
        scan_from(data@, 0, 0, MAX_BENCODE_DEPTH as nat) != Scan::Balanced ==> r is None,
        scan_from(data@, 0, 0, MAX_BENCODE_DEPTH as nat) == Scan::Balanced ==> match bencode_tree(
            data@,
        ) {
            Ok(t) => r matches Some(Ok(b)) && tree_of(b) == t,
            Err(m) => r matches Some(Err(e)) && e@ == m,
        },
{
    if !bencode_depth_ok(data, MAX_BENCODE_DEPTH) {
        return None;
    }
    Some(parse_bencode(data))
}

} // verus!
