//! The `Script` type: a sequence of opcodes and pushed byte strings.
use crate::bytes::append_slice;
use crate::bytes::le_digits;
use crate::bytes::le_value;
use crate::bytes::lemma_le_roundtrip;
use crate::bytes::lemma_pow256_values;
use crate::bytes::read_u16_le;
use crate::bytes::read_u32_le;
use crate::script::error::ScriptError;
use crate::script::number::minimal_digits;
use crate::script::number::number_item;
use vstd::prelude::*;

verus! {

/// The largest script, in bytes.
pub const MAX_SCRIPT_SIZE: usize = 10_000;

/// The largest pushed item, in bytes.
pub const MAX_PUSH_SIZE: usize = 520;

/// A script as it is stored and hashed.
#[derive(Debug, Clone, PartialEq, Eq, Default)]
pub struct Script(pub Vec<u8>);

impl View for Script {
    type V = Seq<u8>;

    open spec fn view(&self) -> Seq<u8> {
        self.0@
    }
}

/// One element of a script.
pub enum Item {
    /// A push of these bytes.
    Push(Seq<u8>),
    /// Any other opcode.
    Op(u8),
}

/// A push of the `len` bytes at `from`, with the position after it.
pub open spec fn push_at(b: Seq<u8>, from: int, len: int) -> Option<(Item, int)> {
    if from + len <= b.len() {
        Some((Item::Push(b.subrange(from, from + len)), from + len))
    } else {
        None
    }
}

/// The element that starts at `p`, with the position after it; `None` at the end and where a
/// push announces more bytes than there are.
pub open spec fn item_at(b: Seq<u8>, p: int) -> Option<(Item, int)> {
    if p < 0 || p >= b.len() {
        None
    } else if b[p] == 0x00 {
        Some((Item::Push(Seq::empty()), p + 1))
    } else if b[p] <= 75 {
        push_at(b, p + 1, b[p] as int)
    } else if b[p] == 0x4c {
        if p + 2 <= b.len() {
            push_at(b, p + 2, b[p + 1] as int)
        } else {
            None
        }
    } else if b[p] == 0x4d {
        if p + 3 <= b.len() {
            push_at(b, p + 3, le_value(b.subrange(p + 1, p + 3)) as int)
        } else {
            None
        }
    } else if b[p] == 0x4e {
        if p + 5 <= b.len() {
            push_at(b, p + 5, le_value(b.subrange(p + 1, p + 5)) as int)
        } else {
            None
        }
    } else {
        Some((Item::Op(b[p]), p + 1))
    }
}

/// Where reading stops on the truncated push at `p`: behind as much of its header as is there.
pub open spec fn truncated_end(b: Seq<u8>, p: int) -> int {
    if p >= b.len() {
        p
    } else if b[p] == 0x4c && p + 2 <= b.len() {
        p + 2
    } else if b[p] == 0x4d && p + 3 <= b.len() {
        p + 3
    } else if b[p] == 0x4e && p + 5 <= b.len() {
        p + 5
    } else {
        p + 1
    }
}

/// Whether every push from `p` on is complete.
pub open spec fn complete_from(b: Seq<u8>, p: int) -> bool
    decreases b.len() - p,
{
    if p < 0 || p >= b.len() {
        true
    } else {
        match item_at(b, p) {
            None => false,
            Some((_, next)) => p < next && complete_from(b, next),
        }
    }
}

/// The elements from `p` on, up to the end or the first truncated push.
pub open spec fn items_from(b: Seq<u8>, p: int) -> Seq<Item>
    decreases b.len() - p,
{
    match item_at(b, p) {
        Some((item, next)) if p < next => seq![item] + items_from(b, next),
        _ => Seq::empty(),
    }
}

/// The bytes that push `data`.
pub open spec fn push_bytes(data: Seq<u8>) -> Seq<u8> {
    if data.len() == 0 {
        seq![0x00u8]
    } else if data.len() <= 75 {
        seq![data.len() as u8] + data
    } else if data.len() <= 255 {
        seq![0x4cu8, data.len() as u8] + data
    } else {
        seq![0x4du8] + le_digits(data.len(), 2) + data
    }
}

/// The bytes that push the integer `n`: its opcode where there is one, else its shortest stack
/// item.
pub open spec fn push_int_bytes(n: u8) -> Seq<u8> {
    if n == 0 {
        seq![0x00u8]
    } else if n <= 16 {
        seq![(0x50 + n) as u8]
    } else {
        push_bytes(number_item(n as int))
    }
}

/// An element yielded while reading a script.
#[derive(Debug, Clone)]
pub enum ScriptItem<'a> {
    /// An opcode.
    Opcode(u8),
    /// A pushed item.
    PushData(&'a [u8]),
}

impl<'a> View for ScriptItem<'a> {
    type V = Item;

    open spec fn view(&self) -> Item {
        match self {
            ScriptItem::Opcode(op) => Item::Op(*op),
            ScriptItem::PushData(data) => Item::Push(data@),
        }
    }
}

/// Reads a script element by element.
pub struct ScriptIter<'a> {
    /// The script's bytes.
    pub data: &'a [u8],
    /// Where the next element starts.
    pub pos: usize,
}

impl<'a> ScriptIter<'a> {
    /// The next element, or `None` at the end of the script and on a truncated push.
    pub fn next(&mut self) -> (r: Option<ScriptItem<'a>>)
        ensures
            final(self).data == old(self).data,
            match r {
                Some(item) => item_at(old(self).data@, old(self).pos as int) == Some(
                    (item@, final(self).pos as int),
                ) && old(self).pos < final(self).pos <= old(self).data@.len(),
                None => item_at(old(self).data@, old(self).pos as int) is None && final(self).pos
                    == truncated_end(old(self).data@, old(self).pos as int),
            },
    {
        let data: &'a [u8] = self.data;
        let start: usize = self.pos;
        if start >= data.len() {
            return None;
        }
        let op: u8 = data[start];
        if op == 0x00 {
            self.pos = start + 1;
            let nothing: &'a [u8] = vstd::slice::slice_subrange(data, start, start);
            assert(nothing@ =~= Seq::<u8>::empty());
            return Some(ScriptItem::PushData(nothing));
        }
        if op > 75 && op != 0x4c && op != 0x4d && op != 0x4e {
            self.pos = start + 1;
            return Some(ScriptItem::Opcode(op));
        }
        let rest: usize = data.len() - start - 1;
        let width: usize = if op <= 75 {
            0
        } else if op == 0x4c {
            1
        } else if op == 0x4d {
            2
        } else {
            4
        };
        if rest < width {
            self.pos = start + 1;
            return None;
        }
        let from: usize = start + 1 + width;
        let len: usize = if op <= 75 {
            op as usize
        } else if op == 0x4c {
            data[start + 1] as usize
        } else if op == 0x4d {
            read_u16_le(data, start + 1) as usize
        } else {
            read_u32_le(data, start + 1) as usize
        };
        self.pos = from;
        if len > rest - width {
            return None;
        }
        self.pos = from + len;
        Some(ScriptItem::PushData(vstd::slice::slice_subrange(data, from, from + len)))
    }
}

impl Script {
    /// An empty script.
    pub fn new() -> (s: Self)
        ensures
            s@ == Seq::<u8>::empty(),
    {
        Script(Vec::new())
    }

    /// A script with these bytes; refused where there are more than a script may have.
    pub fn from_bytes(bytes: Vec<u8>) -> (r: Result<Self, ScriptError>)
        ensures
            bytes@.len() <= MAX_SCRIPT_SIZE ==> (r matches Ok(s) && s@ == bytes@),
            bytes@.len() > MAX_SCRIPT_SIZE ==> r == Err::<Script, ScriptError>(
                ScriptError::ScriptTooLarge(bytes@.len() as usize),
            ),
    {
        if bytes.len() > MAX_SCRIPT_SIZE {
            return Err(ScriptError::ScriptTooLarge(bytes.len()));
        }
        Ok(Script(bytes))
    }

    /// The script's bytes.
    pub fn as_bytes(&self) -> (b: &[u8])
        ensures
            b@ == self@,
    {
        self.0.as_slice()
    }

    /// The number of bytes.
    pub fn len(&self) -> (n: usize)
        ensures
            n == self@.len(),
    {
        self.0.len()
    }

    /// Whether there are no bytes.
    pub fn is_empty(&self) -> (r: bool)
        ensures
            r == (self@.len() == 0),
    {
        self.0.len() == 0
    }

    /// Appends a push of `data` with the shortest push opcode that fits.
    pub fn push_data(&mut self, data: &[u8]) -> (r: Result<(), ScriptError>)
        ensures
            data@.len() <= MAX_PUSH_SIZE ==> r is Ok && final(self)@ == old(self)@ + push_bytes(
                data@,
            ),
            data@.len() > MAX_PUSH_SIZE ==> r == Err::<(), ScriptError>(
                ScriptError::PushTooLarge(data@.len() as usize),
            ) && final(self)@ == old(self)@,
    {
        let len: usize = data.len();
        if len > MAX_PUSH_SIZE {
            return Err(ScriptError::PushTooLarge(len));
        }
        if len == 0 {
            self.0.push(0x00);
        } else if len <= 75 {
            self.0.push(len as u8);
        } else if len <= 255 {
            self.0.push(0x4c);
            self.0.push(len as u8);
        } else {
            proof {
                reveal_with_fuel(le_digits, 3);
            }
            self.0.push(0x4d);
            self.0.push((len % 256) as u8);
            self.0.push((len / 256) as u8);
        }
        append_slice(&mut self.0, data);
        assert(self@ =~= old(self)@ + push_bytes(data@));
        Ok(())
    }

    /// Appends one opcode byte.
    pub fn push_opcode(&mut self, opcode: u8)
        ensures
            final(self)@ == old(self)@.push(opcode),
    {
        self.0.push(opcode);
    }

    /// Appends an integer: `OP_0` to `OP_16` where there is one, else a push of the shortest stack
    /// item that holds it.
    pub fn push_int(&mut self, n: u8)
        ensures
            final(self)@ == old(self)@ + push_int_bytes(n),
    {
        if n == 0 {
            self.0.push(0x00);
        } else if n <= 16 {
            self.0.push(0x50 + n);
        } else {
            proof {
                reveal_with_fuel(minimal_digits, 3);
                assert(minimal_digits(n as nat) =~= seq![n]);
            }
            if n < 128 {
                self.0.push(1);
                self.0.push(n);
            } else {
                self.0.push(2);
                self.0.push(n);
                self.0.push(0);
            }
            assert(self@ =~= old(self)@ + push_int_bytes(n));
        }
    }

    /// Reads the script from its first element on.
    pub fn iter(&self) -> (it: ScriptIter<'_>)
        ensures
            it.data@ == self@,
            it.pos == 0,
    {
        ScriptIter { data: self.0.as_slice(), pos: 0 }
    }

    /// Accepts exactly the scripts whose every push is complete.
    pub fn validate(&self) -> (r: Result<(), ScriptError>)
        ensures
            r == (if complete_from(self@, 0) {
                Ok::<(), ScriptError>(())
            } else {
                Err(ScriptError::TruncatedPush)
            }),
    {
        let mut it: ScriptIter<'_> = self.iter();
        while it.pos < self.0.len()
            invariant
                it.data@ == self@,
                complete_from(self@, 0) == complete_from(self@, it.pos as int),
            decreases self@.len() - it.pos,
        {
            match it.next() {
                Some(_) => {},
                None => {
                    return Err(ScriptError::TruncatedPush);
                },
            }
        }
        Ok(())
    }
}

impl From<Vec<u8>> for Script {
    fn from(v: Vec<u8>) -> (s: Self) {
        Script(v)
    }
}

impl vstd::std_specs::convert::FromSpecImpl<Vec<u8>> for Script {
    open spec fn obeys_from_spec() -> bool {
        true
    }

    open spec fn from_spec(v: Vec<u8>) -> Script {
        Script(v)
    }
}

impl From<Script> for Vec<u8> {
    fn from(s: Script) -> (v: Self) {
        s.0
    }
}

impl vstd::std_specs::convert::FromSpecImpl<Script> for Vec<u8> {
    open spec fn obeys_from_spec() -> bool {
        true
    }

    open spec fn from_spec(s: Script) -> Vec<u8> {
        s.0
    }
}

/// Where a script pushes `data`, reading it there gives back the push of `data`.
pub proof fn law_push_reads_back(before: Seq<u8>, data: Seq<u8>, after: Seq<u8>)
    requires
        data.len() <= MAX_PUSH_SIZE,
    ensures
        item_at(before + push_bytes(data) + after, before.len() as int) == Some(
            (Item::Push(data), (before.len() + push_bytes(data).len()) as int),
        ),
{
    let b = before + push_bytes(data) + after;
    let p = before.len() as int;
    if data.len() > 255 {
        lemma_pow256_values();
        lemma_le_roundtrip(data.len(), 2);
        assert(b.subrange(p + 1, p + 3) =~= le_digits(data.len(), 2));
        assert(b.subrange(p + 3, p + 3 + data.len()) =~= data);
    } else if data.len() > 75 {
        assert(b[p + 1] == data.len() as u8);
        assert(b.subrange(p + 2, p + 2 + data.len()) =~= data);
    } else if data.len() > 0 {
        assert(b.subrange(p + 1, p + 1 + data.len()) =~= data);
    } else {
        assert(data =~= Seq::<u8>::empty());
    }
}

} // verus!
