//! Pieces: how they are put together from blocks, checked, and laid out over files.
use crate::bytes::copy_range;
use crate::bytes::same_bytes;
use crate::crypto::sha1;
use crate::crypto::sha1_of;
use crate::torrent::metadata::ascending;
use crate::torrent::metadata::byte_views;
use crate::torrent::metadata::in_order;
use crate::torrent::metadata::in_piece_order;
use crate::torrent::metadata::join_in_order;
use crate::torrent::metadata::joined;
use crate::torrent::metadata::lemma_in_order;
use crate::torrent::metainfo::TorrentFile;
use std::collections::HashMap;
use vstd::prelude::*;

verus! {

// ---- from blocks to a piece ----

/// The blocks of a piece that have come.
pub ghost struct Assembly {
    /// The size of the piece.
    pub expected: u64,
    /// The blocks by their offset.
    pub blocks: Map<u32, Seq<u8>>,
    /// The bytes that have come.
    pub received: u64,
}

/// Puts blocks together to a piece.
#[derive(Debug)]
pub struct PieceAssembler {
    expected_length: u64,
    blocks: HashMap<u32, Vec<u8>>,
    received: u64,
}

impl View for PieceAssembler {
    type V = Assembly;

    closed spec fn view(&self) -> Assembly {
        Assembly {
            expected: self.expected_length,
            blocks: byte_views(self.blocks@),
            received: self.received,
        }
    }
}

/// No block of a piece of `expected` bytes.
pub open spec fn no_blocks(expected: u64) -> Assembly {
    Assembly { expected, blocks: Map::empty(), received: 0 }
}

/// The blocks after one more came. A second block at an offset is passed over.
pub open spec fn with_block(a: Assembly, begin: u32, data: Seq<u8>) -> Assembly {
    if a.blocks.dom().contains(begin) {
        a
    } else {
        Assembly {
            expected: a.expected,
            blocks: a.blocks.insert(begin, data),
            received: if a.received + data.len() > u64::MAX {
                u64::MAX
            } else {
                (a.received + data.len()) as u64
            },
        }
    }
}

/// Whether as many bytes have come as the piece has.
pub open spec fn all_received(a: Assembly) -> bool {
    a.received >= a.expected
}

/// The piece, once all of it has come.
pub open spec fn assembled(a: Assembly) -> Option<Seq<u8>> {
    if all_received(a) {
        Some(in_order(a.blocks))
    } else {
        None
    }
}

/// Whether the piece has come and has the digest `hash`.
pub open spec fn verified(a: Assembly, hash: Seq<u8>) -> bool {
    assembled(a) matches Some(data) && sha1_of(data) == hash
}

impl PieceAssembler {
    /// A piece of which nothing has come.
    pub fn new(_piece_index: u32, expected_length: u64) -> (r: Self)
        ensures
            r@ == no_blocks(expected_length),
    {
        let r: PieceAssembler = PieceAssembler {
            expected_length,
            blocks: HashMap::new(),
            received: 0,
        };
        assert(r@.blocks =~= Map::empty());
        r
    }

    /// Takes a block at an offset.
    pub fn add_block(&mut self, begin: u32, data: Vec<u8>)
        ensures
            final(self)@ == with_block(old(self)@, begin, data@),
    {
        broadcast use vstd::std_specs::hash::group_hash_axioms;

        if self.blocks.contains_key(&begin) {
            return ;
        }
        self.received = self.received.saturating_add(data.len() as u64);
        self.blocks.insert(begin, data);
        assert(self@.blocks =~= old(self)@.blocks.insert(begin, data@));
    }

    /// Whether as many bytes have come as the piece has.
    pub fn is_complete(&self) -> (r: bool)
        ensures
            r == all_received(self@),
    {
        self.received >= self.expected_length
    }

    /// The piece, once all of it has come: the blocks in the order of their offsets.
    pub fn assemble(&self) -> (r: Option<Vec<u8>>)
        ensures
            match assembled(self@) {
                Some(data) => r matches Some(v) && v@ == data,
                None => r is None,
            },
    {
        if !self.is_complete() {
            return None;
        }
        Some(join_in_order(&self.blocks))
    }

    /// Whether the piece has come and has the digest `expected_hash`.
    pub fn verify(&self, expected_hash: &[u8; 20]) -> (r: bool)
        ensures
            r == verified(self@, expected_hash@),
    {
        match self.assemble() {
            None => false,
            Some(data) => {
                let digest: [u8; 20] = sha1(data.as_slice());
                same_bytes(digest.as_slice(), expected_hash.as_slice())
            },
        }
    }
}

/// Where the block after the block `i` begins.
pub open spec fn block_end(keys: Seq<u32>, len: nat, i: int) -> int {
    if i + 1 < keys.len() {
        keys[i + 1] as int
    } else {
        len as int
    }
}

/// Whether `blocks`, which begin at `keys`, are `data` cut at these offsets.
pub open spec fn are_blocks_of(data: Seq<u8>, blocks: Map<u32, Seq<u8>>, keys: Seq<u32>) -> bool {
    &&& in_piece_order(blocks, keys)
    &&& keys.len() > 0
    &&& keys[0] == 0
    &&& keys.last() <= data.len()
    &&& forall|i: int|
        0 <= i < keys.len() ==> blocks[#[trigger] keys[i]] == data.subrange(
            keys[i] as int,
            block_end(keys, data.len(), i),
        )
}

proof fn lemma_blocks(data: Seq<u8>, blocks: Map<u32, Seq<u8>>, keys: Seq<u32>, n: nat)
    requires
        are_blocks_of(data, blocks, keys),
        0 < n <= keys.len(),
    ensures
        joined(blocks, keys.take(n as int)) == data.take(block_end(keys, data.len(), n - 1)),
    decreases n,
{
    let t = keys.take(n as int);
    assert(t.drop_last() =~= keys.take(n - 1));
    assert(t.last() == keys[n - 1]);
    let a = keys[n - 1] as int;
    let b = block_end(keys, data.len(), n - 1);
    if n - 1 < keys.len() - 1 {
        assert(keys[n - 1] < keys[n as int]);
        if n < keys.len() - 1 {
            assert(keys[n as int] < keys[keys.len() - 1]);
        }
        assert(keys[n as int] <= keys.last());
    }
    assert(blocks[keys[n - 1]] == data.subrange(a, b));
    if n > 1 {
        lemma_blocks(data, blocks, keys, (n - 1) as nat);
        assert(data.take(a) + data.subrange(a, b) =~= data.take(b));
    } else {
        assert(keys.take(0) =~= Seq::<u32>::empty());
        assert(joined(blocks, keys.take(0)) =~= Seq::<u8>::empty());
        assert(Seq::<u8>::empty() + data.subrange(0, b) =~= data.take(b));
    }
}

/// The blocks of a piece give the piece, in whatever order they came.
pub proof fn law_blocks_make_the_piece(
    data: Seq<u8>,
    blocks: Map<u32, Seq<u8>>,
    keys: Seq<u32>,
    a: Assembly,
)
    requires
        are_blocks_of(data, blocks, keys),
        a.blocks == blocks,
        all_received(a),
    ensures
        assembled(a) == Some(data),
        forall|hash: Seq<u8>| #[trigger] verified(a, hash) == (hash == sha1_of(data)),
{
    lemma_blocks(data, blocks, keys, keys.len());
    assert(keys.take(keys.len() as int) =~= keys);
    assert(data.take(data.len() as int) =~= data);
    lemma_in_order(blocks, keys);
}

/// The order in which two blocks come makes no difference.
pub proof fn law_block_order_is_free(a: Assembly, i: u32, x: Seq<u8>, j: u32, y: Seq<u8>)
    requires
        i != j,
    ensures
        with_block(with_block(a, i, x), j, y) == with_block(with_block(a, j, y), i, x),
{
    let p = with_block(with_block(a, i, x), j, y);
    let q = with_block(with_block(a, j, y), i, x);
    assert(p.blocks =~= q.blocks);
}

/// Whether `keys` are where `data` is cut into blocks that are not empty.
pub open spec fn is_cut(data: Seq<u8>, keys: Seq<u32>) -> bool {
    &&& ascending(keys)
    &&& if keys.len() == 0 {
        data.len() == 0
    } else {
        keys[0] == 0 && keys.last() < data.len()
    }
}

/// The block `i` of `data` cut at `keys`.
pub open spec fn block_at(data: Seq<u8>, keys: Seq<u32>, i: int) -> Seq<u8> {
    data.subrange(keys[i] as int, block_end(keys, data.len(), i))
}

/// What a piece has once these of its blocks came, one after the other.
pub open spec fn after_given(data: Seq<u8>, keys: Seq<u32>, given: Seq<int>) -> Assembly
    decreases given.len(),
{
    if given.len() == 0 {
        no_blocks(data.len() as u64)
    } else {
        with_block(
            after_given(data, keys, given.drop_last()),
            keys[given.last()],
            block_at(data, keys, given.last()),
        )
    }
}

/// How many bytes those of the first `n` blocks have that are among `given`.
spec fn bytes_given(data: Seq<u8>, keys: Seq<u32>, given: Seq<int>, n: nat) -> int
    decreases n,
{
    if n == 0 {
        0
    } else {
        bytes_given(data, keys, given, (n - 1) as nat) + if given.contains(n - 1) {
            block_at(data, keys, n - 1).len() as int
        } else {
            0
        }
    }
}

proof fn lemma_cut_bounds(data: Seq<u8>, keys: Seq<u32>, i: int)
    requires
        is_cut(data, keys),
        0 <= i < keys.len(),
    ensures
        keys[i] < block_end(keys, data.len(), i) <= data.len(),
        block_at(data, keys, i).len() == block_end(keys, data.len(), i) - keys[i],
{
    if i + 1 < keys.len() {
        assert(keys[i] < keys[i + 1]);
        if i + 1 < keys.len() - 1 {
            assert(keys[i + 1] < keys[keys.len() - 1]);
        }
    }
}

/// The first blocks have no more bytes than lie before the next, and as many exactly where all of
/// them are given.
proof fn lemma_bytes_given(data: Seq<u8>, keys: Seq<u32>, given: Seq<int>, n: nat)
    requires
        is_cut(data, keys),
        n <= keys.len(),
    ensures
        ({
            let end = if n == 0 {
                0
            } else {
                block_end(keys, data.len(), n - 1)
            };
            &&& 0 <= bytes_given(data, keys, given, n) <= end
            &&& bytes_given(data, keys, given, n) == end <==> forall|i: int|
                0 <= i < n ==> #[trigger] given.contains(i)
        }),
    decreases n,
{
    if n > 0 {
        lemma_bytes_given(data, keys, given, (n - 1) as nat);
        lemma_cut_bounds(data, keys, n - 1);
        let before: int = if n == 1 {
            0
        } else {
            block_end(keys, data.len(), n - 2)
        };
        assert(before == keys[n - 1]);
        if forall|i: int| 0 <= i < n ==> #[trigger] given.contains(i) {
            assert(given.contains(n - 1));
        } else if given.contains(n - 1) {
            let i = choose|i: int| 0 <= i < n && !#[trigger] given.contains(i);
            assert(0 <= i < n - 1);
        }
    }
}

proof fn lemma_one_more_given(data: Seq<u8>, keys: Seq<u32>, given: Seq<int>, j: int, n: nat)
    requires
        0 <= j,
    ensures
        bytes_given(data, keys, given.push(j), n) == bytes_given(data, keys, given, n) + if j < n
            && !given.contains(j) {
            block_at(data, keys, j).len() as int
        } else {
            0
        },
    decreases n,
{
    if n > 0 {
        lemma_one_more_given(data, keys, given, j, (n - 1) as nat);
        let more = given.push(j);
        let k = n - 1;
        assert(more[given.len() as int] == j);
        if given.contains(k) {
            let i = choose|i: int| 0 <= i < given.len() && given[i] == k;
            assert(more[i] == k);
        }
        if more.contains(k) && k != j {
            let i = choose|i: int| 0 <= i < more.len() && more[i] == k;
            assert(given[i] == k);
        }
    }
}

proof fn lemma_after_given(data: Seq<u8>, keys: Seq<u32>, given: Seq<int>)
    requires
        is_cut(data, keys),
        data.len() <= u64::MAX,
        forall|i: int| 0 <= i < given.len() ==> 0 <= #[trigger] given[i] < keys.len(),
    ensures
        ({
            let a = after_given(data, keys, given);
            &&& a.expected == data.len()
            &&& a.received == bytes_given(data, keys, given, keys.len())
            &&& forall|i: int|
                0 <= i < keys.len() ==> (a.blocks.dom().contains(#[trigger] keys[i])
                    <==> given.contains(i))
            &&& forall|k: u32| #[trigger] a.blocks.dom().contains(k) ==> keys.contains(k)
            &&& forall|i: int|
                0 <= i < keys.len() && given.contains(i) ==> a.blocks[#[trigger] keys[i]]
                    == block_at(data, keys, i)
        }),
    decreases given.len(),
{
    let n = keys.len();
    if given.len() == 0 {
        lemma_bytes_given(data, keys, given, n);
        lemma_none_given(data, keys, given, n);
    } else {
        let before = given.drop_last();
        let j = given.last();
        assert(0 <= given[given.len() - 1] < n);
        assert forall|i: int| 0 <= i < before.len() implies 0 <= #[trigger] before[i] < n by {
            assert(before[i] == given[i]);
        }
        lemma_after_given(data, keys, before);
        assert(before.push(j) =~= given);
        lemma_one_more_given(data, keys, before, j, n);
        lemma_bytes_given(data, keys, given, n);
        lemma_bytes_given(data, keys, before, n);
        let end = if n == 0 {
            0
        } else {
            block_end(keys, data.len(), n - 1)
        };
        assert(end <= data.len());
        let b = after_given(data, keys, before);
        let a = after_given(data, keys, given);
        assert(given[given.len() - 1] == j);
        assert(given.contains(j));
        assert forall|i: int| 0 <= i < n implies (a.blocks.dom().contains(#[trigger] keys[i])
            <==> given.contains(i)) by {
            if i != j {
                if i < j {
                    assert(keys[i] < keys[j]);
                } else {
                    assert(keys[j] < keys[i]);
                }
                lemma_contains_drop_last(given, i);
            }
        }
        assert forall|i: int| 0 <= i < n && given.contains(i) implies a.blocks[#[trigger] keys[i]]
            == block_at(data, keys, i) by {
            if i != j {
                if i < j {
                    assert(keys[i] < keys[j]);
                } else {
                    assert(keys[j] < keys[i]);
                }
                lemma_contains_drop_last(given, i);
            } else if b.blocks.dom().contains(keys[j]) {
                assert(before.contains(j));
            }
        }
        assert forall|k: u32| #[trigger] a.blocks.dom().contains(k) implies keys.contains(k) by {
            if k == keys[j] {
                assert(keys.contains(keys[j]));
            } else {
                assert(b.blocks.dom().contains(k));
            }
        }
    }
}

proof fn lemma_contains_drop_last(s: Seq<int>, x: int)
    requires
        s.len() > 0,
        x != s.last(),
    ensures
        s.contains(x) == s.drop_last().contains(x),
{
    if s.contains(x) {
        let i = choose|i: int| 0 <= i < s.len() && s[i] == x;
        assert(s.drop_last()[i] == x);
    }
    if s.drop_last().contains(x) {
        let i = choose|i: int| 0 <= i < s.len() - 1 && s.drop_last()[i] == x;
        assert(s[i] == x);
    }
}

proof fn lemma_none_given(data: Seq<u8>, keys: Seq<u32>, given: Seq<int>, n: nat)
    requires
        given.len() == 0,
    ensures
        bytes_given(data, keys, given, n) == 0,
    decreases n,
{
    if n > 0 {
        lemma_none_given(data, keys, given, (n - 1) as nat);
    }
}

/// However a piece is cut, its blocks give it once each of them came, in whatever order and
/// however often, and nothing is given while one is missing.
pub proof fn law_any_order_makes_the_piece(data: Seq<u8>, keys: Seq<u32>, given: Seq<int>)
    requires
        is_cut(data, keys),
        data.len() <= u64::MAX,
        forall|i: int| 0 <= i < given.len() ==> 0 <= #[trigger] given[i] < keys.len(),
    ensures
        assembled(after_given(data, keys, given)) == if forall|i: int|
            0 <= i < keys.len() ==> #[trigger] given.contains(i) {
            Some(data)
        } else {
            None
        },
{
    let a = after_given(data, keys, given);
    lemma_after_given(data, keys, given);
    lemma_bytes_given(data, keys, given, keys.len());
    if forall|i: int| 0 <= i < keys.len() ==> #[trigger] given.contains(i) {
        assert forall|k: u32| #[trigger] keys.contains(k) <==> a.blocks.dom().contains(k) by {
            if keys.contains(k) {
                let i = choose|i: int| 0 <= i < keys.len() && keys[i] == k;
                assert(given.contains(i));
                assert(a.blocks.dom().contains(keys[i]));
            }
        }
        if keys.len() == 0 {
            lemma_in_order(a.blocks, keys);
            assert(data =~= Seq::<u8>::empty());
        } else {
            assert forall|i: int| 0 <= i < keys.len() implies a.blocks[#[trigger] keys[i]]
                == data.subrange(keys[i] as int, block_end(keys, data.len(), i)) by {
                assert(given.contains(i));
            }
            law_blocks_make_the_piece(data, a.blocks, keys, a);
        }
    }
}

// ---- from a piece to files ----

/// The part of a piece that lies in one file.
pub ghost struct Segment {
    /// The file.
    pub file: int,
    /// Where the part begins in the file.
    pub offset: int,
    /// Where the part begins in the piece.
    pub from: int,
    /// The size of the part.
    pub len: int,
}

/// Where the file `i` begins when all files stand one after the other.
pub open spec fn file_start(lens: Seq<u64>, i: nat) -> int
    decreases i,
{
    if i == 0 {
        0
    } else {
        file_start(lens, (i - 1) as nat) + lens[i - 1] as int
    }
}

/// The parts that the bytes from `start` to `end` have in the first `n` files.
pub open spec fn segments(lens: Seq<u64>, start: int, end: int, n: nat) -> Seq<Segment>
    decreases n,
{
    if n == 0 {
        Seq::empty()
    } else {
        let before = segments(lens, start, end, (n - 1) as nat);
        let file = file_start(lens, (n - 1) as nat);
        let s = if start > file {
            start
        } else {
            file
        };
        let e = if end < file + lens[n - 1] {
            end
        } else {
            file + lens[n - 1]
        };
        if e > s {
            before.push(Segment { file: n - 1, offset: s - file, from: s - start, len: e - s })
        } else {
            before
        }
    }
}

/// The parts of a piece of `len` bytes at `index`.
pub open spec fn piece_parts(lens: Seq<u64>, piece_length: u64, index: u32, len: int) -> Seq<
    Segment,
> {
    let start = index * piece_length;
    segments(lens, start, start + len, lens.len())
}

/// The sizes of files.
pub open spec fn file_lengths(files: Seq<TorrentFile>) -> Seq<u64> {
    files.map_values(|f: TorrentFile| f.length)
}

/// Where pieces lie in the files of a torrent.
#[derive(Debug)]
pub struct FileLayout {
    lengths: Vec<u64>,
    piece_length: u64,
}

proof fn lemma_file_start(lens: Seq<u64>, i: nat)
    requires
        i <= lens.len(),
    ensures
        0 <= file_start(lens, i) <= i * u64::MAX,
    decreases i,
{
    if i > 0 {
        lemma_file_start(lens, (i - 1) as nat);
        assert(i * u64::MAX == (i - 1) * u64::MAX + u64::MAX) by (nonlinear_arith);
    }
}

proof fn lemma_segments(lens: Seq<u64>, start: int, end: int, n: nat)
    requires
        n <= lens.len(),
        0 <= start <= end,
    ensures
        forall|k: int|
            0 <= k < segments(lens, start, end, n).len() ==> ({
                let g = #[trigger] segments(lens, start, end, n)[k];
                &&& 0 <= g.file < n
                &&& 0 <= g.offset
                &&& 0 < g.len
                &&& g.offset + g.len <= lens[g.file]
                &&& 0 <= g.from
                &&& g.from + g.len <= end - start
            }),
        forall|k: int, m: int|
            0 <= k < m < segments(lens, start, end, n).len() ==> (#[trigger] segments(
                lens,
                start,
                end,
                n,
            )[k]).file < (#[trigger] segments(lens, start, end, n)[m]).file,
    decreases n,
{
    if n > 0 {
        lemma_segments(lens, start, end, (n - 1) as nat);
        lemma_file_start(lens, (n - 1) as nat);
        let now = segments(lens, start, end, n);
        let before = segments(lens, start, end, (n - 1) as nat);
        assert forall|k: int| 0 <= k < now.len() implies ({
            let g = #[trigger] now[k];
            &&& 0 <= g.file < n
            &&& 0 <= g.offset
            &&& 0 < g.len
            &&& g.offset + g.len <= lens[g.file]
            &&& 0 <= g.from
            &&& g.from + g.len <= end - start
        }) by {
            if k < before.len() {
                assert(now[k] == before[k]);
            }
        }
        assert forall|k: int, m: int| 0 <= k < m < now.len() implies (#[trigger] now[k]).file < (
        #[trigger] now[m]).file by {
            assert(now[k] == before[k]);
            if m < before.len() {
                assert(now[m] == before[m]);
            }
        }
    }
}

impl FileLayout {
    /// The sizes of the files.
    pub closed spec fn lens(&self) -> Seq<u64> {
        self.lengths@
    }

    /// The size of a piece.
    pub closed spec fn size(&self) -> u64 {
        self.piece_length
    }

    /// The layout of `files` in pieces of `piece_length` bytes.
    pub fn new(files: &[TorrentFile], piece_length: u64) -> (r: Self)
        ensures
            r.lens() == file_lengths(files@),
            r.size() == piece_length,
    {
        let mut lengths: Vec<u64> = Vec::new();
        let mut i: usize = 0;
        while i < files.len()
            invariant
                i <= files.len(),
                lengths@.len() == i,
                forall|k: int| 0 <= k < i ==> #[trigger] lengths@[k] == files@[k].length,
            decreases files.len() - i,
        {
            lengths.push(files[i].length);
            i = i + 1;
        }
        assert(lengths@ =~= file_lengths(files@));
        FileLayout { lengths, piece_length }
    }

    fn parts(&self, piece_index: u32, len: u64) -> (r: Vec<(usize, u64, u64, u64)>)
        ensures
            r@.len() == piece_parts(self.lens(), self.size(), piece_index, len as int).len(),
            forall|k: int|
                0 <= k < r@.len() ==> ({
                    let g = piece_parts(self.lens(), self.size(), piece_index, len as int)[k];
                    let t = #[trigger] r@[k];
                    t.0 == g.file && t.1 == g.offset && t.2 == g.from && t.3 == g.len
                }),
    {
        let ghost lens = self.lens();
        proof {
            assert(piece_index * self.piece_length <= 0xffff_ffff * 0xffff_ffff_ffff_ffff)
                by (nonlinear_arith)
                requires
                    piece_index <= 0xffff_ffff,
                    self.piece_length <= 0xffff_ffff_ffff_ffff,
            ;
        }
        let start: u128 = piece_index as u128 * self.piece_length as u128;
        let end: u128 = start + len as u128;
        let mut r: Vec<(usize, u64, u64, u64)> = Vec::new();
        let mut file: u128 = 0;
        let mut i: usize = 0;
        while i < self.lengths.len()
            invariant
                i <= self.lengths@.len(),
                lens == self.lengths@,
                start <= end,
                end == start + len,
                file == file_start(lens, i as nat),
                r@.len() == segments(lens, start as int, end as int, i as nat).len(),
                forall|k: int|
                    0 <= k < r@.len() ==> ({
                        let g = segments(lens, start as int, end as int, i as nat)[k];
                        let t = #[trigger] r@[k];
                        t.0 == g.file && t.1 == g.offset && t.2 == g.from && t.3 == g.len
                    }),
            decreases self.lengths@.len() - i,
        {
            let size: u64 = self.lengths[i];
            assert(i < self.lengths.len());
            proof {
                lemma_file_start(lens, (i + 1) as nat);
                assert((i + 1) * u64::MAX <= 0xffff_ffff_ffff_ffff * 0xffff_ffff_ffff_ffff)
                    by (nonlinear_arith)
                    requires
                        i + 1 <= 0xffff_ffff_ffff_ffff,
                ;
            }
            let file_end: u128 = file + size as u128;
            let s: u128 = if start > file {
                start
            } else {
                file
            };
            let e: u128 = if end < file_end {
                end
            } else {
                file_end
            };
            if e > s {
                r.push((i, (s - file) as u64, (s - start) as u64, (e - s) as u64));
            }
            file = file_end;
            i = i + 1;
        }
        r
    }

    /// The parts of a piece: the file, where the part begins in it, and the bytes.
    pub fn piece_segments(&self, piece_index: u32, piece_data: &[u8]) -> (r: Vec<
        (usize, u64, Vec<u8>),
    >)
        ensures
            is_split(
                r@,
                piece_parts(self.lens(), self.size(), piece_index, piece_data@.len() as int),
                piece_data@,
            ),
    {
        let parts: Vec<(usize, u64, u64, u64)> = self.parts(piece_index, piece_data.len() as u64);
        let ghost g = piece_parts(self.lens(), self.size(), piece_index, piece_data@.len() as int);
        proof {
            let start = piece_index * self.piece_length;
            assert(start >= 0) by (nonlinear_arith)
                requires
                    start == piece_index * self.piece_length,
            ;
            lemma_segments(self.lens(), start, start + piece_data@.len(), self.lens().len());
        }
        let mut r: Vec<(usize, u64, Vec<u8>)> = Vec::new();
        let mut i: usize = 0;
        while i < parts.len()
            invariant
                i <= parts@.len(),
                parts@.len() == g.len(),
                r@.len() == i,
                forall|k: int|
                    0 <= k < parts@.len() ==> ({
                        let t = #[trigger] parts@[k];
                        t.0 == g[k].file && t.1 == g[k].offset && t.2 == g[k].from && t.3
                            == g[k].len
                    }),
                forall|k: int|
                    0 <= k < g.len() ==> 0 <= (#[trigger] g[k]).from && g[k].len > 0 && g[k].from
                        + g[k].len <= piece_data@.len(),
                forall|k: int|
                    0 <= k < i ==> (#[trigger] r@[k]).0 == g[k].file && r@[k].1 == g[k].offset
                        && r@[k].2@ == piece_data@.subrange(g[k].from, g[k].from + g[k].len),
            decreases parts@.len() - i,
        {
            let t: (usize, u64, u64, u64) = parts[i];
            assert(g[i as int].from + g[i as int].len <= piece_data@.len());
            assert(piece_data@.len() == piece_data.len());
            let from: usize = t.2 as usize;
            let to: usize = from + t.3 as usize;
            r.push((t.0, t.1, copy_range(piece_data, from, to)));
            i = i + 1;
        }
        r
    }

    /// The parts of a piece of `piece_len` bytes: the file, where the part begins in it, and its
    /// size.
    pub fn piece_segment_ranges(&self, piece_index: u32, piece_len: u64) -> (r: Vec<
        (usize, u64, u64),
    >)
        ensures
            are_ranges(
                r@,
                piece_parts(self.lens(), self.size(), piece_index, piece_len as int),
            ),
    {
        let parts: Vec<(usize, u64, u64, u64)> = self.parts(piece_index, piece_len);
        let mut r: Vec<(usize, u64, u64)> = Vec::new();
        let mut i: usize = 0;
        while i < parts.len()
            invariant
                i <= parts@.len(),
                r@.len() == i,
                forall|k: int|
                    0 <= k < i ==> (#[trigger] r@[k]).0 == parts@[k].0 && r@[k].1 == parts@[k].1
                        && r@[k].2 == parts@[k].3,
            decreases parts@.len() - i,
        {
            r.push((parts[i].0, parts[i].1, parts[i].3));
            i = i + 1;
        }
        r
    }
}

/// Whether `r` holds the bytes of each part.
pub open spec fn is_split(r: Seq<(usize, u64, Vec<u8>)>, g: Seq<Segment>, data: Seq<u8>) -> bool {
    &&& r.len() == g.len()
    &&& forall|k: int|
        0 <= k < r.len() ==> (#[trigger] r[k]).0 == g[k].file && r[k].1 == g[k].offset && r[k].2@
            == data.subrange(g[k].from, g[k].from + g[k].len)
}

/// Whether `r` holds the place and size of each part.
pub open spec fn are_ranges(r: Seq<(usize, u64, u64)>, g: Seq<Segment>) -> bool {
    &&& r.len() == g.len()
    &&& forall|k: int|
        0 <= k < r.len() ==> (#[trigger] r[k]).0 == g[k].file && r[k].1 == g[k].offset && r[k].2
            == g[k].len
}

/// The bytes of parts, one after the other.
pub open spec fn parts_joined(g: Seq<Segment>, data: Seq<u8>) -> Seq<u8>
    decreases g.len(),
{
    if g.len() == 0 {
        Seq::empty()
    } else {
        parts_joined(g.drop_last(), data) + data.subrange(
            g.last().from,
            g.last().from + g.last().len,
        )
    }
}

/// How much of the bytes from `start` to `end` the first `n` files hold.
pub open spec fn covered(lens: Seq<u64>, start: int, end: int, n: nat) -> int {
    let reach = file_start(lens, n);
    if reach <= start {
        0
    } else if reach >= end {
        end - start
    } else {
        reach - start
    }
}

proof fn lemma_covered(lens: Seq<u64>, start: int, end: int, n: nat, data: Seq<u8>)
    requires
        n <= lens.len(),
        0 <= start <= end,
        data.len() == end - start,
    ensures
        parts_joined(segments(lens, start, end, n), data) == data.take(
            covered(lens, start, end, n),
        ),
    decreases n,
{
    if n > 0 {
        let g = segments(lens, start, end, n);
        let before = segments(lens, start, end, (n - 1) as nat);
        lemma_covered(lens, start, end, (n - 1) as nat, data);
        let a = covered(lens, start, end, (n - 1) as nat);
        let b = covered(lens, start, end, n);
        if g.len() > before.len() {
            assert(g.drop_last() =~= before);
            assert(g.last().from == a);
            assert(data.take(a) + data.subrange(a, b) =~= data.take(b));
        }
    } else {
        assert(data.take(0) =~= Seq::<u8>::empty());
    }
}

/// Every part of a piece lies in a file, and the parts go from file to file.
pub proof fn lemma_parts(lens: Seq<u64>, piece_length: u64, index: u32, len: int)
    requires
        0 <= len,
    ensures
        ({
            let g = piece_parts(lens, piece_length, index, len);
            &&& forall|k: int|
                0 <= k < g.len() ==> ({
                    let s = #[trigger] g[k];
                    &&& 0 <= s.file < lens.len()
                    &&& 0 <= s.offset
                    &&& 0 < s.len
                    &&& s.offset + s.len <= lens[s.file]
                    &&& 0 <= s.from
                    &&& s.from + s.len <= len
                })
            &&& forall|k: int, m: int|
                0 <= k < m < g.len() ==> (#[trigger] g[k]).file < (#[trigger] g[m]).file
        }),
{
    let start = index * piece_length;
    assert(start >= 0) by (nonlinear_arith)
        requires
            start == index * piece_length,
    ;
    lemma_segments(lens, start, start + len, lens.len());
}

/// The parts of a piece give back, one after the other, as much of it as the files hold: all of it
/// where it ends inside them. Every part lies inside its file, and the parts go from file to file.
pub proof fn law_parts_make_the_piece(lens: Seq<u64>, piece_length: u64, index: u32, data: Seq<u8>)
    ensures
        ({
            let g = piece_parts(lens, piece_length, index, data.len() as int);
            let start = index * piece_length;
            let end = start + data.len();
            &&& parts_joined(g, data) == data.take(covered(lens, start, end, lens.len()))
            &&& end <= file_start(lens, lens.len()) ==> parts_joined(g, data) == data
            &&& forall|k: int|
                0 <= k < g.len() ==> (#[trigger] g[k]).offset + g[k].len <= lens[g[k].file]
            &&& forall|k: int, m: int|
                0 <= k < m < g.len() ==> (#[trigger] g[k]).file < (#[trigger] g[m]).file
        }),
{
    let start = index * piece_length;
    assert(start >= 0) by (nonlinear_arith)
        requires
            start == index * piece_length,
    ;
    let end = start + data.len();
    lemma_covered(lens, start, end, lens.len(), data);
    lemma_segments(lens, start, end, lens.len());
    assert(data.take(data.len() as int) =~= data);
    if data.len() == 0 {
        assert(data.take(0) =~= data);
    }
}

} // verus!
