//! Which piece is asked for next, and what is downloaded already.
use crate::bytes::same_bytes;
use crate::torrent::disk::piece_length;
use crate::torrent::disk::piece_size;
use crate::torrent::metainfo::Meta;
use crate::torrent::metainfo::Metainfo;
use vstd::prelude::*;

verus! {

/// The size of the blocks in which pieces are asked for.
pub const BLOCK_SIZE: u32 = 16_384;

/// The number of blocks that a peer is asked for at a time.
pub const PIPELINED_BLOCKS: usize = 10;

/// What the bit `k` of a byte counts, the first being the most significant.
pub open spec fn bit_weight(k: int) -> int {
    if k == 0 {
        128
    } else if k == 1 {
        64
    } else if k == 2 {
        32
    } else if k == 3 {
        16
    } else if k == 4 {
        8
    } else if k == 5 {
        4
    } else if k == 6 {
        2
    } else {
        1
    }
}

/// Whether the bit `k` of a byte is set, the first being the most significant.
pub open spec fn bit_set(b: u8, k: int) -> bool {
    (b as int / bit_weight(k)) % 2 == 1
}

/// The first `n` bits of a bitfield, false where it is too short.
pub open spec fn bits_of(bytes: Seq<u8>, n: nat) -> Seq<bool> {
    Seq::new(n, |i: int| i / 8 < bytes.len() && bit_set(bytes[i / 8], i % 8))
}

/// What a piece adds to the byte that holds its bit.
pub open spec fn bit_value(have: Seq<bool>, i: int) -> int {
    if i < have.len() && have[i] {
        bit_weight(i % 8)
    } else {
        0
    }
}

/// The byte that holds the bits of eight pieces.
pub open spec fn bitfield_byte(have: Seq<bool>, j: int) -> int {
    bit_value(have, 8 * j) + bit_value(have, 8 * j + 1) + bit_value(have, 8 * j + 2) + bit_value(
        have,
        8 * j + 3,
    ) + bit_value(have, 8 * j + 4) + bit_value(have, 8 * j + 5) + bit_value(have, 8 * j + 6)
        + bit_value(have, 8 * j + 7)
}

/// A bitfield: one bit per piece, the most significant first.
pub open spec fn bitfield(have: Seq<bool>) -> Seq<u8> {
    Seq::new((have.len() + 7) as nat / 8, |j: int| bitfield_byte(have, j) as u8)
}

/// What is known of the pieces of a torrent.
pub ghost struct Pieces {
    /// The pieces downloaded.
    pub have: Seq<bool>,
    /// The pieces asked for.
    pub requested: Seq<bool>,
    /// The peers, and the pieces that each has.
    pub peers: Seq<(Seq<u8>, Seq<bool>)>,
}

/// The pieces of a torrent: which are there, which are asked for, and who has them.
#[derive(Debug)]
pub struct PieceTracker {
    piece_count: u32,
    have: Vec<bool>,
    requested: Vec<bool>,
    peer_pieces: Vec<([u8; 20], Vec<bool>)>,
}

/// No two entries belong to one peer.
pub open spec fn distinct_peers(s: Seq<(Seq<u8>, Seq<bool>)>) -> bool {
    forall|i: int, j: int| 0 <= i < j < s.len() ==> (#[trigger] s[i]).0 != (#[trigger] s[j]).0
}

/// The position of a peer, the number of peers where it is not known.
pub open spec fn peer_position(s: Seq<(Seq<u8>, Seq<bool>)>, id: Seq<u8>) -> nat
    decreases s.len(),
{
    if s.len() == 0 {
        0
    } else if s[0].0 == id {
        0
    } else {
        1 + peer_position(s.skip(1), id)
    }
}

/// The peers with `bits` for the peer `id`.
pub open spec fn with_peer(
    s: Seq<(Seq<u8>, Seq<bool>)>,
    id: Seq<u8>,
    bits: Seq<bool>,
) -> Seq<(Seq<u8>, Seq<bool>)> {
    let at = peer_position(s, id);
    if at < s.len() {
        s.update(at as int, (id, bits))
    } else {
        s.push((id, bits))
    }
}

/// The pieces that a peer has, none where it is not known.
pub open spec fn peer_bits(p: Pieces, id: Seq<u8>) -> Seq<bool> {
    let at = peer_position(p.peers, id);
    if at < p.peers.len() {
        p.peers[at as int].1
    } else {
        Seq::new(p.have.len(), |i: int| false)
    }
}

/// Whether an entry holds the piece `index`.
pub open spec fn holds(e: (Seq<u8>, Seq<bool>), index: int) -> bool {
    0 <= index < e.1.len() && e.1[index]
}

/// The number of peers that have the piece `index`.
pub open spec fn availability(p: Pieces, index: int) -> nat {
    p.peers.filter(|e: (Seq<u8>, Seq<bool>)| holds(e, index)).len()
}

/// Whether the piece `index` is missing, not asked for, and to be had from a peer.
pub open spec fn wanted(p: Pieces, index: int) -> bool {
    &&& 0 <= index < p.have.len()
    &&& !p.have[index]
    &&& !p.requested[index]
    &&& availability(p, index) > 0
}

/// Whether `r` is the rarest piece wanted, the first of those that are equally rare.
pub open spec fn is_rarest(p: Pieces, r: Option<u32>) -> bool {
    match r {
        Some(i) => {
            &&& wanted(p, i as int)
            &&& forall|j: int|
                #[trigger] wanted(p, j) ==> availability(p, i as int) < availability(p, j) || (
                availability(p, i as int) == availability(p, j) && i <= j)
        },
        None => forall|j: int| !#[trigger] wanted(p, j),
    }
}

/// The entry of a peer as it reads.
pub open spec fn peer_entry(e: ([u8; 20], Vec<bool>)) -> (Seq<u8>, Seq<bool>) {
    (e.0@, e.1@)
}

/// The entries of peers as they read.
pub open spec fn peer_entries(s: Seq<([u8; 20], Vec<bool>)>) -> Seq<(Seq<u8>, Seq<bool>)> {
    s.map_values(|e: ([u8; 20], Vec<bool>)| peer_entry(e))
}

/// What holds of the pieces of every torrent.
pub open spec fn sound(p: Pieces) -> bool {
    &&& p.requested.len() == p.have.len()
    &&& p.have.len() <= u32::MAX
    &&& distinct_peers(p.peers)
    &&& forall|i: int| 0 <= i < p.peers.len() ==> (#[trigger] p.peers[i]).1.len() == p.have.len()
}

fn weight(k: usize) -> (r: u8)
    requires
        k < 8,
    ensures
        r == bit_weight(k as int),
{
    if k == 0 {
        128
    } else if k == 1 {
        64
    } else if k == 2 {
        32
    } else if k == 3 {
        16
    } else if k == 4 {
        8
    } else if k == 5 {
        4
    } else if k == 6 {
        2
    } else {
        1
    }
}

fn test_bit(bytes: &[u8], i: usize) -> (r: bool)
    ensures
        r == (i as int / 8 < bytes@.len() && bit_set(bytes@[i as int / 8], i as int % 8)),
{
    let at: usize = i / 8;
    if at < bytes.len() {
        (bytes[at] / weight(i % 8)) % 2 == 1
    } else {
        false
    }
}

fn no_bits(n: u32) -> (r: Vec<bool>)
    ensures
        r@ == Seq::new(n as nat, |i: int| false),
{
    let mut v: Vec<bool> = Vec::new();
    let mut i: u32 = 0;
    while i < n
        invariant
            i <= n,
            v@.len() == i,
            forall|k: int| 0 <= k < i ==> !#[trigger] v@[k],
        decreases n - i,
    {
        v.push(false);
        i = i + 1;
    }
    assert(v@ =~= Seq::new(n as nat, |i: int| false));
    v
}

proof fn lemma_peer_position(s: Seq<(Seq<u8>, Seq<bool>)>, id: Seq<u8>, at: nat)
    requires
        at <= s.len(),
        forall|k: int| 0 <= k < at ==> (#[trigger] s[k]).0 != id,
        at < s.len() ==> s[at as int].0 == id,
    ensures
        peer_position(s, id) == at,
    decreases s.len(),
{
    if s.len() > 0 && at > 0 {
        assert(s[0].0 != id);
        let t = s.skip(1);
        assert forall|k: int| 0 <= k < at - 1 implies (#[trigger] t[k]).0 != id by {
            assert(t[k] == s[k + 1]);
        }
        lemma_peer_position(t, id, (at - 1) as nat);
    }
}

proof fn lemma_peer_found(s: Seq<(Seq<u8>, Seq<bool>)>, id: Seq<u8>)
    ensures
        ({
            let at = peer_position(s, id);
            &&& at <= s.len()
            &&& at < s.len() ==> s[at as int].0 == id
            &&& forall|k: int| 0 <= k < at ==> (#[trigger] s[k]).0 != id
        }),
    decreases s.len(),
{
    if s.len() > 0 && s[0].0 != id {
        let t = s.skip(1);
        lemma_peer_found(t, id);
        let at = peer_position(s, id);
        assert forall|k: int| 0 <= k < at implies (#[trigger] s[k]).0 != id by {
            if k > 0 {
                assert(t[k - 1] == s[k]);
            }
        }
    }
}

impl PieceTracker {
    /// What the tracker knows.
    pub closed spec fn pieces(&self) -> Pieces {
        Pieces {
            have: self.have@,
            requested: self.requested@,
            peers: peer_entries(self.peer_pieces@),
        }
    }

    /// What holds of every tracker.
    pub closed spec fn wf(&self) -> bool {
        sound(self.pieces()) && self.have@.len() == self.piece_count
    }

    /// What a tracker knows is sound.
    pub proof fn lemma_sound(&self)
        requires
            self.wf(),
        ensures
            sound(self.pieces()),
    {
    }

    /// No piece is there, none is asked for, and no peer is known.
    pub fn new(piece_count: u32) -> (r: Self)
        ensures
            r.wf(),
            r.pieces() == (Pieces {
                have: Seq::new(piece_count as nat, |i: int| false),
                requested: Seq::new(piece_count as nat, |i: int| false),
                peers: Seq::empty(),
            }),
    {
        let r: PieceTracker = PieceTracker {
            piece_count,
            have: no_bits(piece_count),
            requested: no_bits(piece_count),
            peer_pieces: Vec::new(),
        };
        assert(r.pieces().peers =~= Seq::empty());
        r
    }

    /// Whether the piece `index` is there.
    pub fn has(&self, index: u32) -> (r: bool)
        ensures
            r == (index < self.pieces().have.len() && self.pieces().have[index as int]),
    {
        (index as usize) < self.have.len() && self.have[index as usize]
    }

    /// Notes that a piece was downloaded.
    pub fn mark_have(&mut self, index: u32)
        requires
            old(self).wf(),
        ensures
            final(self).wf(),
            final(self).pieces() == marked(old(self).pieces(), index as int),
    {
        let ghost before = self.pieces();
        if (index as usize) < self.have.len() {
            self.have.set(index as usize, true);
            self.requested.set(index as usize, false);
        }
        assert(self.pieces().peers == before.peers);
    }

    /// Notes that a piece was asked for.
    pub fn mark_requested(&mut self, index: u32)
        requires
            old(self).wf(),
        ensures
            final(self).wf(),
            final(self).pieces() == asked(old(self).pieces(), index as int, true),
    {
        let ghost before = self.pieces();
        if (index as usize) < self.requested.len() {
            self.requested.set(index as usize, true);
        }
        assert(self.pieces().peers == before.peers);
    }

    /// Notes that a piece is not asked for any more.
    pub fn clear_requested(&mut self, index: u32)
        requires
            old(self).wf(),
        ensures
            final(self).wf(),
            final(self).pieces() == asked(old(self).pieces(), index as int, false),
    {
        let ghost before = self.pieces();
        if (index as usize) < self.requested.len() {
            self.requested.set(index as usize, false);
        }
        assert(self.pieces().peers == before.peers);
    }

    fn position(&self, id: &[u8; 20]) -> (r: usize)
        ensures
            r == peer_position(self.pieces().peers, id@),
            r <= self.peer_pieces@.len(),
    {
        let mut i: usize = 0;
        while i < self.peer_pieces.len()
            invariant
                i <= self.peer_pieces@.len(),
                forall|k: int| 0 <= k < i ==> (#[trigger] self.pieces().peers[k]).0 != id@,
            decreases self.peer_pieces@.len() - i,
        {
            if same_bytes(self.peer_pieces[i].0.as_slice(), id.as_slice()) {
                proof {
                    assert(self.pieces().peers[i as int].0 == id@);
                    lemma_peer_position(self.pieces().peers, id@, i as nat);
                }
                return i;
            }
            assert(self.pieces().peers[i as int].0 != id@);
            assert(i < self.peer_pieces.len());
            i = i + 1;
        }
        proof {
            lemma_peer_position(self.pieces().peers, id@, i as nat);
        }
        i
    }

    fn put_peer(&mut self, id: [u8; 20], bits: Vec<bool>)
        requires
            old(self).wf(),
            bits@.len() == old(self).pieces().have.len(),
        ensures
            final(self).wf(),
            final(self).pieces() == (Pieces {
                peers: with_peer(old(self).pieces().peers, id@, bits@),
                ..old(self).pieces()
            }),
    {
        let ghost before = self.pieces().peers;
        let at: usize = self.position(&id);
        proof {
            lemma_peer_found(before, id@);
        }
        if at < self.peer_pieces.len() {
            self.peer_pieces.set(at, (id, bits));
            assert(self.pieces().peers =~= before.update(at as int, (id@, bits@)));
        } else {
            self.peer_pieces.push((id, bits));
            assert(self.pieces().peers =~= before.push((id@, bits@)));
        }
    }

    /// Notes which pieces a peer has.
    pub fn set_peer_bitfield(&mut self, peer_id: [u8; 20], bits: &[u8])
        requires
            old(self).wf(),
        ensures
            final(self).wf(),
            final(self).pieces() == with_bitfield(old(self).pieces(), peer_id@, bits@),
    {
        let mut have: Vec<bool> = Vec::new();
        let n: usize = self.have.len();
        let mut i: usize = 0;
        while i < n
            invariant
                i <= n,
                have@.len() == i,
                forall|k: int| 0 <= k < i ==> #[trigger] have@[k] == bits_of(bits@, n as nat)[k],
            decreases n - i,
        {
            have.push(test_bit(bits, i));
            i = i + 1;
        }
        assert(have@ =~= bits_of(bits@, n as nat));
        self.put_peer(peer_id, have);
    }

    /// Notes that a peer has one more piece.
    pub fn set_peer_have(&mut self, peer_id: [u8; 20], index: u32)
        requires
            old(self).wf(),
        ensures
            final(self).wf(),
            final(self).pieces() == with_peer_piece(old(self).pieces(), peer_id@, index as int),
    {
        let at: usize = self.position(&peer_id);
        proof {
            lemma_peer_found(self.pieces().peers, peer_id@);
        }
        let mut bits: Vec<bool> = if at < self.peer_pieces.len() {
            let known = &self.peer_pieces[at].1;
            assert(self.pieces().peers[at as int].1 == known@);
            known.clone()
        } else {
            no_bits(self.piece_count)
        };
        assert(bits@ =~= peer_bits(self.pieces(), peer_id@));
        if (index as usize) < bits.len() {
            bits.set(index as usize, true);
        }
        self.put_peer(peer_id, bits);
    }

    /// The number of peers that have a piece.
    pub fn peer_count_for(&self, index: u32) -> (r: usize)
        ensures
            r == availability(self.pieces(), index as int),
    {
        let ghost all = self.pieces().peers;
        let ghost keep = |e: (Seq<u8>, Seq<bool>)| holds(e, index as int);
        let mut n: usize = 0;
        let mut i: usize = 0;
        proof {
            reveal(Seq::filter);
            assert(all.take(0).filter(keep).len() == 0);
        }
        while i < self.peer_pieces.len()
            invariant
                i <= self.peer_pieces@.len(),
                n <= i,
                all == self.pieces().peers,
                keep == (|e: (Seq<u8>, Seq<bool>)| holds(e, index as int)),
                n == all.take(i as int).filter(keep).len(),
            decreases self.peer_pieces@.len() - i,
        {
            proof {
                reveal(Seq::filter);
                assert(all.take(i + 1).drop_last() =~= all.take(i as int));
                assert(all.take(i + 1).last() == peer_entry(self.peer_pieces@[i as int]));
            }
            let bits = &self.peer_pieces[i].1;
            assert(i < self.peer_pieces.len());
            if (index as usize) < bits.len() && bits[index as usize] {
                n = n + 1;
            }
            i = i + 1;
        }
        assert(all.take(i as int) =~= all);
        n
    }

    /// The rarest piece that is missing, not asked for, and to be had from a peer.
    pub fn next_piece(&self) -> (r: Option<u32>)
        requires
            self.wf(),
        ensures
            is_rarest(self.pieces(), r),
    {
        let ghost p = self.pieces();
        let mut best: Option<(usize, u32)> = None;
        let mut index: u32 = 0;
        while index < self.piece_count
            invariant
                self.wf(),
                p == self.pieces(),
                index <= self.piece_count,
                match best {
                    Some((count, i)) => {
                        &&& wanted(p, i as int)
                        &&& i < index
                        &&& count == availability(p, i as int)
                        &&& forall|j: int|
                            j < index && #[trigger] wanted(p, j) ==> count < availability(p, j) || (
                            count == availability(p, j) && i <= j)
                    },
                    None => forall|j: int| j < index ==> !#[trigger] wanted(p, j),
                },
            decreases self.piece_count - index,
        {
            if !self.have[index as usize] && !self.requested[index as usize] {
                let count: usize = self.peer_count_for(index);
                if count > 0 {
                    assert(wanted(p, index as int));
                    match best {
                        None => {
                            best = Some((count, index));
                        },
                        Some((best_count, _)) => {
                            if count < best_count {
                                best = Some((count, index));
                            }
                        },
                    }
                }
            }
            index = index + 1;
        }
        match best {
            Some((_, i)) => Some(i),
            None => None,
        }
    }

    /// Whether all pieces are there.
    pub fn is_complete(&self) -> (r: bool)
        ensures
            r == complete(self.pieces()),
    {
        let mut i: usize = 0;
        while i < self.have.len()
            invariant
                i <= self.have@.len(),
                forall|k: int| 0 <= k < i ==> #[trigger] self.pieces().have[k],
            decreases self.have@.len() - i,
        {
            if !self.have[i] {
                assert(!self.pieces().have[i as int]);
                return false;
            }
            assert(i < self.have.len());
            i = i + 1;
        }
        true
    }

    /// The number of pieces that are missing.
    pub fn remaining(&self) -> (r: usize)
        ensures
            r == missing(self.pieces()),
    {
        let mut n: usize = 0;
        let mut i: usize = 0;
        let ghost all = self.pieces().have;
        let ghost keep = |h: bool| !h;
        proof {
            reveal(Seq::filter);
            assert(all.take(0).filter(keep).len() == 0);
        }
        while i < self.have.len()
            invariant
                i <= self.have@.len(),
                n <= i,
                all == self.have@,
                keep == (|h: bool| !h),
                n == all.take(i as int).filter(keep).len(),
            decreases self.have@.len() - i,
        {
            proof {
                reveal(Seq::filter);
                assert(all.take(i + 1).drop_last() =~= all.take(i as int));
            }
            assert(i < self.have.len());
            if !self.have[i] {
                n = n + 1;
            }
            i = i + 1;
        }
        assert(all.take(i as int) =~= all);
        n
    }

    /// The number of pieces that are there.
    pub fn have_count(&self) -> (r: usize)
        requires
            self.wf(),
        ensures
            r == self.pieces().have.len() - missing(self.pieces()),
    {
        let n: usize = self.remaining();
        proof {
            lemma_missing(self.have@);
        }
        self.have.len() - n
    }

    /// Writes which pieces are there as a bitfield.
    pub fn serialize_have_bitfield(&self) -> (r: Vec<u8>)
        requires
            self.wf(),
        ensures
            r@ == bitfield(self.pieces().have),
    {
        let n: usize = self.have.len();
        let mut bytes: Vec<u8> = Vec::new();
        let ghost have = self.pieces().have;
        let mut j: usize = 0;
        let count: usize = n / 8 + (if n % 8 > 0 {
            1
        } else {
            0
        });
        while j < count
            invariant
                have == self.have@,
                n == have.len(),
                n <= u32::MAX,
                j <= count,
                count == (n + 7) / 8,
                bytes@.len() == j,
                forall|m: int| 0 <= m < j ==> #[trigger] bytes@[m] == bitfield_byte(have, m) as u8,
            decreases count - j,
        {
            let b: u8 = self.bit(8 * j, 0) + self.bit(8 * j + 1, 1) + self.bit(8 * j + 2, 2)
                + self.bit(8 * j + 3, 3) + self.bit(8 * j + 4, 4) + self.bit(8 * j + 5, 5)
                + self.bit(8 * j + 6, 6) + self.bit(8 * j + 7, 7);
            assert(b == bitfield_byte(have, j as int));
            bytes.push(b);
            j = j + 1;
        }
        assert(bytes@ =~= bitfield(have));
        bytes
    }

    fn bit(&self, i: usize, k: usize) -> (r: u8)
        requires
            k < 8,
            i % 8 == k,
        ensures
            r == bit_value(self.pieces().have, i as int),
            r <= bit_weight(k as int),
    {
        if i < self.have.len() && self.have[i] {
            weight(k)
        } else {
            0
        }
    }

    /// Notes that the pieces of a bitfield are there.
    pub fn load_have_bitfield(&mut self, bytes: &[u8])
        requires
            old(self).wf(),
        ensures
            final(self).wf(),
            final(self).pieces() == loaded(old(self).pieces(), bytes@),
    {
        let ghost before = self.pieces();
        let mut i: usize = 0;
        while i < self.have.len()
            invariant
                self.have@.len() == before.have.len(),
                i <= self.have@.len(),
                self.requested@ == before.requested,
                self.piece_count == old(self).piece_count,
                self.peer_pieces@ == old(self).peer_pieces@,
                forall|k: int|
                    0 <= k < self.have@.len() ==> #[trigger] self.have@[k] == (if k < i {
                        before.have[k] || bits_of(bytes@, before.have.len())[k]
                    } else {
                        before.have[k]
                    }),
            decreases self.have@.len() - i,
        {
            if test_bit(bytes, i) {
                self.have.set(i, true);
            }
            assert(i < self.have.len());
            i = i + 1;
        }
        assert(self.pieces().have =~= loaded(before, bytes@).have);
        assert(self.pieces().peers =~= before.peers);
    }
}

/// The pieces after `index` was downloaded.
pub open spec fn marked(p: Pieces, index: int) -> Pieces {
    if 0 <= index < p.have.len() {
        Pieces {
            have: p.have.update(index, true),
            requested: p.requested.update(index, false),
            ..p
        }
    } else {
        p
    }
}

/// The pieces after `index` was asked for, or is not asked for any more.
pub open spec fn asked(p: Pieces, index: int, yes: bool) -> Pieces {
    if 0 <= index < p.requested.len() {
        Pieces { requested: p.requested.update(index, yes), ..p }
    } else {
        p
    }
}

/// The pieces after a peer told its bitfield.
pub open spec fn with_bitfield(p: Pieces, id: Seq<u8>, bits: Seq<u8>) -> Pieces {
    Pieces { peers: with_peer(p.peers, id, bits_of(bits, p.have.len())), ..p }
}

/// The pieces after a peer told that it has `index`.
pub open spec fn with_peer_piece(p: Pieces, id: Seq<u8>, index: int) -> Pieces {
    let bits = peer_bits(p, id);
    Pieces {
        peers: with_peer(
            p.peers,
            id,
            if 0 <= index < bits.len() {
                bits.update(index, true)
            } else {
                bits
            },
        ),
        ..p
    }
}

/// The pieces after those of a bitfield were found to be there.
pub open spec fn loaded(p: Pieces, bytes: Seq<u8>) -> Pieces {
    Pieces {
        have: Seq::new(
            p.have.len(),
            |k: int| p.have[k] || bits_of(bytes, p.have.len())[k],
        ),
        ..p
    }
}

/// Whether all pieces are there.
pub open spec fn complete(p: Pieces) -> bool {
    forall|k: int| 0 <= k < p.have.len() ==> #[trigger] p.have[k]
}

/// The number of pieces that are missing.
pub open spec fn missing(p: Pieces) -> nat {
    p.have.filter(|h: bool| !h).len()
}

proof fn lemma_missing(s: Seq<bool>)
    ensures
        s.filter(|h: bool| !h).len() <= s.len(),
        s.filter(|h: bool| !h).len() == 0 <==> (forall|k: int|
            0 <= k < s.len() ==> #[trigger] s[k]),
    decreases s.len(),
{
    reveal(Seq::filter);
    if s.len() > 0 {
        let t = s.drop_last();
        lemma_missing(t);
        if s.last() {
            assert forall|k: int| (forall|m: int| 0 <= m < t.len() ==> #[trigger] t[m]) && 0 <= k
                < s.len() implies #[trigger] s[k] by {
                if k < t.len() {
                    assert(t[k] == s[k]);
                }
            }
            if forall|k: int| 0 <= k < s.len() ==> #[trigger] s[k] {
                assert forall|m: int| 0 <= m < t.len() implies #[trigger] t[m] by {
                    assert(t[m] == s[m]);
                }
            }
        } else {
            assert(!s[s.len() - 1]);
        }
    }
}

/// A torrent is complete just when no piece is missing.
pub proof fn law_complete_when_nothing_is_missing(p: Pieces)
    ensures
        complete(p) <==> missing(p) == 0,
{
    lemma_missing(p.have);
}

proof fn lemma_byte_bits(
    o0: int,
    o1: int,
    o2: int,
    o3: int,
    o4: int,
    o5: int,
    o6: int,
    o7: int,
    v: int,
)
    requires
        0 <= o0 <= 1,
        0 <= o1 <= 1,
        0 <= o2 <= 1,
        0 <= o3 <= 1,
        0 <= o4 <= 1,
        0 <= o5 <= 1,
        0 <= o6 <= 1,
        0 <= o7 <= 1,
        v == 128 * o0 + 64 * o1 + 32 * o2 + 16 * o3 + 8 * o4 + 4 * o5 + 2 * o6 + o7,
    ensures
        (v / 128) % 2 == o0,
        (v / 64) % 2 == o1,
        (v / 32) % 2 == o2,
        (v / 16) % 2 == o3,
        (v / 8) % 2 == o4,
        (v / 4) % 2 == o5,
        (v / 2) % 2 == o6,
        (v / 1) % 2 == o7,
{
    let h1 = 2 * o0 + o1;
    let h2 = 2 * h1 + o2;
    let h3 = 2 * h2 + o3;
    let h4 = 2 * h3 + o4;
    let h5 = 2 * h4 + o5;
    let h6 = 2 * h5 + o6;
    lemma_one_bit(0, o0, v - 128 * o0, 128, v);
    lemma_one_bit(o0, o1, v - 64 * h1, 64, v);
    lemma_one_bit(h1, o2, v - 32 * h2, 32, v);
    lemma_one_bit(h2, o3, v - 16 * h3, 16, v);
    lemma_one_bit(h3, o4, v - 8 * h4, 8, v);
    lemma_one_bit(h4, o5, v - 4 * h5, 4, v);
    lemma_one_bit(h5, o6, v - 2 * h6, 2, v);
    lemma_one_bit(h6, o7, 0, 1, v);
}

proof fn lemma_one_bit(hi: int, bit: int, low: int, w: int, v: int)
    requires
        hi >= 0,
        0 <= bit <= 1,
        w > 0,
        0 <= low < w,
        v == w * (2 * hi + bit) + low,
    ensures
        (v / w) % 2 == bit,
{
    let q = 2 * hi + bit;
    assert(v == q * w + low) by (nonlinear_arith)
        requires
            v == w * q + low,
    ;
    vstd::arithmetic::div_mod::lemma_fundamental_div_mod_converse(v, w, q, low);
}

/// One where the piece `i` is there.
spec fn one(have: Seq<bool>, i: int) -> int {
    if i < have.len() && have[i] {
        1
    } else {
        0
    }
}

proof fn lemma_bitfield_byte(have: Seq<bool>, j: int)
    requires
        0 <= j,
    ensures
        0 <= bitfield_byte(have, j) < 256,
        forall|k: int|
            0 <= k < 8 ==> (bitfield_byte(have, j) / #[trigger] bit_weight(k)) % 2 == one(
                have,
                8 * j + k,
            ),
{
    let i = 8 * j;
    assert(i % 8 == 0);
    assert((i + 1) % 8 == 1);
    assert((i + 2) % 8 == 2);
    assert((i + 3) % 8 == 3);
    assert((i + 4) % 8 == 4);
    assert((i + 5) % 8 == 5);
    assert((i + 6) % 8 == 6);
    assert((i + 7) % 8 == 7);
    lemma_byte_bits(
        one(have, i),
        one(have, i + 1),
        one(have, i + 2),
        one(have, i + 3),
        one(have, i + 4),
        one(have, i + 5),
        one(have, i + 6),
        one(have, i + 7),
        bitfield_byte(have, j),
    );
    assert forall|k: int| 0 <= k < 8 implies (bitfield_byte(have, j) / #[trigger] bit_weight(k)) % 2
        == one(have, 8 * j + k) by {
        if k == 0 {
        } else if k == 1 {
        } else if k == 2 {
        } else if k == 3 {
        } else if k == 4 {
        } else if k == 5 {
        } else if k == 6 {
        } else {
            assert(k == 7);
        }
    }
}

/// A bitfield that was written is read back: a download that is resumed has the pieces it had.
pub proof fn law_resume_roundtrip(p: Pieces, fresh: Pieces)
    requires
        fresh.have == Seq::new(p.have.len(), |i: int| false),
    ensures
        bits_of(bitfield(p.have), p.have.len()) == p.have,
        loaded(fresh, bitfield(p.have)).have == p.have,
        loaded(p, bitfield(p.have)).have == p.have,
{
    let have = p.have;
    let s = bitfield(have);
    let bits = bits_of(s, have.len());
    assert forall|i: int| 0 <= i < have.len() implies #[trigger] bits[i] == have[i] by {
        let j = i / 8;
        lemma_bitfield_byte(have, j);
        assert(s[j] == bitfield_byte(have, j));
        assert((bitfield_byte(have, j) / bit_weight(i % 8)) % 2 == one(have, 8 * j + i % 8));
    }
    assert(bits =~= have);
    assert(loaded(fresh, s).have =~= have);
    assert(loaded(p, s).have =~= have);
}

/// A piece that is there is never asked for again.
pub proof fn law_no_piece_is_fetched_twice(p: Pieces, index: u32, r: Option<u32>)
    requires
        is_rarest(marked(p, index as int), r),
        index < p.have.len(),
    ensures
        r != Some(index),
{
}

impl Default for PieceTracker {
    fn default() -> (r: Self)
        ensures
            r.wf(),
            r.pieces().have.len() == 0,
            r.pieces().peers.len() == 0,
    {
        PieceTracker::new(0)
    }
}

/// What is asked of the peers of a torrent.
#[derive(Debug)]
pub struct SchedulerState {
    /// The pieces.
    pub tracker: PieceTracker,
    /// How many blocks a peer is asked for at a time.
    pub max_pipelined_blocks: usize,
    /// The piece that is being asked for, and where its next block begins.
    pub current: Option<(u32, u32)>,
}

/// What a [`SchedulerState`] holds.
pub ghost struct Schedule {
    pub pieces: Pieces,
    pub depth: usize,
    pub current: Option<(u32, u32)>,
}

impl View for SchedulerState {
    type V = Schedule;

    open spec fn view(&self) -> Schedule {
        Schedule {
            pieces: self.tracker.pieces(),
            depth: self.max_pipelined_blocks,
            current: self.current,
        }
    }
}

/// The size of the block of a piece of `size` bytes that begins at `begin`.
pub open spec fn block_length(size: int, begin: int) -> int {
    if size - begin < BLOCK_SIZE {
        size - begin
    } else {
        BLOCK_SIZE as int
    }
}

/// Where the next block of `piece` begins, where there is one.
pub open spec fn next_begin(size: int, piece: u32, begin: u32) -> Option<(u32, u32)> {
    let after = begin + block_length(size, begin as int);
    if after < size && after <= u32::MAX {
        Some((piece, after as u32))
    } else {
        None
    }
}

/// Whether a block of the current piece is still to be asked for.
pub open spec fn piece_goes_on(s: Schedule, m: Meta) -> bool {
    s.current matches Some((piece, begin)) && begin < piece_size(m, piece as int)
}

/// Whether `r` is the block to ask for next and `after` what is left: the next block of the
/// current piece, else the first block of `pick`, the rarest piece wanted.
pub open spec fn block_chosen(
    before: Schedule,
    after: Schedule,
    m: Meta,
    pick: Option<u32>,
    r: Option<(u32, u32, u32)>,
) -> bool {
    if piece_goes_on(before, m) {
        let (piece, begin) = before.current->0;
        let size = piece_size(m, piece as int);
        &&& r == Some((piece, begin, block_length(size, begin as int) as u32))
        &&& after == Schedule { current: next_begin(size, piece, begin), ..before }
    } else {
        match pick {
            Some(piece) => {
                let size = piece_size(m, piece as int);
                if size > 0 {
                    &&& r == Some((piece, 0u32, block_length(size, 0) as u32))
                    &&& after == Schedule {
                        pieces: asked(before.pieces, piece as int, true),
                        current: next_begin(size, piece, 0),
                        ..before
                    }
                } else {
                    r is None && after == before
                }
            },
            None => r is None && after == before,
        }
    }
}

fn cut_block(size: u64, piece: u32, begin: u32) -> (r: (u32, Option<(u32, u32)>))
    requires
        begin < size,
    ensures
        r.0 == block_length(size as int, begin as int),
        r.1 == next_begin(size as int, piece, begin),
{
    let left: u64 = size - begin as u64;
    let length: u32 = if left < BLOCK_SIZE as u64 {
        left as u32
    } else {
        BLOCK_SIZE
    };
    let after: u64 = begin as u64 + length as u64;
    if after < size && after <= 0xffff_ffff {
        (length, Some((piece, after as u32)))
    } else {
        (length, None)
    }
}

impl SchedulerState {
    /// Nothing is there, nothing is asked for.
    pub fn new(piece_count: u32) -> (r: Self)
        ensures
            r.tracker.wf(),
            r@ == (Schedule {
                pieces: Pieces {
                    have: Seq::new(piece_count as nat, |i: int| false),
                    requested: Seq::new(piece_count as nat, |i: int| false),
                    peers: Seq::empty(),
                },
                depth: PIPELINED_BLOCKS,
                current: None,
            }),
    {
        SchedulerState {
            tracker: PieceTracker::new(piece_count),
            max_pipelined_blocks: PIPELINED_BLOCKS,
            current: None,
        }
    }

    /// The block to ask for next: the piece, where the block begins in it, and its size.
    pub fn next_block(&mut self, metainfo: &Metainfo) -> (r: Option<(u32, u32, u32)>)
        requires
            old(self).tracker.wf(),
        ensures
            final(self).tracker.wf(),
            exists|pick: Option<u32>|
                #[trigger] is_rarest(old(self)@.pieces, pick) && block_chosen(
                    old(self)@,
                    final(self)@,
                    metainfo@,
                    pick,
                    r,
                ),
            r matches Some((piece, begin, length)) ==> length > 0 && begin + length <= piece_size(
                metainfo@,
                piece as int,
            ),
    {
        let ghost before = self@;
        let pick: Option<u32> = self.tracker.next_piece();
        assert(is_rarest(before.pieces, pick));
        if let Some((piece, begin)) = self.current {
            let size: u64 = piece_length(metainfo, piece);
            if (begin as u64) < size {
                let (length, next) = cut_block(size, piece, begin);
                self.current = next;
                assert(block_chosen(before, self@, metainfo@, pick, Some((piece, begin, length))));
                return Some((piece, begin, length));
            }
        }
        match pick {
            Some(piece) => {
                let size: u64 = piece_length(metainfo, piece);
                if size > 0 {
                    self.tracker.mark_requested(piece);
                    let (length, next) = cut_block(size, piece, 0);
                    self.current = next;
                    Some((piece, 0, length))
                } else {
                    None
                }
            },
            None => None,
        }
    }
}

/// What a peer says of its pieces is known of it afterwards; what is known of other peers stays, and
/// a peer is known once.
pub proof fn law_peers_are_known_by_name(p: Pieces, id: Seq<u8>, bits: Seq<u8>, index: int, other: Seq<u8>)
    requires
        distinct_peers(p.peers),
        0 <= index < p.have.len(),
        forall|i: int| 0 <= i < p.peers.len() ==> (#[trigger] p.peers[i]).1.len() == p.have.len(),
    ensures
        peer_bits(with_bitfield(p, id, bits), id) == bits_of(bits, p.have.len()),
        peer_bits(with_peer_piece(p, id, index), id) == peer_bits(p, id).update(index, true),
        other != id ==> peer_bits(with_bitfield(p, id, bits), other) == peer_bits(p, other),
        other != id ==> peer_bits(with_peer_piece(p, id, index), other) == peer_bits(p, other),
        distinct_peers(with_bitfield(p, id, bits).peers),
        with_bitfield(p, id, bits).have == p.have,
        with_bitfield(p, id, bits).requested == p.requested,
{
    let s = p.peers;
    lemma_peer_found(s, id);
    lemma_peer_found(s, other);
    let at = peer_position(s, id);
    let was = peer_position(s, other);
    let a = with_bitfield(p, id, bits).peers;
    let b = with_peer_piece(p, id, index).peers;
    assert(peer_bits(p, id).len() == p.have.len()) by {
        if at < s.len() {
            assert(s[at as int].1.len() == p.have.len());
        }
    }
    lemma_peer_position(a, id, at);
    lemma_peer_position(b, id, at);
    if other != id {
        if was < s.len() {
            lemma_peer_position(a, other, was);
            lemma_peer_position(b, other, was);
        } else {
            lemma_peer_position(a, other, a.len());
            lemma_peer_position(b, other, b.len());
        }
    }
}

/// The bits of a bitfield beyond the last piece are not set.
pub proof fn law_spare_bits_are_not_set(have: Seq<bool>, i: int)
    requires
        have.len() <= i < 8 * bitfield(have).len(),
    ensures
        !bit_set(bitfield(have)[i / 8], i % 8),
{
    let j = i / 8;
    lemma_bitfield_byte(have, j);
    assert(bitfield(have)[j] == bitfield_byte(have, j));
    assert((bitfield_byte(have, j) / bit_weight(i % 8)) % 2 == one(have, 8 * j + i % 8));
}

} // verus!
