//! One peer of a download: what it is told, what it is asked for, and what its messages do.
use crate::crypto::sha1_of;
use crate::torrent::disk::piece_length;
use crate::torrent::disk::piece_size;
use crate::torrent::metainfo::Meta;
use crate::torrent::metainfo::Metainfo;
use crate::torrent::peer_wire::Message;
use crate::torrent::peer_wire::PeerMessage;
use crate::torrent::pieces::all_received;
use crate::torrent::pieces::assembled;
use crate::torrent::pieces::no_blocks;
use crate::torrent::pieces::verified;
use crate::torrent::pieces::with_block;
use crate::torrent::pieces::Assembly;
use crate::torrent::pieces::PieceAssembler;
use crate::torrent::scheduler::asked;
use crate::torrent::scheduler::block_chosen;
use crate::torrent::scheduler::is_rarest;
use crate::torrent::scheduler::marked;
use crate::torrent::scheduler::with_bitfield;
use crate::torrent::scheduler::with_peer_piece;
use crate::torrent::scheduler::PieceTracker;
use crate::torrent::scheduler::Pieces;
use crate::torrent::scheduler::SchedulerState;
use std::collections::HashMap;
use vstd::prelude::*;

verus! {

/// The blocks under way with one peer.
#[derive(Debug)]
pub struct PeerTask {
    remote_peer_id: [u8; 20],
    in_flight: usize,
    assemblers: HashMap<u32, PieceAssembler>,
}

/// What a [`PeerTask`] holds.
#[verifier::ext_equal]
pub ghost struct Task {
    /// The name of the peer.
    pub remote: Seq<u8>,
    /// The blocks asked for that have not come.
    pub in_flight: usize,
    /// The pieces of which blocks have come.
    pub parts: Map<u32, Assembly>,
}

/// Pieces under way as they read.
pub open spec fn assembly_views(m: Map<u32, PieceAssembler>) -> Map<u32, Assembly> {
    Map::new(|k: u32| m.dom().contains(k), |k: u32| m[k]@)
}

impl View for PeerTask {
    type V = Task;

    closed spec fn view(&self) -> Task {
        Task {
            remote: self.remote_peer_id@,
            in_flight: self.in_flight,
            parts: assembly_views(self.assemblers@),
        }
    }
}

/// What follows from a message.
#[derive(Debug, Clone)]
pub enum PeerStep {
    /// Nothing: the next message is awaited.
    Skip,
    /// Whether the download is complete is to be looked at.
    Check,
    /// A piece has come and has the right digest: it is to be stored.
    Store { index: u32, data: Vec<u8> },
}

/// A [`PeerStep`] over sequences.
pub ghost enum Step {
    Skip,
    Check,
    Store { index: u32, data: Seq<u8> },
}

impl View for PeerStep {
    type V = Step;

    open spec fn view(&self) -> Step {
        match self {
            PeerStep::Skip => Step::Skip,
            PeerStep::Check => Step::Check,
            PeerStep::Store { index, data } => Step::Store { index: *index, data: data@ },
        }
    }
}

/// The messages as they read.
pub open spec fn message_views(s: Seq<PeerMessage>) -> Seq<Message> {
    s.map_values(|m: PeerMessage| m@)
}

/// The piece `index` after a block came.
pub open spec fn part_after(t: Task, m: Meta, index: u32, begin: u32, data: Seq<u8>) -> Assembly {
    with_block(
        if t.parts.dom().contains(index) {
            t.parts[index]
        } else {
            no_blocks(piece_size(m, index as int) as u64)
        },
        begin,
        data,
    )
}

/// The blocks under way after a message.
pub open spec fn task_after(t: Task, m: Meta, msg: Message) -> Task {
    match msg {
        Message::Piece { index, begin, data } => {
            let a = part_after(t, m, index, begin, data);
            Task {
                in_flight: if t.in_flight > 0 {
                    (t.in_flight - 1) as usize
                } else {
                    0
                },
                parts: if all_received(a) {
                    t.parts.remove(index)
                } else {
                    t.parts.insert(index, a)
                },
                ..t
            }
        },
        _ => t,
    }
}

/// What is known of the pieces after a message of the peer `remote`.
pub open spec fn pieces_after(p: Pieces, remote: Seq<u8>, msg: Message) -> Pieces {
    match msg {
        Message::Bitfield { bits } => with_bitfield(p, remote, bits),
        Message::Have { index } => with_peer_piece(p, remote, index as int),
        _ => p,
    }
}

/// What follows from a message.
pub open spec fn step_for(t: Task, m: Meta, msg: Message) -> Step {
    match msg {
        Message::Bitfield { .. } => Step::Check,
        Message::Have { .. } => Step::Check,
        Message::Choke => Step::Check,
        Message::Piece { index, begin, data } => {
            let a = part_after(t, m, index, begin, data);
            if all_received(a) && index < m.pieces.len() && verified(a, m.pieces[index as int]) {
                Step::Store { index, data: assembled(a)->0 }
            } else {
                Step::Check
            }
        },
        _ => Step::Skip,
    }
}

/// The pieces after an attempt to store one. A piece that could not be stored is asked for again.
pub open spec fn after_storing(p: Pieces, index: u32, stored: bool) -> Pieces {
    if stored {
        marked(p, index as int)
    } else {
        asked(p, index as int, false)
    }
}

/// The messages that a peer is sent first: that nothing is there yet, and that pieces are wanted.
pub fn opening_messages() -> (r: Vec<PeerMessage>)
    ensures
        message_views(r@) == seq![
            Message::Bitfield { bits: Seq::empty() },
            Message::Interested,
        ],
{
    let mut r: Vec<PeerMessage> = Vec::new();
    r.push(PeerMessage::Bitfield { bits: Vec::new() });
    r.push(PeerMessage::Interested);
    assert(message_views(r@)[0]->bits =~= Seq::<u8>::empty());
    assert(message_views(r@) =~= seq![
        Message::Bitfield { bits: Seq::empty() },
        Message::Interested,
    ]);
    r
}

/// Notes whether a verified piece was stored, and returns the bytes downloaded so far.
pub fn piece_stored(
    tracker: &mut PieceTracker,
    bytes_downloaded: u64,
    index: u32,
    size: u64,
    stored: bool,
) -> (r: u64)
    requires
        old(tracker).wf(),
    ensures
        final(tracker).wf(),
        final(tracker).pieces() == after_storing(old(tracker).pieces(), index, stored),
        r == (if !stored {
            bytes_downloaded as int
        } else if bytes_downloaded + size > u64::MAX {
            u64::MAX as int
        } else {
            bytes_downloaded + size
        }),
{
    if stored {
        tracker.mark_have(index);
        bytes_downloaded.saturating_add(size)
    } else {
        tracker.clear_requested(index);
        bytes_downloaded
    }
}

impl PeerTask {
    /// Nothing is under way with the peer.
    pub fn new(remote_peer_id: [u8; 20]) -> (r: Self)
        ensures
            r@ == (Task { remote: remote_peer_id@, in_flight: 0, parts: Map::empty() }),
    {
        let r: PeerTask = PeerTask { remote_peer_id, in_flight: 0, assemblers: HashMap::new() };
        assert(r@.parts =~= Map::empty());
        r
    }

    /// The next request, while fewer blocks are under way than are asked for at a time.
    pub fn next_request(&mut self, scheduler: &mut SchedulerState, metainfo: &Metainfo) -> (r:
        Option<PeerMessage>)
        requires
            old(scheduler).tracker.wf(),
        ensures
            final(scheduler).tracker.wf(),
            if old(self)@.in_flight < old(scheduler)@.depth {
                exists|pick: Option<u32>, block: Option<(u32, u32, u32)>|
                    {
                        &&& #[trigger] is_rarest(old(scheduler)@.pieces, pick)
                        &&& #[trigger] block_chosen(
                            old(scheduler)@,
                            final(scheduler)@,
                            metainfo@,
                            pick,
                            block,
                        )
                        &&& match block {
                            Some((index, begin, length)) => {
                                &&& r matches Some(msg)
                                &&& msg@ == Message::Request { index, begin, length }
                                &&& final(self)@ == Task {
                                    in_flight: (old(self)@.in_flight + 1) as usize,
                                    ..old(self)@
                                }
                            },
                            None => r is None && final(self)@ == old(self)@,
                        }
                    }
            } else {
                r is None && final(self)@ == old(self)@ && final(scheduler)@ == old(scheduler)@
            },
    {
        if self.in_flight < scheduler.max_pipelined_blocks {
            let block: Option<(u32, u32, u32)> = scheduler.next_block(metainfo);
            proof {
                let pick = choose|pick: Option<u32>|
                    #[trigger] is_rarest(old(scheduler)@.pieces, pick) && block_chosen(
                        old(scheduler)@,
                        scheduler@,
                        metainfo@,
                        pick,
                        block,
                    );
                assert(is_rarest(old(scheduler)@.pieces, pick));
                assert(block_chosen(old(scheduler)@, scheduler@, metainfo@, pick, block));
            }
            match block {
                Some((index, begin, length)) => {
                    self.in_flight = self.in_flight + 1;
                    Some(PeerMessage::Request { index, begin, length })
                },
                None => None,
            }
        } else {
            None
        }
    }

    /// Takes a message of the peer.
    pub fn handle_message(
        &mut self,
        tracker: &mut PieceTracker,
        metainfo: &Metainfo,
        msg: PeerMessage,
    ) -> (r: PeerStep)
        requires
            old(tracker).wf(),
        ensures
            final(tracker).wf(),
            final(self)@ == task_after(old(self)@, metainfo@, msg@),
            final(tracker).pieces() == pieces_after(
                old(tracker).pieces(),
                old(self)@.remote,
                msg@,
            ),
            r@ == step_for(old(self)@, metainfo@, msg@),
    {
        match msg {
            PeerMessage::Bitfield { bits } => {
                tracker.set_peer_bitfield(self.remote_peer_id, bits.as_slice());
                PeerStep::Check
            },
            PeerMessage::Have { index } => {
                tracker.set_peer_have(self.remote_peer_id, index);
                PeerStep::Check
            },
            PeerMessage::Choke => PeerStep::Check,
            PeerMessage::Piece { index, begin, data } => {
                self.take_block(metainfo, index, begin, data)
            },
            _ => PeerStep::Skip,
        }
    }

    fn take_block(&mut self, metainfo: &Metainfo, index: u32, begin: u32, data: Vec<u8>) -> (r:
        PeerStep)
        ensures
            ({
                let msg = Message::Piece { index, begin, data: data@ };
                &&& final(self)@ == task_after(old(self)@, metainfo@, msg)
                &&& r@ == step_for(old(self)@, metainfo@, msg)
            }),
    {
        broadcast use vstd::std_specs::hash::group_hash_axioms;

        let ghost before = self@;
        let ghost msg = Message::Piece { index, begin, data: data@ };
        let ghost m = metainfo@;
        self.in_flight = self.in_flight.saturating_sub(1);
        let mut part: PieceAssembler = match self.assemblers.remove(&index) {
            Some(p) => p,
            None => PieceAssembler::new(index, piece_length(metainfo, index)),
        };
        part.add_block(begin, data);
        let ghost a = part@;
        assert(a == part_after(before, m, index, begin, data@));
        if part.is_complete() {
            assert(self@ =~= task_after(before, m, msg));
            if (index as usize) < metainfo.pieces.len() {
                let expected = &metainfo.pieces[index as usize];
                assert(m.pieces[index as int] == expected@);
                if part.verify(expected) {
                    if let Some(data) = part.assemble() {
                        return PeerStep::Store { index, data };
                    }
                }
            }
            PeerStep::Check
        } else {
            self.assemblers.insert(index, part);
            assert(self@ =~= task_after(before, m, msg));
            PeerStep::Check
        }
    }
}

/// A piece is stored only where it has the digest that the torrent gives for it.
pub proof fn law_only_verified_pieces_are_stored(t: Task, m: Meta, msg: Message)
    ensures
        step_for(t, m, msg) matches Step::Store { index, data } ==> {
            &&& index < m.pieces.len()
            &&& sha1_of(data) == m.pieces[index as int]
        },
{
}

/// A piece counts as there only where it was stored. One that could not be stored is wanted again
/// as long as a peer has it.
pub proof fn law_failed_store_is_asked_for_again(p: Pieces, index: u32)
    requires
        index < p.have.len(),
        p.requested.len() == p.have.len(),
    ensures
        after_storing(p, index, true).have[index as int],
        after_storing(p, index, false).have == p.have,
        !p.have[index as int] && crate::torrent::scheduler::availability(p, index as int) > 0
            ==> crate::torrent::scheduler::wanted(
            after_storing(p, index, false),
            index as int,
        ),
{
}

} // verus!
