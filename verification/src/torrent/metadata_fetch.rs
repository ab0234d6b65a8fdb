//! How the description of a torrent is fetched from a peer that has it.
use crate::torrent::bencode::tree_of;
use crate::torrent::bencode::Bencode;
use crate::torrent::bencode::Tree;
use crate::torrent::metadata::build_extension_handshake;
use crate::torrent::metadata::build_request;
use crate::torrent::metadata::byte_views;
use crate::torrent::metadata::data_in;
use crate::torrent::metadata::description;
use crate::torrent::metadata::extension_handshake;
use crate::torrent::metadata::parse_data;
use crate::torrent::metadata::parse_peer_bencode;
use crate::torrent::metadata::peer_tree;
use crate::torrent::metadata::reassemble_metadata;
use crate::torrent::metadata::request_for;
use crate::torrent::metainfo::entry;
use crate::torrent::metainfo::metainfo_in;
use crate::torrent::metainfo::Meta;
use crate::torrent::metainfo::Metainfo;
use crate::torrent::peer_wire::Message;
use crate::torrent::peer_wire::PeerMessage;
use std::collections::HashMap;
use vstd::prelude::*;
use vstd::string::*;

verus! {

/// The size of the parts in which a description is fetched.
pub const METADATA_PART: u64 = 16_384;

/// The messages that are read while the greeting is awaited.
pub const GREETING_TRIES: u32 = 10;

/// The messages that are read while a part is awaited.
pub const PART_TRIES: u32 = 20;

/// The number under which a peer takes requests for the description, and the size of the
/// description, as the peer's greeting tells them.
pub open spec fn greeting_facts(t: Tree) -> (Option<u8>, u64) {
    let id = match entry(t, "m"@) {
        Some(m) => match entry(m, "ut_metadata"@) {
            Some(Tree::Int(i)) => Some(i as u8),
            _ => None,
        },
        None => None,
    };
    let size = match entry(t, "metadata_size"@) {
        Some(Tree::Int(i)) => i as u64,
        _ => 0u64,
    };
    (id, size)
}

/// What a greeting tells. One that is no dictionary tells nothing.
pub open spec fn facts_in(payload: Seq<u8>) -> (Option<u8>, u64) {
    match peer_tree(payload) {
        Ok(t) => greeting_facts(t),
        Err(_) => (None, 0u64),
    }
}

/// The number of parts of a description.
pub open spec fn part_count(size: u64) -> u32 {
    ((size / METADATA_PART + (if size % METADATA_PART > 0 {
        1int
    } else {
        0
    })) as u64) as u32
}

/// How far fetching has come.
#[derive(Debug, Clone, Copy, PartialEq, Eq, Structural)]
pub enum FetchStage {
    /// The peer's greeting is awaited, for `left` more messages.
    Greeting { left: u32 },
    /// A part is awaited, for `left` more messages.
    Part { id: u8, size: u64, count: u32, part: u32, left: u32 },
    /// Fetching is over.
    Over,
}

/// The parts of a description that have come.
#[derive(Debug)]
pub struct MetadataFetch {
    stage: FetchStage,
    pieces: HashMap<u32, Vec<u8>>,
}

/// What a [`MetadataFetch`] holds.
#[verifier::ext_equal]
pub ghost struct Fetch {
    pub stage: FetchStage,
    pub pieces: Map<u32, Seq<u8>>,
}

impl View for MetadataFetch {
    type V = Fetch;

    closed spec fn view(&self) -> Fetch {
        Fetch { stage: self.stage, pieces: byte_views(self.pieces@) }
    }
}

/// What is to be done next.
#[derive(Debug, Clone)]
pub enum FetchAction {
    /// Await a message.
    Receive,
    /// Send a message, then await one.
    Send(PeerMessage),
    /// The description is there.
    Finish(Metainfo),
    /// The peer does not give the description.
    Fail,
}

/// A [`FetchAction`] over sequences.
pub ghost enum Doing {
    Receive,
    Send(Message),
    Finish(Meta),
    Fail,
}

impl View for FetchAction {
    type V = Doing;

    open spec fn view(&self) -> Doing {
        match self {
            FetchAction::Receive => Doing::Receive,
            FetchAction::Send(m) => Doing::Send(m@),
            FetchAction::Finish(m) => Doing::Finish(m@),
            FetchAction::Fail => Doing::Fail,
        }
    }
}

/// Fetching is over with what has come.
pub open spec fn finished(f: Fetch, size: u64) -> (Fetch, Doing) {
    let over = Fetch { stage: FetchStage::Over, ..f };
    match description(f.pieces, size) {
        Ok(d) => match metainfo_in(d) {
            Ok(m) => (over, Doing::Finish(m)),
            Err(_) => (over, Doing::Fail),
        },
        Err(_) => (over, Doing::Fail),
    }
}

/// The part `part` is asked for, or fetching is over where there is none.
pub open spec fn ask_for_part(f: Fetch, id: u8, size: u64, count: u32, part: int) -> (Fetch, Doing) {
    if part < count {
        (
            Fetch {
                stage: FetchStage::Part { id, size, count, part: part as u32, left: PART_TRIES },
                ..f
            },
            Doing::Send(Message::Extended { id, payload: request_for(id, part as u32) }),
        )
    } else {
        finished(f, size)
    }
}

/// What follows from the greeting.
pub open spec fn greeted(f: Fetch, facts: (Option<u8>, u64)) -> (Fetch, Doing) {
    match facts.0 {
        Some(id) if facts.1 > 0 => ask_for_part(f, id, facts.1, part_count(facts.1), 0),
        _ => (Fetch { stage: FetchStage::Over, ..f }, Doing::Fail),
    }
}

/// The parts after a message with a part, which may be unreadable.
pub open spec fn with_part(pieces: Map<u32, Seq<u8>>, payload: Seq<u8>) -> Map<u32, Seq<u8>> {
    if payload.len() == 0 {
        pieces
    } else {
        match data_in(payload) {
            Ok((piece, total, data)) => pieces.insert(piece, data),
            Err(_) => pieces,
        }
    }
}

/// What follows from a message of the peer.
pub open spec fn fetch_after(f: Fetch, msg: Message) -> (Fetch, Doing) {
    match f.stage {
        FetchStage::Greeting { left } => match msg {
            Message::Extended { id: 0, payload } => greeted(f, facts_in(payload)),
            _ => if left > 1 {
                (
                    Fetch { stage: FetchStage::Greeting { left: (left - 1) as u32 }, ..f },
                    Doing::Receive,
                )
            } else {
                (Fetch { stage: FetchStage::Over, ..f }, Doing::Fail)
            },
        },
        FetchStage::Part { id, size, count, part, left } => {
            if msg is Extended && msg->Extended_id == id {
                ask_for_part(
                    Fetch { pieces: with_part(f.pieces, msg->Extended_payload), ..f },
                    id,
                    size,
                    count,
                    part + 1,
                )
            } else if left > 1 {
                (
                    Fetch {
                        stage: FetchStage::Part { id, size, count, part, left: (left - 1) as u32 },
                        ..f
                    },
                    Doing::Receive,
                )
            } else {
                ask_for_part(f, id, size, count, part + 1)
            }
        },
        FetchStage::Over => (f, Doing::Fail),
    }
}

/// Reads what the peer's greeting tells from the tree that it was parsed as.
pub fn read_greeting_facts(tree: &Bencode) -> (r: (Option<u8>, u64))
    ensures
        r == greeting_facts(tree_of(*tree)),
{
    let id: Option<u8> = match tree.get("m".as_bytes()) {
        Some(m) => match m.get("ut_metadata".as_bytes()) {
            Some(Bencode::Int(i)) => Some(#[verifier::truncate] (*i as u8)),
            _ => None,
        },
        None => None,
    };
    let size: u64 = match tree.get("metadata_size".as_bytes()) {
        Some(Bencode::Int(i)) => #[verifier::truncate] (*i as u64),
        _ => 0,
    };
    (id, size)
}

fn count_parts(size: u64) -> (r: u32)
    ensures
        r == part_count(size),
{
    let n: u64 = size / METADATA_PART + (if size % METADATA_PART > 0 {
        1u64
    } else {
        0u64
    });
    #[verifier::truncate]
    (n as u32)
}

impl MetadataFetch {
    /// Greets a peer, and awaits its greeting.
    pub fn begin() -> (r: (Self, PeerMessage))
        ensures
            r.0@ == (Fetch {
                stage: FetchStage::Greeting { left: GREETING_TRIES },
                pieces: Map::empty(),
            }),
            r.1@ == (Message::Extended { id: 0, payload: extension_handshake(1, 0) }),
    {
        let f: MetadataFetch = MetadataFetch {
            stage: FetchStage::Greeting { left: GREETING_TRIES },
            pieces: HashMap::new(),
        };
        assert(f@.pieces =~= Map::empty());
        (f, PeerMessage::Extended { id: 0, payload: build_extension_handshake(1, 0) })
    }

    /// How far fetching has come.
    pub fn stage(&self) -> (r: FetchStage)
        ensures
            r == self@.stage,
    {
        self.stage
    }

    /// Takes a message of the peer.
    pub fn received(&mut self, msg: PeerMessage) -> (r: FetchAction)
        ensures
            (final(self)@, r@) == fetch_after(old(self)@, msg@),
    {
        match self.stage {
            FetchStage::Greeting { left } => {
                match msg {
                    PeerMessage::Extended { id: 0, payload } => {
                        let facts: (Option<u8>, u64) = match parse_peer_bencode(
                            payload.as_slice(),
                        ) {
                            Ok(tree) => read_greeting_facts(&tree),
                            Err(_) => (None, 0),
                        };
                        self.start_parts(facts)
                    },
                    _ => {
                        if left > 1 {
                            self.stage = FetchStage::Greeting { left: left - 1 };
                            FetchAction::Receive
                        } else {
                            self.stage = FetchStage::Over;
                            FetchAction::Fail
                        }
                    },
                }
            },
            FetchStage::Part { id, size, count, part, left } => {
                match msg {
                    PeerMessage::Extended { id: i, payload } => {
                        if i == id {
                            self.take_part(payload.as_slice());
                            return self.next_part(id, size, count, part as u64 + 1);
                        }
                    },
                    _ => {},
                }
                if left > 1 {
                    self.stage = FetchStage::Part { id, size, count, part, left: left - 1 };
                    FetchAction::Receive
                } else {
                    self.next_part(id, size, count, part as u64 + 1)
                }
            },
            FetchStage::Over => FetchAction::Fail,
        }
    }

    /// Goes on from what the peer's greeting tells.
    pub fn start_parts(&mut self, facts: (Option<u8>, u64)) -> (r: FetchAction)
        ensures
            (final(self)@, r@) == greeted(old(self)@, facts),
    {
        match facts.0 {
            Some(id) => {
                if facts.1 > 0 {
                    return self.next_part(id, facts.1, count_parts(facts.1), 0);
                }
            },
            None => {},
        }
        self.stage = FetchStage::Over;
        FetchAction::Fail
    }

    fn take_part(&mut self, payload: &[u8])
        ensures
            final(self)@ == (Fetch {
                pieces: with_part(old(self)@.pieces, payload@),
                ..old(self)@
            }),
    {
        broadcast use vstd::std_specs::hash::group_hash_axioms;

        if payload.len() > 0 {
            if let Ok((piece, _total, data)) = parse_data(payload) {
                self.pieces.insert(piece, data);
            }
        }
        assert(self@.pieces =~= with_part(old(self)@.pieces, payload@));
    }

    fn next_part(&mut self, id: u8, size: u64, count: u32, part: u64) -> (r: FetchAction)
        ensures
            (final(self)@, r@) == ask_for_part(old(self)@, id, size, count, part as int),
    {
        if part < count as u64 {
            let part: u32 = part as u32;
            self.stage = FetchStage::Part { id, size, count, part, left: PART_TRIES };
            FetchAction::Send(PeerMessage::Extended { id, payload: build_request(id, part) })
        } else {
            self.stage = FetchStage::Over;
            match reassemble_metadata(&self.pieces, size) {
                Ok(info) => match Metainfo::from_bytes(info.as_slice()) {
                    Ok(m) => FetchAction::Finish(m),
                    Err(_) => FetchAction::Fail,
                },
                Err(_) => FetchAction::Fail,
            }
        }
    }
}

/// How many more messages fetching can take at most.
pub open spec fn messages_left(f: Fetch) -> int {
    match f.stage {
        FetchStage::Greeting { left } => left + 0x1_0000_0000 * PART_TRIES,
        FetchStage::Part { count, part, left, .. } => if part < count {
            left + (count - part - 1) * PART_TRIES
        } else {
            0
        },
        FetchStage::Over => 0,
    }
}

/// Whether the numbers in a stage are those that fetching goes through.
pub open spec fn stage_is_sound(f: Fetch) -> bool {
    match f.stage {
        FetchStage::Greeting { left } => left >= 1,
        FetchStage::Part { count, part, left, .. } => part < count && 1 <= left <= PART_TRIES,
        FetchStage::Over => true,
    }
}

/// Fetching ends, whatever the peer sends: every message brings it nearer to its end.
pub proof fn law_fetching_ends(f: Fetch, msg: Message)
    requires
        stage_is_sound(f),
        f.stage !is Over,
    ensures
        stage_is_sound(fetch_after(f, msg).0),
        0 <= messages_left(fetch_after(f, msg).0) < messages_left(f),
        fetch_after(f, msg).0.stage is Over <==> (fetch_after(f, msg).1 is Finish || fetch_after(
            f,
            msg,
        ).1 is Fail),
{
}

} // verus!
