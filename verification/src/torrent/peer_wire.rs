//! The messages that peers exchange.
use crate::bytes::append_slice;
use crate::bytes::array20;
use crate::bytes::be_digits;
use crate::bytes::be_value;
use crate::bytes::copy_range;
use crate::bytes::lemma_be_digits_len;
use crate::bytes::lemma_be_roundtrip;
use crate::bytes::lemma_pow256_values;
use crate::bytes::push_u16_be;
use crate::bytes::push_u32_be;
use crate::bytes::read_u16_be;
use crate::bytes::read_u32_be;
use crate::bytes::same_bytes;
use crate::text::decimal;
use crate::text::push_decimal;
use crate::torrent::error::bad_peer;
use crate::torrent::error::TorrentError;
use crate::torrent::error::TorrentFault;
use vstd::prelude::*;
use vstd::string::*;

verus! {

/// The longest message that is read.
pub const MAX_MESSAGE_LENGTH: usize = 16_777_216;

/// The length of a handshake.
pub const HANDSHAKE_LENGTH: usize = 68;

/// A message between peers.
#[derive(Debug, Clone, PartialEq, Eq)]
pub enum PeerMessage {
    /// The greeting that comes first.
    Handshake { info_hash: [u8; 20], peer_id: [u8; 20], reserved: [u8; 8] },
    /// Nothing, to keep the connection open.
    KeepAlive,
    /// The sender will not upload.
    Choke,
    /// The sender will upload.
    Unchoke,
    /// The sender wants pieces.
    Interested,
    /// The sender wants no pieces.
    NotInterested,
    /// The sender has a piece.
    Have { index: u32 },
    /// Which pieces the sender has.
    Bitfield { bits: Vec<u8> },
    /// The sender asks for a block.
    Request { index: u32, begin: u32, length: u32 },
    /// A block.
    Piece { index: u32, begin: u32, data: Vec<u8> },
    /// The sender no longer asks for a block.
    Cancel { index: u32, begin: u32, length: u32 },
    /// The port of the sender's lookup node.
    Port { port: u16 },
    /// A message of an extension.
    Extended { id: u8, payload: Vec<u8> },
}

/// A `PeerMessage` over sequences.
#[verifier::ext_equal]
pub enum Message {
    Handshake { info_hash: Seq<u8>, peer_id: Seq<u8>, reserved: Seq<u8> },
    KeepAlive,
    Choke,
    Unchoke,
    Interested,
    NotInterested,
    Have { index: u32 },
    Bitfield { bits: Seq<u8> },
    Request { index: u32, begin: u32, length: u32 },
    Piece { index: u32, begin: u32, data: Seq<u8> },
    Cancel { index: u32, begin: u32, length: u32 },
    Port { port: u16 },
    Extended { id: u8, payload: Seq<u8> },
}

impl View for PeerMessage {
    type V = Message;

    open spec fn view(&self) -> Message {
        match self {
            PeerMessage::Handshake { info_hash, peer_id, reserved } => Message::Handshake {
                info_hash: info_hash@,
                peer_id: peer_id@,
                reserved: reserved@,
            },
            PeerMessage::KeepAlive => Message::KeepAlive,
            PeerMessage::Choke => Message::Choke,
            PeerMessage::Unchoke => Message::Unchoke,
            PeerMessage::Interested => Message::Interested,
            PeerMessage::NotInterested => Message::NotInterested,
            PeerMessage::Have { index } => Message::Have { index: *index },
            PeerMessage::Bitfield { bits } => Message::Bitfield { bits: bits@ },
            PeerMessage::Request { index, begin, length } => Message::Request {
                index: *index,
                begin: *begin,
                length: *length,
            },
            PeerMessage::Piece { index, begin, data } => Message::Piece {
                index: *index,
                begin: *begin,
                data: data@,
            },
            PeerMessage::Cancel { index, begin, length } => Message::Cancel {
                index: *index,
                begin: *begin,
                length: *length,
            },
            PeerMessage::Port { port } => Message::Port { port: *port },
            PeerMessage::Extended { id, payload } => Message::Extended {
                id: *id,
                payload: payload@,
            },
        }
    }
}

/// The name of the protocol, after its length.
pub open spec fn protocol_name() -> Seq<u8> {
    seq![
        19u8,
        0x42u8,
        0x69u8,
        0x74u8,
        0x54u8,
        0x6fu8,
        0x72u8,
        0x72u8,
        0x65u8,
        0x6eu8,
        0x74u8,
        0x20u8,
        0x70u8,
        0x72u8,
        0x6fu8,
        0x74u8,
        0x6fu8,
        0x63u8,
        0x6fu8,
        0x6cu8,
    ]
}

/// Three numbers of four bytes.
pub open spec fn three_numbers(a: u32, b: u32, c: u32) -> Seq<u8> {
    be_digits(a as nat, 4) + be_digits(b as nat, 4) + be_digits(c as nat, 4)
}

/// What follows the length of a message.
pub open spec fn body_of(m: Message) -> Seq<u8> {
    match m {
        Message::Handshake { .. } => Seq::empty(),
        Message::KeepAlive => Seq::empty(),
        Message::Choke => seq![0u8],
        Message::Unchoke => seq![1u8],
        Message::Interested => seq![2u8],
        Message::NotInterested => seq![3u8],
        Message::Have { index } => seq![4u8] + be_digits(index as nat, 4),
        Message::Bitfield { bits } => seq![5u8] + bits,
        Message::Request { index, begin, length } => seq![6u8] + three_numbers(
            index,
            begin,
            length,
        ),
        Message::Piece { index, begin, data } => seq![7u8] + be_digits(index as nat, 4)
            + be_digits(begin as nat, 4) + data,
        Message::Cancel { index, begin, length } => seq![8u8] + three_numbers(index, begin, length),
        Message::Port { port } => seq![9u8] + be_digits(port as nat, 2),
        Message::Extended { id, payload } => seq![20u8, id] + payload,
    }
}

/// The bytes of a message: the low four bytes of the length of its body, and the body. A
/// handshake has no length.
pub open spec fn message_bytes(m: Message) -> Seq<u8> {
    match m {
        Message::Handshake { info_hash, peer_id, reserved } => protocol_name() + reserved
            + info_hash + peer_id,
        _ => be_digits(body_of(m).len(), 4) + body_of(m),
    }
}

/// The message that a body holds: nothing for a type that is not known.
pub open spec fn message_in(body: Seq<u8>) -> Result<Option<Message>, TorrentFault> {
    let p = body.skip(1);
    let a = be_value(p.subrange(0, 4)) as u32;
    let b = be_value(p.subrange(4, 8)) as u32;
    let c = be_value(p.subrange(8, 12)) as u32;
    match body[0] {
        0 => Ok(Some(Message::Choke)),
        1 => Ok(Some(Message::Unchoke)),
        2 => Ok(Some(Message::Interested)),
        3 => Ok(Some(Message::NotInterested)),
        4 => if p.len() < 4 {
            Err(TorrentFault::PeerWireError("Have: payload too short"@))
        } else {
            Ok(Some(Message::Have { index: a }))
        },
        5 => Ok(Some(Message::Bitfield { bits: p })),
        6 => if p.len() < 12 {
            Err(TorrentFault::PeerWireError("Request: payload too short"@))
        } else {
            Ok(Some(Message::Request { index: a, begin: b, length: c }))
        },
        7 => if p.len() < 8 {
            Err(TorrentFault::PeerWireError("Piece: payload too short"@))
        } else {
            Ok(Some(Message::Piece { index: a, begin: b, data: p.skip(8) }))
        },
        8 => if p.len() < 12 {
            Err(TorrentFault::PeerWireError("Cancel: payload too short"@))
        } else {
            Ok(Some(Message::Cancel { index: a, begin: b, length: c }))
        },
        9 => if p.len() < 2 {
            Err(TorrentFault::PeerWireError("Port: payload too short"@))
        } else {
            Ok(Some(Message::Port { port: be_value(p.subrange(0, 2)) as u16 }))
        },
        20 => if p.len() == 0 {
            Err(TorrentFault::PeerWireError("Extended: payload too short"@))
        } else {
            Ok(Some(Message::Extended { id: p[0], payload: p.skip(1) }))
        },
        _ => Ok(None),
    }
}

/// The message that a buffer starts with and its length in bytes. Nothing where the message is
/// not there in full or its type is not known.
pub open spec fn first_message(buf: Seq<u8>) -> Result<Option<(Message, nat)>, TorrentFault> {
    let length = be_value(buf.subrange(0, 4));
    if buf.len() < 4 {
        Ok(None)
    } else if length > MAX_MESSAGE_LENGTH {
        Err(
            TorrentFault::PeerWireError(
                "message length "@ + decimal(length) + " exceeds maximum "@ + decimal(
                    MAX_MESSAGE_LENGTH as nat,
                ),
            ),
        )
    } else if length == 0 {
        Ok(Some((Message::KeepAlive, 4)))
    } else if buf.len() < 4 + length {
        Ok(None)
    } else {
        match message_in(buf.subrange(4, 4 + length as int)) {
            Err(f) => Err(f),
            Ok(None) => Ok(None),
            Ok(Some(m)) => Ok(Some((m, 4 + length))),
        }
    }
}

/// The handshake that a buffer starts with. Nothing where it is not there in full.
pub open spec fn first_handshake(buf: Seq<u8>) -> Result<Option<Message>, TorrentFault> {
    if buf.len() < HANDSHAKE_LENGTH {
        Ok(None)
    } else if buf.subrange(0, 20) != protocol_name() {
        Err(TorrentFault::PeerWireError("Invalid handshake protocol string"@))
    } else {
        Ok(
            Some(
                Message::Handshake {
                    reserved: buf.subrange(20, 28),
                    info_hash: buf.subrange(28, 48),
                    peer_id: buf.subrange(48, 68),
                },
            ),
        )
    }
}

proof fn lemma_low_digits(x: nat)
    ensures
        be_digits(x % 0x1_0000_0000, 4) == be_digits(x, 4),
{
    reveal_with_fuel(be_digits, 5);
    let y = x % 0x1_0000_0000;
    assert(y % 256 == x % 256);
    assert((y / 256) % 256 == (x / 256) % 256);
    assert((y / 256 / 256) % 256 == (x / 256 / 256) % 256);
    assert((y / 256 / 256 / 256) % 256 == (x / 256 / 256 / 256) % 256);
}

/// Appends the low four bytes of `extra + len`.
fn push_length(buf: &mut Vec<u8>, extra: u32, len: usize)
    requires
        extra <= 9,
    ensures
        final(buf)@ == old(buf)@ + be_digits((extra + len) as nat, 4),
{
    let low: u64 = (len as u64 % 0x1_0000_0000 + extra as u64) % 0x1_0000_0000;
    proof {
        assert(low == (extra + len) % 0x1_0000_0000);
        lemma_low_digits((extra + len) as nat);
    }
    push_u32_be(buf, low as u32);
}

fn encode_simple(id: u8) -> (buf: Vec<u8>)
    ensures
        buf@ == be_digits(1, 4) + seq![id],
{
    let mut buf: Vec<u8> = Vec::new();
    push_u32_be(&mut buf, 1);
    buf.push(id);
    assert(buf@ =~= be_digits(1, 4) + seq![id]);
    buf
}

fn push_three(buf: &mut Vec<u8>, a: u32, b: u32, c: u32)
    ensures
        final(buf)@ == old(buf)@ + three_numbers(a, b, c),
{
    push_u32_be(buf, a);
    push_u32_be(buf, b);
    push_u32_be(buf, c);
    assert(buf@ =~= old(buf)@ + three_numbers(a, b, c));
}

fn push_protocol(buf: &mut Vec<u8>)
    requires
        old(buf)@.len() == 0,
    ensures
        final(buf)@ == protocol_name(),
{
    buf.push(19);
    buf.push(0x42);
    buf.push(0x69);
    buf.push(0x74);
    buf.push(0x54);
    buf.push(0x6f);
    buf.push(0x72);
    buf.push(0x72);
    buf.push(0x65);
    buf.push(0x6e);
    buf.push(0x74);
    buf.push(0x20);
    buf.push(0x70);
    buf.push(0x72);
    buf.push(0x6f);
    buf.push(0x74);
    buf.push(0x6f);
    buf.push(0x63);
    buf.push(0x6f);
    buf.push(0x6c);
    assert(buf@ =~= protocol_name());
}

fn array8(s: &[u8], at: usize) -> (r: [u8; 8])
    requires
        at + 8 <= s@.len(),
    ensures
        r@ == s@.subrange(at as int, at + 8),
{
    let r: [u8; 8] = [
        s[at],
        s[at + 1],
        s[at + 2],
        s[at + 3],
        s[at + 4],
        s[at + 5],
        s[at + 6],
        s[at + 7],
    ];
    assert(r@ =~= s@.subrange(at as int, at + 8));
    r
}

impl PeerMessage {
    /// The bytes of the message.
    pub fn encode(&self) -> (buf: Vec<u8>)
        ensures
            buf@ == message_bytes(self@),
    {
        proof {
            lemma_be_digits_len(0, 4);
        }
        match self {
            PeerMessage::Handshake { info_hash, peer_id, reserved } => {
                let mut buf: Vec<u8> = Vec::new();
                push_protocol(&mut buf);
                append_slice(&mut buf, reserved.as_slice());
                append_slice(&mut buf, info_hash.as_slice());
                append_slice(&mut buf, peer_id.as_slice());
                buf
            },
            PeerMessage::KeepAlive => {
                let mut buf: Vec<u8> = Vec::new();
                push_u32_be(&mut buf, 0);
                assert(buf@ =~= message_bytes(self@));
                buf
            },
            PeerMessage::Choke => encode_simple(0),
            PeerMessage::Unchoke => encode_simple(1),
            PeerMessage::Interested => encode_simple(2),
            PeerMessage::NotInterested => encode_simple(3),
            PeerMessage::Have { index } => {
                let mut buf: Vec<u8> = Vec::new();
                push_u32_be(&mut buf, 5);
                buf.push(4);
                push_u32_be(&mut buf, *index);
                proof {
                    lemma_be_digits_len(*index as nat, 4);
                    assert(buf@ =~= message_bytes(self@));
                }
                buf
            },
            PeerMessage::Bitfield { bits } => {
                let mut buf: Vec<u8> = Vec::new();
                push_length(&mut buf, 1, bits.len());
                buf.push(5);
                append_slice(&mut buf, bits.as_slice());
                assert(buf@ =~= message_bytes(self@));
                buf
            },
            PeerMessage::Request { index, begin, length } => {
                let mut buf: Vec<u8> = Vec::new();
                push_u32_be(&mut buf, 13);
                buf.push(6);
                push_three(&mut buf, *index, *begin, *length);
                proof {
                    lemma_three_len(*index, *begin, *length);
                    assert(buf@ =~= message_bytes(self@));
                }
                buf
            },
            PeerMessage::Piece { index, begin, data } => {
                let mut buf: Vec<u8> = Vec::new();
                push_length(&mut buf, 9, data.len());
                buf.push(7);
                push_u32_be(&mut buf, *index);
                push_u32_be(&mut buf, *begin);
                append_slice(&mut buf, data.as_slice());
                proof {
                    lemma_be_digits_len(*index as nat, 4);
                    lemma_be_digits_len(*begin as nat, 4);
                    assert(body_of(self@).len() == 9 + data@.len());
                    assert(buf@ =~= message_bytes(self@));
                }
                buf
            },
            PeerMessage::Cancel { index, begin, length } => {
                let mut buf: Vec<u8> = Vec::new();
                push_u32_be(&mut buf, 13);
                buf.push(8);
                push_three(&mut buf, *index, *begin, *length);
                proof {
                    lemma_three_len(*index, *begin, *length);
                    assert(buf@ =~= message_bytes(self@));
                }
                buf
            },
            PeerMessage::Port { port } => {
                let mut buf: Vec<u8> = Vec::new();
                push_u32_be(&mut buf, 3);
                buf.push(9);
                push_u16_be(&mut buf, *port);
                proof {
                    lemma_be_digits_len(*port as nat, 2);
                    assert(buf@ =~= message_bytes(self@));
                }
                buf
            },
            PeerMessage::Extended { id, payload } => {
                let mut buf: Vec<u8> = Vec::new();
                push_length(&mut buf, 2, payload.len());
                buf.push(20);
                buf.push(*id);
                append_slice(&mut buf, payload.as_slice());
                assert(buf@ =~= message_bytes(self@));
                buf
            },
        }
    }

    fn decode_body(body: &[u8]) -> (r: Result<Option<PeerMessage>, TorrentError>)
        requires
            body@.len() > 0,
        ensures
            match message_in(body@) {
                Ok(Some(m)) => r matches Ok(Some(v)) && v@ == m,
                Ok(None) => r matches Ok(None),
                Err(f) => r matches Err(e) && e@ == f,
            },
    {
        let payload: &[u8] = vstd::slice::slice_subrange(body, 1, body.len());
        assert(payload@ =~= body@.skip(1));
        match body[0] {
            0 => Ok(Some(PeerMessage::Choke)),
            1 => Ok(Some(PeerMessage::Unchoke)),
            2 => Ok(Some(PeerMessage::Interested)),
            3 => Ok(Some(PeerMessage::NotInterested)),
            4 => {
                if payload.len() < 4 {
                    return Err(bad_peer("Have: payload too short"));
                }
                Ok(Some(PeerMessage::Have { index: read_u32_be(payload, 0) }))
            },
            5 => {
                let bits: Vec<u8> = copy_range(payload, 0, payload.len());
                assert(bits@ =~= payload@);
                Ok(Some(PeerMessage::Bitfield { bits }))
            },
            6 => {
                if payload.len() < 12 {
                    return Err(bad_peer("Request: payload too short"));
                }
                Ok(
                    Some(
                        PeerMessage::Request {
                            index: read_u32_be(payload, 0),
                            begin: read_u32_be(payload, 4),
                            length: read_u32_be(payload, 8),
                        },
                    ),
                )
            },
            7 => {
                if payload.len() < 8 {
                    return Err(bad_peer("Piece: payload too short"));
                }
                let data: Vec<u8> = copy_range(payload, 8, payload.len());
                assert(data@ =~= payload@.skip(8));
                Ok(
                    Some(
                        PeerMessage::Piece {
                            index: read_u32_be(payload, 0),
                            begin: read_u32_be(payload, 4),
                            data,
                        },
                    ),
                )
            },
            8 => {
                if payload.len() < 12 {
                    return Err(bad_peer("Cancel: payload too short"));
                }
                Ok(
                    Some(
                        PeerMessage::Cancel {
                            index: read_u32_be(payload, 0),
                            begin: read_u32_be(payload, 4),
                            length: read_u32_be(payload, 8),
                        },
                    ),
                )
            },
            9 => {
                if payload.len() < 2 {
                    return Err(bad_peer("Port: payload too short"));
                }
                Ok(Some(PeerMessage::Port { port: read_u16_be(payload, 0) }))
            },
            20 => {
                if payload.len() == 0 {
                    return Err(bad_peer("Extended: payload too short"));
                }
                let rest: Vec<u8> = copy_range(payload, 1, payload.len());
                assert(rest@ =~= payload@.skip(1));
                Ok(Some(PeerMessage::Extended { id: payload[0], payload: rest }))
            },
            _ => Ok(None),
        }
    }

    /// Reads the message that a buffer starts with, and says how many bytes it takes.
    pub fn decode(buf: &[u8]) -> (r: Result<Option<(PeerMessage, usize)>, TorrentError>)
        ensures
            match first_message(buf@) {
                Ok(Some((m, n))) => r matches Ok(Some(v)) && v.0@ == m && v.1 == n,
                Ok(None) => r matches Ok(None),
                Err(f) => r matches Err(e) && e@ == f,
            },
    {
        if buf.len() < 4 {
            return Ok(None);
        }
        let length: usize = read_u32_be(buf, 0) as usize;
        if length > MAX_MESSAGE_LENGTH {
            let mut m: String = "message length ".to_owned();
            push_decimal(&mut m, length as u64);
            m.append(" exceeds maximum ");
            push_decimal(&mut m, MAX_MESSAGE_LENGTH as u64);
            return Err(TorrentError::PeerWireError(m));
        }
        if length == 0 {
            return Ok(Some((PeerMessage::KeepAlive, 4)));
        }
        if buf.len() < 4 + length {
            return Ok(None);
        }
        match Self::decode_body(vstd::slice::slice_subrange(buf, 4, 4 + length)) {
            Err(e) => Err(e),
            Ok(None) => Ok(None),
            Ok(Some(m)) => Ok(Some((m, 4 + length))),
        }
    }

    /// Reads the handshake that a buffer starts with, and says how many bytes it takes.
    pub fn decode_handshake(buf: &[u8]) -> (r: Result<Option<(PeerMessage, usize)>, TorrentError>)
        ensures
            match first_handshake(buf@) {
                Ok(Some(m)) => r matches Ok(Some(v)) && v.0@ == m && v.1 == HANDSHAKE_LENGTH,
                Ok(None) => r matches Ok(None),
                Err(f) => r matches Err(e) && e@ == f,
            },
    {
        if buf.len() < HANDSHAKE_LENGTH {
            return Ok(None);
        }
        let mut name: Vec<u8> = Vec::new();
        push_protocol(&mut name);
        if !same_bytes(vstd::slice::slice_subrange(buf, 0, 20), name.as_slice()) {
            return Err(bad_peer("Invalid handshake protocol string"));
        }
        Ok(
            Some(
                (
                    PeerMessage::Handshake {
                        info_hash: array20(buf, 28),
                        peer_id: array20(buf, 48),
                        reserved: array8(buf, 20),
                    },
                    HANDSHAKE_LENGTH,
                ),
            ),
        )
    }
}

proof fn lemma_three_len(a: u32, b: u32, c: u32)
    ensures
        three_numbers(a, b, c).len() == 12,
{
    lemma_be_digits_len(a as nat, 4);
    lemma_be_digits_len(b as nat, 4);
    lemma_be_digits_len(c as nat, 4);
}

proof fn lemma_three_read(s: Seq<u8>, a: u32, b: u32, c: u32)
    requires
        s == three_numbers(a, b, c),
    ensures
        s.len() == 12,
        be_value(s.subrange(0, 4)) == a,
        be_value(s.subrange(4, 8)) == b,
        be_value(s.subrange(8, 12)) == c,
{
    lemma_three_len(a, b, c);
    lemma_pow256_values();
    lemma_be_roundtrip(a as nat, 4);
    lemma_be_roundtrip(b as nat, 4);
    lemma_be_roundtrip(c as nat, 4);
    assert(s.subrange(0, 4) =~= be_digits(a as nat, 4));
    assert(s.subrange(4, 8) =~= be_digits(b as nat, 4));
    assert(s.subrange(8, 12) =~= be_digits(c as nat, 4));
}

proof fn lemma_body_read(m: Message)
    requires
        m !is Handshake,
        m !is KeepAlive,
    ensures
        body_of(m).len() > 0,
        message_in(body_of(m)) == Ok::<Option<Message>, TorrentFault>(Some(m)),
{
    let body = body_of(m);
    let p = body.skip(1);
    lemma_pow256_values();
    match m {
        Message::Have { index } => {
            lemma_be_roundtrip(index as nat, 4);
            assert(p.subrange(0, 4) =~= be_digits(index as nat, 4));
        },
        Message::Bitfield { bits } => {
            assert(p =~= bits);
        },
        Message::Request { index, begin, length } => {
            assert(p =~= three_numbers(index, begin, length));
            lemma_three_read(p, index, begin, length);
        },
        Message::Cancel { index, begin, length } => {
            assert(p =~= three_numbers(index, begin, length));
            lemma_three_read(p, index, begin, length);
        },
        Message::Piece { index, begin, data } => {
            lemma_be_roundtrip(index as nat, 4);
            lemma_be_roundtrip(begin as nat, 4);
            assert(p.subrange(0, 4) =~= be_digits(index as nat, 4));
            assert(p.subrange(4, 8) =~= be_digits(begin as nat, 4));
            assert(p.skip(8) =~= data);
        },
        Message::Port { port } => {
            lemma_be_roundtrip(port as nat, 2);
            assert(p.subrange(0, 2) =~= be_digits(port as nat, 2));
        },
        Message::Extended { id, payload } => {
            assert(p[0] == id);
            assert(p.skip(1) =~= payload);
        },
        _ => {},
    }
}

/// A message that is not too long is read back from its bytes, whatever follows them.
pub proof fn law_message_roundtrip(m: Message, rest: Seq<u8>)
    requires
        m !is Handshake,
        body_of(m).len() <= MAX_MESSAGE_LENGTH,
    ensures
        first_message(message_bytes(m) + rest) == Ok::<Option<(Message, nat)>, TorrentFault>(
            Some((m, message_bytes(m).len())),
        ),
{
    let buf = message_bytes(m) + rest;
    let n = body_of(m).len();
    lemma_pow256_values();
    lemma_be_roundtrip(n, 4);
    assert(buf.subrange(0, 4) =~= be_digits(n, 4));
    if m !is KeepAlive {
        lemma_body_read(m);
        assert(buf.subrange(4, 4 + n as int) =~= body_of(m));
    }
}

/// A handshake is read back from its bytes, whatever follows them.
pub proof fn law_handshake_roundtrip(m: Message, rest: Seq<u8>)
    requires
        m matches Message::Handshake { info_hash, peer_id, reserved } && info_hash.len() == 20
            && peer_id.len() == 20 && reserved.len() == 8,
    ensures
        first_handshake(message_bytes(m) + rest) == Ok::<Option<Message>, TorrentFault>(Some(m)),
        message_bytes(m).len() == HANDSHAKE_LENGTH,
{
    let buf = message_bytes(m) + rest;
    assert(protocol_name().len() == 20);
    assert(buf.subrange(0, 20) =~= protocol_name());
    if let Message::Handshake { info_hash, peer_id, reserved } = m {
        assert(buf.subrange(20, 28) =~= reserved);
        assert(buf.subrange(28, 48) =~= info_hash);
        assert(buf.subrange(48, 68) =~= peer_id);
    }
}

/// How far a connection has come.
#[derive(Debug, Clone, Copy, PartialEq, Eq, Structural)]
pub enum PeerState {
    /// No greeting was sent.
    Connecting,
    /// A greeting was sent and none came.
    Handshaking,
    /// Greetings were exchanged.
    Connected,
    /// The connection is closed.
    Disconnected,
}

/// Who uploads to whom, and who wants to download.
#[derive(Debug, Clone, Copy, PartialEq, Eq, Structural)]
pub struct PeerChokeState {
    /// We do not upload.
    pub am_choking: bool,
    /// We want to download.
    pub am_interested: bool,
    /// The peer does not upload.
    pub peer_choking: bool,
    /// The peer wants to download.
    pub peer_interested: bool,
}

impl Default for PeerChokeState {
    /// Both choke and neither is interested.
    fn default() -> (s: Self)
        ensures
            s.am_choking && !s.am_interested && s.peer_choking && !s.peer_interested,
    {
        PeerChokeState {
            am_choking: true,
            am_interested: false,
            peer_choking: true,
            peer_interested: false,
        }
    }
}

} // verus!
