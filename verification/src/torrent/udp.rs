//! Trackers over UDP: the datagrams that are sent and how the answers are read.
use crate::bytes::append_slice;
use crate::bytes::be_digits;
use crate::bytes::be_value;
use crate::bytes::lemma_be_roundtrip;
use crate::bytes::lemma_pow256_values;
use crate::bytes::push_u16_be;
use crate::bytes::push_u32_be;
use crate::bytes::push_u64_be;
use crate::bytes::read_u32_be;
use crate::bytes::read_u64_be;
use crate::text::decode_lossy;
use crate::text::lossy_text;
use crate::torrent::error::bad_tracker;
use crate::torrent::error::TorrentError;
use crate::torrent::error::TorrentFault;
use crate::torrent::tracker::compact_peers;
use crate::torrent::tracker::parse_compact_peers;
use crate::torrent::tracker::peer_views;
use crate::torrent::tracker::AnnounceEvent;
use crate::torrent::tracker::TrackerPeer;
use vstd::prelude::*;

verus! {

/// The number that a connection starts with.
pub const PROTOCOL_ID: u64 = 0x417_2710_1980;

/// Asks for a connection.
pub const ACTION_CONNECT: u32 = 0;

/// Tells of a client.
pub const ACTION_ANNOUNCE: u32 = 1;

/// Asks for counts.
pub const ACTION_SCRAPE: u32 = 2;

/// Tells of an error.
pub const ACTION_ERROR: u32 = 3;

/// The datagram that asks for a connection.
pub open spec fn connect_bytes(transaction_id: u32) -> Seq<u8> {
    be_digits(PROTOCOL_ID as nat, 8) + be_digits(ACTION_CONNECT as nat, 4) + be_digits(
        transaction_id as nat,
        4,
    )
}

/// Writes the datagram that asks for a connection.
pub fn encode_connect(transaction_id: u32) -> (buf: Vec<u8>)
    ensures
        buf@ == connect_bytes(transaction_id),
{
    let mut buf: Vec<u8> = Vec::new();
    push_u64_be(&mut buf, PROTOCOL_ID);
    push_u32_be(&mut buf, ACTION_CONNECT);
    push_u32_be(&mut buf, transaction_id);
    assert(buf@ =~= connect_bytes(transaction_id));
    buf
}

/// What is wrong with an answer: it is shorter than `least` bytes, or tells of an error, or is not
/// about `action`.
pub open spec fn answer_fault(data: Seq<u8>, least: nat, short: Seq<char>, action: u32) -> Option<
    TorrentFault,
> {
    if data.len() < least {
        Some(TorrentFault::TrackerError(short))
    } else if be_value(data.subrange(0, 4)) == ACTION_ERROR {
        Some(TorrentFault::TrackerError(lossy_text(data.skip(8))))
    } else if be_value(data.subrange(0, 4)) != action {
        Some(TorrentFault::TrackerError("unexpected action"@))
    } else {
        None
    }
}

fn check_answer(data: &[u8], least: usize, short: &str, action: u32) -> (r: Result<
    (),
    TorrentError,
>)
    requires
        least >= 8,
    ensures
        match answer_fault(data@, least as nat, short@, action) {
            None => r is Ok && data@.len() >= least,
            Some(f) => r matches Err(e) && e@ == f,
        },
{
    if data.len() < least {
        return Err(bad_tracker(short));
    }
    let got: u32 = read_u32_be(data, 0);
    if got == ACTION_ERROR {
        let text: &[u8] = vstd::slice::slice_subrange(data, 8, data.len());
        assert(text@ =~= data@.skip(8));
        return Err(TorrentError::TrackerError(decode_lossy(text)));
    }
    if got != action {
        return Err(bad_tracker("unexpected action"));
    }
    Ok(())
}

/// Reads the number of a connection.
pub fn decode_connect_response(data: &[u8]) -> (r: Result<u64, TorrentError>)
    ensures
        match answer_fault(data@, 16, "connect response too short"@, ACTION_CONNECT) {
            None => r matches Ok(id) && id == be_value(data@.subrange(8, 16)),
            Some(f) => r matches Err(e) && e@ == f,
        },
{
    check_answer(data, 16, "connect response too short", ACTION_CONNECT)?;
    Ok(read_u64_be(data, 8))
}

/// What a tracker is told.
pub struct UdpAnnounceParams<'a> {
    /// The digest that names the torrent.
    pub info_hash: &'a [u8; 20],
    /// The name of the client.
    pub peer_id: &'a [u8; 20],
    /// The bytes that were downloaded.
    pub downloaded: u64,
    /// The bytes that are missing.
    pub left: u64,
    /// The bytes that were uploaded.
    pub uploaded: u64,
    /// Why the tracker is told.
    pub event: AnnounceEvent,
    /// The port of the client.
    pub port: u16,
}

/// The number of an event.
pub open spec fn event_number(e: AnnounceEvent) -> nat {
    match e {
        AnnounceEvent::Regular => 0,
        AnnounceEvent::Completed => 1,
        AnnounceEvent::Started => 2,
        AnnounceEvent::Stopped => 3,
    }
}

/// The datagram that tells of a client. Its address, its key and the number of peers are left to
/// the tracker.
pub open spec fn announce_bytes(connection_id: u64, transaction_id: u32, p: UdpAnnounceParams) -> Seq<
    u8,
> {
    be_digits(connection_id as nat, 8) + be_digits(ACTION_ANNOUNCE as nat, 4) + be_digits(
        transaction_id as nat,
        4,
    ) + p.info_hash@ + p.peer_id@ + be_digits(p.downloaded as nat, 8) + be_digits(
        p.left as nat,
        8,
    ) + be_digits(p.uploaded as nat, 8) + be_digits(event_number(p.event), 4) + be_digits(0, 4)
        + be_digits(0, 4) + be_digits(0xffff_ffff, 4) + be_digits(p.port as nat, 2)
}

/// Writes the datagram that tells of a client.
pub fn encode_announce(connection_id: u64, transaction_id: u32, params: &UdpAnnounceParams) -> (buf:
    Vec<u8>)
    ensures
        buf@ == announce_bytes(connection_id, transaction_id, *params),
{
    let code: u32 = match params.event {
        AnnounceEvent::Regular => 0,
        AnnounceEvent::Completed => 1,
        AnnounceEvent::Started => 2,
        AnnounceEvent::Stopped => 3,
    };
    let mut buf: Vec<u8> = Vec::new();
    push_u64_be(&mut buf, connection_id);
    push_u32_be(&mut buf, ACTION_ANNOUNCE);
    push_u32_be(&mut buf, transaction_id);
    append_slice(&mut buf, params.info_hash.as_slice());
    append_slice(&mut buf, params.peer_id.as_slice());
    push_u64_be(&mut buf, params.downloaded);
    push_u64_be(&mut buf, params.left);
    push_u64_be(&mut buf, params.uploaded);
    push_u32_be(&mut buf, code);
    push_u32_be(&mut buf, 0);
    push_u32_be(&mut buf, 0);
    push_u32_be(&mut buf, 0xffff_ffff);
    push_u16_be(&mut buf, params.port);
    assert(buf@ =~= announce_bytes(connection_id, transaction_id, *params));
    buf
}

/// Reads the answer to an announcement: the pause, the counts of leechers and seeders, and peers.
pub fn decode_announce_response(data: &[u8]) -> (r: Result<
    (u32, u32, u32, Vec<TrackerPeer>),
    TorrentError,
>)
    ensures
        match answer_fault(data@, 20, "announce response too short"@, ACTION_ANNOUNCE) {
            None => r matches Ok(v) && v.0 == be_value(data@.subrange(8, 12)) && v.1 == be_value(
                data@.subrange(12, 16),
            ) && v.2 == be_value(data@.subrange(16, 20)) && peer_views(v.3@) == compact_peers(
                data@.skip(20),
            ),
            Some(f) => r matches Err(e) && e@ == f,
        },
{
    check_answer(data, 20, "announce response too short", ACTION_ANNOUNCE)?;
    let list: &[u8] = vstd::slice::slice_subrange(data, 20, data.len());
    assert(list@ =~= data@.skip(20));
    Ok(
        (
            read_u32_be(data, 8),
            read_u32_be(data, 12),
            read_u32_be(data, 16),
            parse_compact_peers(list),
        ),
    )
}

/// The datagram that asks for the counts of a torrent.
pub open spec fn scrape_bytes(connection_id: u64, transaction_id: u32, info_hash: Seq<u8>) -> Seq<
    u8,
> {
    be_digits(connection_id as nat, 8) + be_digits(ACTION_SCRAPE as nat, 4) + be_digits(
        transaction_id as nat,
        4,
    ) + info_hash
}

/// Writes the datagram that asks for the counts of a torrent.
pub fn encode_scrape(connection_id: u64, transaction_id: u32, info_hash: &[u8; 20]) -> (buf: Vec<
    u8,
>)
    ensures
        buf@ == scrape_bytes(connection_id, transaction_id, info_hash@),
{
    let mut buf: Vec<u8> = Vec::new();
    push_u64_be(&mut buf, connection_id);
    push_u32_be(&mut buf, ACTION_SCRAPE);
    push_u32_be(&mut buf, transaction_id);
    append_slice(&mut buf, info_hash.as_slice());
    assert(buf@ =~= scrape_bytes(connection_id, transaction_id, info_hash@));
    buf
}

/// Reads the counts of a torrent: seeders, finished downloads and leechers.
pub fn decode_scrape_response(data: &[u8]) -> (r: Result<(u32, u32, u32), TorrentError>)
    ensures
        match answer_fault(data@, 20, "scrape response too short"@, ACTION_SCRAPE) {
            None => r matches Ok(v) && v.0 == be_value(data@.subrange(8, 12)) && v.1 == be_value(
                data@.subrange(12, 16),
            ) && v.2 == be_value(data@.subrange(16, 20)),
            Some(f) => r matches Err(e) && e@ == f,
        },
{
    check_answer(data, 20, "scrape response too short", ACTION_SCRAPE)?;
    Ok((read_u32_be(data, 8), read_u32_be(data, 12), read_u32_be(data, 16)))
}

/// The datagram that asks for a connection: the protocol's number, zero for the action, and the
/// number of the request.
pub proof fn law_connect_layout(transaction_id: u32)
    ensures
        ({
            let b = connect_bytes(transaction_id);
            &&& b.len() == 16
            &&& b.take(8) == seq![0u8, 0u8, 0x04u8, 0x17u8, 0x27u8, 0x10u8, 0x19u8, 0x80u8]
            &&& b.subrange(8, 12) == seq![0u8, 0u8, 0u8, 0u8]
            &&& be_value(b.subrange(12, 16)) == transaction_id
        }),
{
    let b = connect_bytes(transaction_id);
    reveal_with_fuel(be_digits, 9);
    lemma_pow256_values();
    lemma_be_roundtrip(transaction_id as nat, 4);
    assert(b.take(8) =~= seq![0u8, 0u8, 0x04u8, 0x17u8, 0x27u8, 0x10u8, 0x19u8, 0x80u8]);
    assert(b.subrange(8, 12) =~= seq![0u8, 0u8, 0u8, 0u8]);
    assert(b.subrange(12, 16) =~= be_digits(transaction_id as nat, 4));
}

/// The datagram that tells of a client has each field at its place. The event is a number: nothing
/// for a regular announcement, one for a finished download, two for a client that begins, three
/// for one that leaves. Address and key are zero, and all peers are asked for.
pub proof fn law_announce_layout(connection_id: u64, transaction_id: u32, p: UdpAnnounceParams)
    ensures
        ({
            let b = announce_bytes(connection_id, transaction_id, p);
            &&& b.len() == 98
            &&& be_value(b.take(8)) == connection_id
            &&& b.subrange(8, 12) == seq![0u8, 0u8, 0u8, 1u8]
            &&& be_value(b.subrange(12, 16)) == transaction_id
            &&& b.subrange(16, 36) == p.info_hash@
            &&& b.subrange(36, 56) == p.peer_id@
            &&& be_value(b.subrange(56, 64)) == p.downloaded
            &&& be_value(b.subrange(64, 72)) == p.left
            &&& be_value(b.subrange(72, 80)) == p.uploaded
            &&& b[80] == 0 && b[81] == 0 && b[82] == 0
            &&& p.event is Regular <==> b[83] == 0
            &&& p.event is Completed <==> b[83] == 1
            &&& p.event is Started <==> b[83] == 2
            &&& p.event is Stopped <==> b[83] == 3
            &&& b.subrange(84, 92) == seq![0u8, 0u8, 0u8, 0u8, 0u8, 0u8, 0u8, 0u8]
            &&& b.subrange(92, 96) == seq![0xffu8, 0xffu8, 0xffu8, 0xffu8]
            &&& be_value(b.subrange(96, 98)) == p.port
        }),
{
    let b = announce_bytes(connection_id, transaction_id, p);
    lemma_pow256_values();
    lemma_be_roundtrip(connection_id as nat, 8);
    lemma_be_roundtrip(transaction_id as nat, 4);
    lemma_be_roundtrip(p.downloaded as nat, 8);
    lemma_be_roundtrip(p.left as nat, 8);
    lemma_be_roundtrip(p.uploaded as nat, 8);
    lemma_be_roundtrip(p.port as nat, 2);
    reveal_with_fuel(be_digits, 5);
    assert(b.take(8) =~= be_digits(connection_id as nat, 8));
    assert(b.subrange(8, 12) =~= seq![0u8, 0u8, 0u8, 1u8]);
    assert(b.subrange(12, 16) =~= be_digits(transaction_id as nat, 4));
    assert(b.subrange(16, 36) =~= p.info_hash@);
    assert(b.subrange(36, 56) =~= p.peer_id@);
    assert(b.subrange(56, 64) =~= be_digits(p.downloaded as nat, 8));
    assert(b.subrange(64, 72) =~= be_digits(p.left as nat, 8));
    assert(b.subrange(72, 80) =~= be_digits(p.uploaded as nat, 8));
    assert(b.subrange(80, 84) =~= be_digits(event_number(p.event), 4));
    assert(b[80] == b.subrange(80, 84)[0]);
    assert(b[81] == b.subrange(80, 84)[1]);
    assert(b[82] == b.subrange(80, 84)[2]);
    assert(b[83] == b.subrange(80, 84)[3]);
    assert(b.subrange(84, 92) =~= seq![0u8, 0u8, 0u8, 0u8, 0u8, 0u8, 0u8, 0u8]);
    assert(b.subrange(92, 96) =~= seq![0xffu8, 0xffu8, 0xffu8, 0xffu8]);
    assert(b.subrange(96, 98) =~= be_digits(p.port as nat, 2));
}

/// The datagram that asks for the counts of a torrent has each field at its place.
pub proof fn law_scrape_layout(connection_id: u64, transaction_id: u32, info_hash: Seq<u8>)
    ensures
        ({
            let b = scrape_bytes(connection_id, transaction_id, info_hash);
            &&& b.len() == 16 + info_hash.len()
            &&& be_value(b.take(8)) == connection_id
            &&& b.subrange(8, 12) == seq![0u8, 0u8, 0u8, 2u8]
            &&& be_value(b.subrange(12, 16)) == transaction_id
            &&& b.skip(16) == info_hash
        }),
{
    let b = scrape_bytes(connection_id, transaction_id, info_hash);
    lemma_pow256_values();
    lemma_be_roundtrip(connection_id as nat, 8);
    lemma_be_roundtrip(transaction_id as nat, 4);
    reveal_with_fuel(be_digits, 5);
    assert(b.take(8) =~= be_digits(connection_id as nat, 8));
    assert(b.subrange(8, 12) =~= seq![0u8, 0u8, 0u8, 2u8]);
    assert(b.subrange(12, 16) =~= be_digits(transaction_id as nat, 4));
    assert(b.skip(16) =~= info_hash);
}

/// An answer counts exactly when it is long enough and its first four bytes are the number of what
/// was asked. One whose first four bytes are three tells of an error with the text from the ninth
/// byte on.
pub proof fn law_answers_are_told_apart(data: Seq<u8>, least: nat, short: Seq<char>, action: u32)
    requires
        least >= 8,
    ensures
        answer_fault(data, least, short, action) is None <==> data.len() >= least && be_value(
            data.take(4),
        ) == action && action != 3,
        data.len() >= least && be_value(data.take(4)) == 3 ==> answer_fault(
            data,
            least,
            short,
            action,
        ) == Some(TorrentFault::TrackerError(lossy_text(data.skip(8)))),
        data.len() < least ==> answer_fault(data, least, short, action) == Some(
            TorrentFault::TrackerError(short),
        ),
{
    assert(data.subrange(0, 4) =~= data.take(4));
}

/// The requests and their answers carry these numbers.
pub proof fn law_numbers_of_requests(data: Seq<u8>, short: Seq<char>)
    requires
        data.len() >= 20,
        data[0] == 0,
        data[1] == 0,
        data[2] == 0,
    ensures
        answer_fault(data, 16, short, ACTION_CONNECT) is None <==> data[3] == 0,
        answer_fault(data, 20, short, ACTION_ANNOUNCE) is None <==> data[3] == 1,
        answer_fault(data, 20, short, ACTION_SCRAPE) is None <==> data[3] == 2,
{
    let w = data.subrange(0, 4);
    assert(w.drop_last().drop_last().drop_last().drop_last() =~= Seq::<u8>::empty());
    reveal_with_fuel(be_value, 5);
    assert(be_value(w) == data[3]);
}

/// A connection number that a tracker sends in answer to a request is read back.
pub proof fn law_connection_roundtrip(transaction_id: u32, connection_id: u64)
    ensures
        ({
            let answer = be_digits(ACTION_CONNECT as nat, 4) + be_digits(transaction_id as nat, 4)
                + be_digits(connection_id as nat, 8);
            &&& answer_fault(answer, 16, "connect response too short"@, ACTION_CONNECT) is None
            &&& be_value(answer.subrange(8, 16)) == connection_id
        }),
{
    let answer = be_digits(ACTION_CONNECT as nat, 4) + be_digits(transaction_id as nat, 4)
        + be_digits(connection_id as nat, 8);
    crate::bytes::lemma_pow256_values();
    crate::bytes::lemma_be_roundtrip(ACTION_CONNECT as nat, 4);
    crate::bytes::lemma_be_roundtrip(transaction_id as nat, 4);
    crate::bytes::lemma_be_roundtrip(connection_id as nat, 8);
    assert(answer.subrange(0, 4) =~= be_digits(ACTION_CONNECT as nat, 4));
    assert(answer.subrange(8, 16) =~= be_digits(connection_id as nat, 8));
}

} // verus!
