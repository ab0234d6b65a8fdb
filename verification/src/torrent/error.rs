//! Why an operation on a torrent failed.
use crate::text::join;
use vstd::prelude::*;

verus! {

/// The ways in which torrent operations fail.
#[derive(Debug, Clone)]
pub enum TorrentError {
    /// A torrent file is malformed.
    InvalidMetainfo(String),
    /// A tracker did not answer as it should.
    TrackerError(String),
    /// A peer did not keep to the protocol.
    PeerWireError(String),
    /// An incentive rule is broken.
    IncentiveError(String),
    /// A file could not be read or written.
    Io(String),
    /// Bytes are not bencode.
    BencodeError(String),
    /// A request over HTTP failed.
    HttpError(String),
    /// There is no such session.
    SessionNotFound(String),
    /// A magnet link is malformed.
    MagnetError(String),
}

/// A `TorrentError` with its texts as character sequences.
#[verifier::ext_equal]
pub enum TorrentFault {
    InvalidMetainfo(Seq<char>),
    TrackerError(Seq<char>),
    PeerWireError(Seq<char>),
    IncentiveError(Seq<char>),
    Io(Seq<char>),
    BencodeError(Seq<char>),
    HttpError(Seq<char>),
    SessionNotFound(Seq<char>),
    MagnetError(Seq<char>),
}

impl View for TorrentError {
    type V = TorrentFault;

    open spec fn view(&self) -> TorrentFault {
        match self {
            TorrentError::InvalidMetainfo(m) => TorrentFault::InvalidMetainfo(m@),
            TorrentError::TrackerError(m) => TorrentFault::TrackerError(m@),
            TorrentError::PeerWireError(m) => TorrentFault::PeerWireError(m@),
            TorrentError::IncentiveError(m) => TorrentFault::IncentiveError(m@),
            TorrentError::Io(m) => TorrentFault::Io(m@),
            TorrentError::BencodeError(m) => TorrentFault::BencodeError(m@),
            TorrentError::HttpError(m) => TorrentFault::HttpError(m@),
            TorrentError::SessionNotFound(m) => TorrentFault::SessionNotFound(m@),
            TorrentError::MagnetError(m) => TorrentFault::MagnetError(m@),
        }
    }
}

/// The text that describes a fault.
pub open spec fn fault_text(f: TorrentFault) -> Seq<char> {
    match f {
        TorrentFault::InvalidMetainfo(m) => "Invalid torrent file: "@ + m,
        TorrentFault::TrackerError(m) => "Tracker error: "@ + m,
        TorrentFault::PeerWireError(m) => "Peer wire protocol error: "@ + m,
        TorrentFault::IncentiveError(m) => "Incentive error: "@ + m,
        TorrentFault::Io(m) => "IO error: "@ + m,
        TorrentFault::BencodeError(m) => "Bencode decode error: "@ + m,
        TorrentFault::HttpError(m) => "HTTP error: "@ + m,
        TorrentFault::SessionNotFound(m) => "Session not found: "@ + m,
        TorrentFault::MagnetError(m) => "Magnet link parse error: "@ + m,
    }
}

impl TorrentError {
    /// The text that describes the error.
    pub fn message(&self) -> (r: String)
        ensures
            r@ == fault_text(self@),
    {
        match self {
            TorrentError::InvalidMetainfo(m) => join("Invalid torrent file: ", m.as_str()),
            TorrentError::TrackerError(m) => join("Tracker error: ", m.as_str()),
            TorrentError::PeerWireError(m) => join("Peer wire protocol error: ", m.as_str()),
            TorrentError::IncentiveError(m) => join("Incentive error: ", m.as_str()),
            TorrentError::Io(m) => join("IO error: ", m.as_str()),
            TorrentError::BencodeError(m) => join("Bencode decode error: ", m.as_str()),
            TorrentError::HttpError(m) => join("HTTP error: ", m.as_str()),
            TorrentError::SessionNotFound(m) => join("Session not found: ", m.as_str()),
            TorrentError::MagnetError(m) => join("Magnet link parse error: ", m.as_str()),
        }
    }
}

/// An error of a torrent file.
pub(crate) fn bad_metainfo(text: &str) -> (e: TorrentError)
    ensures
        e@ == TorrentFault::InvalidMetainfo(text@),
{
    TorrentError::InvalidMetainfo(text.to_owned())
}

/// An error of a peer.
pub(crate) fn bad_peer(text: &str) -> (e: TorrentError)
    ensures
        e@ == TorrentFault::PeerWireError(text@),
{
    TorrentError::PeerWireError(text.to_owned())
}

/// An error of a tracker.
pub(crate) fn bad_tracker(text: &str) -> (e: TorrentError)
    ensures
        e@ == TorrentFault::TrackerError(text@),
{
    TorrentError::TrackerError(text.to_owned())
}

/// An error of a magnet link.
pub(crate) fn bad_magnet(text: &str) -> (e: TorrentError)
    ensures
        e@ == TorrentFault::MagnetError(text@),
{
    TorrentError::MagnetError(text.to_owned())
}

} // verus!
