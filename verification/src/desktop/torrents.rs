//! Requests about torrents.
use crate::desktop::error::TauriError;
use crate::desktop::error::TauriFault;
use crate::encoding::base64_bytes;
use crate::encoding::base64_decode;
use crate::encoding::base64_error_text;
use crate::encoding::law_base64_reads_back;
use crate::text::hex_encode;
use crate::text::hex_text;
use crate::text::same_text;
use crate::torrent::error::fault_text;
use crate::torrent::incentive::summary_of;
use crate::torrent::magnet::link_in;
use crate::torrent::magnet::meta_of_link;
use crate::torrent::magnet::MagnetLink;
use crate::torrent::metainfo::metainfo_in;
use crate::torrent::metainfo::Meta;
use crate::torrent::metainfo::Metainfo;
use crate::torrent::session::state_name;
use crate::torrent::session::Session;
use crate::torrent::session::TorrentSession;
use vstd::prelude::*;
use vstd::string::*;
use vstd::utf8::encode_utf8;

verus! {

/// What is told of a torrent session. How far it is, is left to whoever shows it.
#[derive(Debug, Clone)]
pub struct TorrentResult {
    pub id: String,
    pub name: String,
    pub info_hash: String,
    pub state: String,
    pub size_bytes: u64,
    pub downloaded_bytes: u64,
    pub uploaded_bytes: u64,
    pub download_speed: u64,
    pub upload_speed: u64,
    pub peer_count: usize,
    pub vtr_earned_satoshis: u64,
    pub vtr_paid_satoshis: u64,
}

/// Whether `r` shows the session `s`.
pub open spec fn shows_session(r: TorrentResult, s: Session) -> bool {
    &&& r.id@ == s.id
    &&& r.name@ == s.metainfo.name
    &&& r.info_hash@ == hex_text(s.metainfo.info_hash)
    &&& r.state@ == state_name(s.state)
    &&& r.size_bytes == s.metainfo.total_size
    &&& r.downloaded_bytes == s.bytes_downloaded
    &&& r.uploaded_bytes == s.bytes_uploaded
    &&& r.download_speed == s.download_speed
    &&& r.upload_speed == s.upload_speed
    &&& r.peer_count == s.peers.len()
    &&& r.vtr_earned_satoshis == summary_of(s.incentive_accounts).total_earned_satoshis
    &&& r.vtr_paid_satoshis == 0
}

/// What is told of a torrent session.
pub fn torrent_result(s: &TorrentSession) -> (r: TorrentResult)
    ensures
        shows_session(r, s@),
{
    TorrentResult {
        id: s.id.clone(),
        name: s.metainfo.name.clone(),
        info_hash: hex_encode(s.metainfo.info_hash.as_slice()),
        state: s.state.as_str().to_owned(),
        size_bytes: s.metainfo.total_size,
        downloaded_bytes: s.bytes_downloaded,
        uploaded_bytes: s.bytes_uploaded,
        download_speed: s.download_speed,
        upload_speed: s.upload_speed,
        peer_count: s.peers.len(),
        vtr_earned_satoshis: s.incentive_summary().total_earned_satoshis,
        vtr_paid_satoshis: 0,
    }
}

/// What is told when a torrent was added.
#[derive(Debug, Clone)]
pub struct AddTorrentResult {
    pub session_id: String,
    pub info_hash: String,
    pub name: String,
}

/// What is told when the session of a torrent was added.
pub fn added_torrent(session: &TorrentSession) -> (r: AddTorrentResult)
    ensures
        r.session_id@ == session@.id,
        r.info_hash@ == hex_text(session@.metainfo.info_hash),
        r.name@ == session@.metainfo.name,
{
    AddTorrentResult {
        session_id: session.id.clone(),
        info_hash: hex_encode(session.metainfo.info_hash.as_slice()),
        name: session.metainfo.name.clone(),
    }
}

/// Why there is no such session.
pub fn session_missing(id: &str) -> (r: TauriError)
    ensures
        r@ == TauriFault::Torrent("Session "@ + id@ + " not found"@),
{
    let mut m: String = "Session ".to_owned();
    m.append(id);
    m.append(" not found");
    TauriError::Torrent(m)
}

/// What a torrent that is added says: a magnet link, or the base64 text of a torrent file.
pub open spec fn source_meta(source: Seq<char>, magnet: bool) -> Result<Meta, TauriFault> {
    if magnet {
        match link_in(encode_utf8(source)) {
            Ok(l) => Ok(meta_of_link(l)),
            Err(f) => Err(TauriFault::Torrent(fault_text(f))),
        }
    } else {
        match base64_bytes(encode_utf8(source)) {
            None => Err(TauriFault::Torrent(base64_error_text(encode_utf8(source)))),
            Some(b) => match metainfo_in(b) {
                Ok(m) => Ok(m),
                Err(f) => Err(TauriFault::Torrent(fault_text(f))),
            },
        }
    }
}

/// Reads a torrent file that was decoded.
pub fn read_torrent_file(bytes: &[u8]) -> (r: Result<Metainfo, TauriError>)
    ensures
        match metainfo_in(bytes@) {
            Ok(m) => r matches Ok(v) && v@ == m,
            Err(f) => r matches Err(e) && e@ == TauriFault::Torrent(fault_text(f)),
        },
{
    match Metainfo::from_bytes(bytes) {
        Ok(m) => Ok(m),
        Err(e) => Err(TauriError::Torrent(e.message())),
    }
}

/// Reads a torrent that is added: a magnet link where `source_type` says so, else the base64 text
/// of a torrent file.
pub fn read_source(source: &str, source_type: &str) -> (r: Result<Metainfo, TauriError>)
    ensures
        match source_meta(source@, source_type@ == "magnet"@) {
            Ok(m) => r matches Ok(v) && v@ == m,
            Err(f) => r matches Err(e) && e@ == f,
        },
{
    if same_text(source_type, "magnet") {
        match MagnetLink::parse(source) {
            Ok(l) => Ok(Metainfo::from_magnet_link(&l)),
            Err(e) => Err(TauriError::Torrent(e.message())),
        }
    } else {
        match base64_decode(source.as_bytes()) {
            Ok(b) => {
                proof {
                    law_base64_reads_back(b@);
                }
                read_torrent_file(b.as_slice())
            },
            Err(t) => Err(TauriError::Torrent(t)),
        }
    }
}

} // verus!
