//! Trackers over HTTP: which may be asked, how they are asked, and what they answer.
use crate::bytes::be_value;
use crate::bytes::find_byte;
use crate::bytes::find_from;
use crate::bytes::read_u16_be;
use crate::text::decimal;
use crate::text::decode_lossy;
use crate::text::decode_text;
use crate::text::join;
use crate::text::lossy_text;
use crate::text::push_decimal;
use crate::torrent::bencode::bencode_tree;
use crate::torrent::bencode::parse_untrusted;
use crate::torrent::bencode::tree_of;
use crate::torrent::bencode::Bencode;
use crate::torrent::bencode::Tree;
use crate::torrent::bencode_guard::scan_from;
use crate::torrent::bencode_guard::Scan;
use crate::torrent::bencode_guard::MAX_BENCODE_DEPTH;
use crate::torrent::error::bad_tracker;
use crate::torrent::error::TorrentError;
use crate::torrent::error::TorrentFault;
use crate::torrent::metainfo::entry;
use crate::torrent::metainfo::optional_text;
use crate::torrent::metainfo::push_percent;
use crate::torrent::metainfo::text_option;
use crate::torrent::metainfo::upper_digit;
use vstd::prelude::*;
use vstd::string::*;
use vstd::utf8::decode_utf8;
use vstd::utf8::encode_utf8;
use vstd::utf8::valid_utf8;

verus! {

/// The largest answer that is read, in bytes.
pub const MAX_TRACKER_RESPONSE: u64 = 4_194_304;

/// The pause between announcements where a tracker names none, in seconds.
pub const DEFAULT_INTERVAL: u32 = 1800;

/// Why a tracker is told of a client.
#[derive(Debug, Clone, Copy, PartialEq, Eq, Structural)]
pub enum AnnounceEvent {
    /// A download starts.
    Started,
    /// A download is complete.
    Completed,
    /// The client stops.
    Stopped,
    /// Some time has passed.
    Regular,
}

/// The name of an event.
pub open spec fn event_name(e: AnnounceEvent) -> Option<Seq<char>> {
    match e {
        AnnounceEvent::Started => Some("started"@),
        AnnounceEvent::Completed => Some("completed"@),
        AnnounceEvent::Stopped => Some("stopped"@),
        AnnounceEvent::Regular => None,
    }
}

impl AnnounceEvent {
    /// The name of the event; none for the regular one.
    pub fn as_str(&self) -> (r: Option<&'static str>)
        ensures
            match r {
                Some(s) => event_name(*self) == Some(s@),
                None => event_name(*self) is None,
            },
    {
        match self {
            AnnounceEvent::Started => Some("started"),
            AnnounceEvent::Completed => Some("completed"),
            AnnounceEvent::Stopped => Some("stopped"),
            AnnounceEvent::Regular => None,
        }
    }
}

/// What a tracker is told.
#[derive(Debug, Clone)]
pub struct AnnounceRequest {
    /// The address of the tracker.
    pub tracker_url: String,
    /// The digest that names the torrent.
    pub info_hash: [u8; 20],
    /// The name of the client.
    pub peer_id: [u8; 20],
    /// The port of the client.
    pub port: u16,
    /// The bytes that were uploaded.
    pub uploaded: u64,
    /// The bytes that were downloaded.
    pub downloaded: u64,
    /// The bytes that are missing.
    pub left: u64,
    /// Why the tracker is told.
    pub event: AnnounceEvent,
    /// How many peers are wanted.
    pub num_want: i32,
}

/// A peer that a tracker knows.
#[derive(Debug, Clone, PartialEq, Eq)]
pub struct TrackerPeer {
    /// Its address.
    pub ip: String,
    /// Its port.
    pub port: u16,
    /// Its name.
    pub peer_id: Option<[u8; 20]>,
}

/// What a tracker answers.
#[derive(Debug, Clone)]
pub struct AnnounceResponse {
    /// The pause until the next announcement, in seconds.
    pub interval: u32,
    /// The shortest pause.
    pub min_interval: Option<u32>,
    /// How many peers have all pieces.
    pub complete: u32,
    /// How many peers miss pieces.
    pub incomplete: u32,
    /// Peers.
    pub peers: Vec<TrackerPeer>,
    /// A warning.
    pub warning: Option<String>,
}

/// A `TrackerPeer` over sequences.
#[verifier::ext_equal]
pub struct Peer {
    pub ip: Seq<char>,
    pub port: u16,
    pub peer_id: Option<Seq<u8>>,
}

/// An `AnnounceResponse` over sequences.
#[verifier::ext_equal]
pub struct Answer {
    pub interval: u32,
    pub min_interval: Option<u32>,
    pub complete: u32,
    pub incomplete: u32,
    pub peers: Seq<Peer>,
    pub warning: Option<Seq<char>>,
}

impl View for TrackerPeer {
    type V = Peer;

    open spec fn view(&self) -> Peer {
        Peer {
            ip: self.ip@,
            port: self.port,
            peer_id: match self.peer_id {
                Some(p) => Some(p@),
                None => None,
            },
        }
    }
}

/// Peers over sequences.
pub open spec fn peer_views(s: Seq<TrackerPeer>) -> Seq<Peer> {
    s.map_values(|p: TrackerPeer| p@)
}

impl View for AnnounceResponse {
    type V = Answer;

    open spec fn view(&self) -> Answer {
        Answer {
            interval: self.interval,
            min_interval: self.min_interval,
            complete: self.complete,
            incomplete: self.incomplete,
            peers: peer_views(self.peers@),
            warning: text_option(self.warning),
        }
    }
}

// ---- which trackers may be asked ----

/// An address on the network.
#[derive(Debug, Clone, Copy, PartialEq, Eq)]
pub enum IpAddress {
    /// Four bytes.
    V4([u8; 4]),
    /// Eight groups of sixteen bits.
    V6([u16; 8]),
}

/// Whether an address of four bytes is not one of the public unicast addresses.
pub open spec fn v4_non_public(a: Seq<u8>) -> bool {
    // This machine, private networks, link-local, nowhere.
    ||| a[0] == 127
    ||| a[0] == 10
    ||| a[0] == 172 && 16 <= a[1] < 32
    ||| a[0] == 192 && a[1] == 168
    ||| a[0] == 169 && a[1] == 254
    ||| a[0] == 0 && a[1] == 0 && a[2] == 0 && a[3] == 0
    // Multicast, reserved and broadcast.
    ||| a[0] >= 224
    // Documentation.
    ||| a[0] == 192 && a[1] == 0 && a[2] == 2
    ||| a[0] == 198 && a[1] == 51 && a[2] == 100
    ||| a[0] == 203 && a[1] == 0 && a[2] == 113
    // Shared by providers, protocol assignments, benchmarks.
    ||| a[0] == 100 && 64 <= a[1] < 128
    ||| a[0] == 192 && a[1] == 0 && a[2] == 0
    ||| a[0] == 198 && (a[1] == 18 || a[1] == 19)
}

/// The address of four bytes that one of eight groups stands for.
pub open spec fn embedded_v4(s: Seq<u16>) -> Option<Seq<u8>> {
    if s[0] == 0 && s[1] == 0 && s[2] == 0 && s[3] == 0 && s[4] == 0 && s[5] == 0xffff {
        Some(
            seq![
                (s[6] / 256) as u8,
                (s[6] % 256) as u8,
                (s[7] / 256) as u8,
                (s[7] % 256) as u8,
            ],
        )
    } else {
        None
    }
}

/// Whether an address of eight groups is not one of the public unicast addresses.
pub open spec fn v6_non_public(s: Seq<u16>) -> bool {
    let low_zero = s[0] == 0 && s[1] == 0 && s[2] == 0 && s[3] == 0 && s[4] == 0 && s[5] == 0
        && s[6] == 0;
    // This machine, nowhere, multicast.
    ||| low_zero && s[7] <= 1
    ||| s[0] >= 0xff00
    // Unique local and link-local.
    ||| 0xfc00 <= s[0] < 0xfe00
    ||| 0xfe80 <= s[0] < 0xfec0
    // An address of four bytes.
    ||| embedded_v4(s) matches Some(a) && v4_non_public(a)
}

/// Whether an address is not one of the public unicast addresses.
pub open spec fn non_public(ip: IpAddress) -> bool {
    match ip {
        IpAddress::V4(a) => v4_non_public(a@),
        IpAddress::V6(s) => v6_non_public(s@),
    }
}

fn is_v4_non_public(a: &[u8; 4]) -> (r: bool)
    ensures
        r == v4_non_public(a@),
{
    a[0] == 127 || a[0] == 10 || (a[0] == 172 && a[1] >= 16 && a[1] < 32) || (a[0] == 192 && a[1]
        == 168) || (a[0] == 169 && a[1] == 254) || (a[0] == 0 && a[1] == 0 && a[2] == 0 && a[3]
        == 0) || a[0] >= 224 || (a[0] == 192 && a[1] == 0 && a[2] == 2) || (a[0] == 198 && a[1]
        == 51 && a[2] == 100) || (a[0] == 203 && a[1] == 0 && a[2] == 113) || (a[0] == 100 && a[1]
        >= 64 && a[1] < 128) || (a[0] == 192 && a[1] == 0 && a[2] == 0) || (a[0] == 198 && (a[1]
        == 18 || a[1] == 19))
}

/// Whether an address is not one of the public unicast addresses.
pub fn is_non_public(ip: &IpAddress) -> (r: bool)
    ensures
        r == non_public(*ip),
{
    match ip {
        IpAddress::V4(a) => is_v4_non_public(a),
        IpAddress::V6(s) => {
            if s[0] == 0 && s[1] == 0 && s[2] == 0 && s[3] == 0 && s[4] == 0 && s[5] == 0 && s[6]
                == 0 && s[7] <= 1 {
                return true;
            }
            if s[0] >= 0xff00 || (s[0] >= 0xfc00 && s[0] < 0xfe00) || (s[0] >= 0xfe80 && s[0]
                < 0xfec0) {
                return true;
            }
            if s[0] == 0 && s[1] == 0 && s[2] == 0 && s[3] == 0 && s[4] == 0 && s[5] == 0xffff {
                let a: [u8; 4] = [
                    (s[6] / 256) as u8,
                    (s[6] % 256) as u8,
                    (s[7] / 256) as u8,
                    (s[7] % 256) as u8,
                ];
                assert(embedded_v4(s@) == Some(a@)) by {
                    assert(a@ =~= seq![
                        (s@[6] / 256) as u8,
                        (s@[6] % 256) as u8,
                        (s@[7] / 256) as u8,
                        (s@[7] % 256) as u8,
                    ]);
                }
                return is_v4_non_public(&a);
            }
            false
        },
    }
}

/// Whether a tracker at this address may be asked.
pub fn tracker_target_allowed(ip: &IpAddress, allow_private: bool) -> (r: bool)
    ensures
        r == (allow_private || !non_public(*ip)),
{
    allow_private || !is_non_public(ip)
}

/// The parts of an address of a tracker.
#[derive(Debug, Clone)]
pub struct UrlParts {
    /// The scheme.
    pub scheme: String,
    /// The host, where there is one.
    pub host: Option<String>,
    /// The host's address, where it is written as one.
    pub literal: Option<IpAddress>,
    /// The port, named or usual for the scheme.
    pub port: Option<u16>,
}

/// `UrlParts` over sequences.
#[verifier::ext_equal]
pub struct Url {
    pub scheme: Seq<char>,
    pub host: Option<Seq<char>>,
    pub literal: Option<IpAddress>,
    pub port: Option<u16>,
}

impl View for UrlParts {
    type V = Url;

    open spec fn view(&self) -> Url {
        Url {
            scheme: self.scheme@,
            host: text_option(self.host),
            literal: self.literal,
            port: self.port,
        }
    }
}

/// What parsing the address of a tracker gives: its parts, or the text of the error.
pub uninterp spec fn url_of(raw: Seq<char>) -> Result<Url, Seq<char>>;

/// `url::Url::parse`, then `scheme`, `host_str`, `host` and `port_or_known_default` of what it
/// gives, or the text of its error; all of it depends on the text alone.
#[verifier::external_body]
pub(crate) fn parse_url(raw: &str) -> (r: Result<UrlParts, String>)
    ensures
        match r {
            Ok(p) => url_of(raw@) == Ok::<Url, Seq<char>>(p@),
            Err(t) => url_of(raw@) == Err::<Url, Seq<char>>(t@),
        },
{
    let url = url::Url::parse(raw).map_err(|e| e.to_string())?;
    let literal = match url.host() {
        Some(url::Host::Ipv4(a)) => Some(IpAddress::V4(a.octets())),
        Some(url::Host::Ipv6(a)) => Some(IpAddress::V6(a.segments())),
        _ => None,
    };
    let host = url.host_str().map(|h| h.to_owned());
    Ok(UrlParts { scheme: url.scheme().to_owned(), host, literal, port: url.port_or_known_default() })
}

/// What is wrong with the address of a tracker: it is no address, or its scheme is not HTTP, or
/// it has no host, or its host is written as an address that is not public.
pub open spec fn url_fault(parsed: Result<Url, Seq<char>>, allow_private: bool) -> Option<
    TorrentFault,
> {
    match parsed {
        Err(m) => Some(TorrentFault::TrackerError("Invalid tracker URL: "@ + m)),
        Ok(u) => if u.scheme != "http"@ && u.scheme != "https"@ {
            Some(TorrentFault::TrackerError("Unsupported tracker scheme: "@ + u.scheme))
        } else {
            match u.host {
                None => Some(TorrentFault::TrackerError("Tracker URL has no host"@)),
                Some(h) => if h.len() == 0 {
                    Some(TorrentFault::TrackerError("Tracker URL has no host"@))
                } else if allow_private {
                    None
                } else if u.literal matches Some(ip) && non_public(ip) {
                    Some(
                        TorrentFault::TrackerError(
                            "Tracker host "@ + h + " is not a public address"@,
                        ),
                    )
                } else {
                    None
                },
            }
        },
    }
}

/// Judges the address of a tracker by its parts.
pub fn validate_url_parts(parsed: &Result<UrlParts, String>, allow_private: bool) -> (r: Result<
    (),
    TorrentError,
>)
    ensures
        ({
            let want = url_fault(
                match *parsed {
                    Ok(p) => Ok(p@),
                    Err(m) => Err(m@),
                },
                allow_private,
            );
            match want {
                None => r is Ok,
                Some(f) => r matches Err(e) && e@ == f,
            }
        }),
{
    let parts: &UrlParts = match parsed {
        Err(m) => {
            return Err(TorrentError::TrackerError(join("Invalid tracker URL: ", m.as_str())));
        },
        Ok(p) => p,
    };
    if parts.scheme != "http".to_owned() && parts.scheme != "https".to_owned() {
        return Err(
            TorrentError::TrackerError(
                join("Unsupported tracker scheme: ", parts.scheme.as_str()),
            ),
        );
    }
    match &parts.host {
        None => Err(bad_tracker("Tracker URL has no host")),
        Some(h) => {
            proof {
                lemma_empty_text(h@);
            }
            if h.as_str().as_bytes().len() == 0 {
                return Err(bad_tracker("Tracker URL has no host"));
            }
            if allow_private {
                return Ok(());
            }
            match &parts.literal {
                Some(ip) => {
                    if is_non_public(ip) {
                        let mut m: String = "Tracker host ".to_owned();
                        m.append(h.as_str());
                        m.append(" is not a public address");
                        return Err(TorrentError::TrackerError(m));
                    }
                    Ok(())
                },
                None => Ok(()),
            }
        },
    }
}

proof fn lemma_empty_text(s: Seq<char>)
    ensures
        encode_utf8(s).len() == 0 <==> s.len() == 0,
{
    vstd::utf8::encode_utf8_decode_utf8(s);
    if encode_utf8(s).len() == 0 {
        assert(encode_utf8(s) =~= Seq::<u8>::empty());
        assert(decode_utf8(encode_utf8(s)).len() == 0);
    }
    if s.len() == 0 {
        assert(encode_utf8(s).len() == 0);
    }
}

/// Judges the address of a tracker.
pub fn validate_tracker_url_with(raw: &str, allow_private: bool) -> (r: Result<(), TorrentError>)
    ensures
        match url_fault(url_of(raw@), allow_private) {
            None => r is Ok,
            Some(f) => r matches Err(e) && e@ == f,
        },
{
    let parsed: Result<UrlParts, String> = parse_url(raw);
    validate_url_parts(&parsed, allow_private)
}

/// Where a tracker is reached.
#[derive(Debug, Clone)]
pub struct TrackerHost {
    /// The host.
    pub host: String,
    /// The port.
    pub port: u16,
    /// Whether the host is to be resolved. One that is written as an address is not.
    pub resolve: bool,
}

/// Whether `h` is where the tracker is reached whose address has these parts.
pub open spec fn is_host_of(h: TrackerHost, u: Url) -> bool {
    &&& Some(h.host@) == u.host
    &&& h.port == (match u.port {
        Some(p) => p,
        None => 80,
    })
    &&& h.resolve == (u.literal is None)
}

/// Tells where a tracker is reached whose address has these parts.
pub fn host_of_parts(parsed: Result<UrlParts, String>, allow_private: bool) -> (r: Result<
    TrackerHost,
    TorrentError,
>)
    ensures
        ({
            let want = match parsed {
                Ok(p) => Ok(p@),
                Err(m) => Err(m@),
            };
            match url_fault(want, allow_private) {
                None => r matches Ok(h) && is_host_of(h, want->Ok_0),
                Some(f) => r matches Err(e) && e@ == f,
            }
        }),
{
    match validate_url_parts(&parsed, allow_private) {
        Ok(_) => {},
        Err(e) => {
            return Err(e);
        },
    }
    match parsed {
        Err(m) => Err(TorrentError::TrackerError(join("Invalid tracker URL: ", m.as_str()))),
        Ok(p) => match p.host {
            None => Err(bad_tracker("Tracker URL has no host")),
            Some(host) => {
                let port: u16 = match p.port {
                    Some(n) => n,
                    None => 80,
                };
                Ok(TrackerHost { host, port, resolve: p.literal.is_none() })
            },
        },
    }
}

/// Judges the address of a tracker, and tells where the tracker is reached.
pub fn locate_tracker(raw: &str, allow_private: bool) -> (r: Result<TrackerHost, TorrentError>)
    ensures
        match url_fault(url_of(raw@), allow_private) {
            None => r matches Ok(h) && is_host_of(h, url_of(raw@)->Ok_0),
            Some(f) => r matches Err(e) && e@ == f,
        },
{
    host_of_parts(parse_url(raw), allow_private)
}

/// An address that a name was resolved to, with its text.
#[derive(Debug, Clone)]
pub struct ResolvedAddress {
    /// The address.
    pub ip: IpAddress,
    /// Its text.
    pub text: String,
}

/// What is wrong with the addresses that a host was resolved to: there is none, or one of them is
/// not public.
pub open spec fn resolved_fault(host: Seq<char>, addrs: Seq<ResolvedAddress>, from: int) -> Option<
    TorrentFault,
>
    decreases addrs.len() - from,
{
    if from < 0 || from >= addrs.len() {
        None
    } else if non_public(addrs[from].ip) {
        Some(
            TorrentFault::TrackerError(
                "Tracker host "@ + host + " resolves to non-public address "@
                    + addrs[from].text@,
            ),
        )
    } else {
        resolved_fault(host, addrs, from + 1)
    }
}

/// Judges the addresses that a host was resolved to. Where private ones are allowed all are.
pub fn check_resolved(host: &str, addrs: &Vec<ResolvedAddress>, allow_private: bool) -> (r: Result<
    (),
    TorrentError,
>)
    ensures
        allow_private ==> r is Ok,
        !allow_private && addrs@.len() == 0 ==> (r matches Err(e) && e@
            == TorrentFault::TrackerError("Tracker host "@ + host@ + " did not resolve"@)),
        !allow_private && addrs@.len() > 0 ==> match resolved_fault(host@, addrs@, 0) {
            None => r is Ok,
            Some(f) => r matches Err(e) && e@ == f,
        },
{
    if allow_private {
        return Ok(());
    }
    if addrs.len() == 0 {
        let mut m: String = "Tracker host ".to_owned();
        m.append(host);
        m.append(" did not resolve");
        return Err(TorrentError::TrackerError(m));
    }
    let mut i: usize = 0;
    while i < addrs.len()
        invariant
            i <= addrs@.len(),
            addrs@.len() > 0,
            !allow_private,
            resolved_fault(host@, addrs@, 0) == resolved_fault(host@, addrs@, i as int),
        decreases addrs@.len() - i,
    {
        if is_non_public(&addrs[i].ip) {
            let mut m: String = "Tracker host ".to_owned();
            m.append(host);
            m.append(" resolves to non-public address ");
            m.append(addrs[i].text.as_str());
            return Err(TorrentError::TrackerError(m));
        }
        i = i + 1;
    }
    Ok(())
}

/// Where private addresses are not allowed, a tracker is asked only at public ones.
pub proof fn law_only_public_targets(
    host: Seq<char>,
    addrs: Seq<ResolvedAddress>,
    from: int,
    i: int,
)
    requires
        0 <= from <= i < addrs.len(),
        resolved_fault(host, addrs, from) is None,
    ensures
        !non_public(addrs[i].ip),
    decreases i - from,
{
    if from < i {
        law_only_public_targets(host, addrs, from + 1, i);
    }
}

// ---- how a tracker is asked ----

/// Whether a byte stands for itself in a request.
pub open spec fn unreserved(b: u8) -> bool {
    ||| 0x30 <= b <= 0x39
    ||| 0x41 <= b <= 0x5a
    ||| 0x61 <= b <= 0x7a
    ||| b == 0x2d
    ||| b == 0x5f
    ||| b == 0x2e
    ||| b == 0x7e
}

/// Bytes as they stand in a request.
pub open spec fn url_text(b: Seq<u8>) -> Seq<char>
    decreases b.len(),
{
    if b.len() == 0 {
        Seq::empty()
    } else if unreserved(b.last()) {
        url_text(b.drop_last()).push(b.last() as char)
    } else {
        url_text(b.drop_last()) + seq![
            '%',
            upper_digit(b.last() as nat / 16),
            upper_digit(b.last() as nat % 16),
        ]
    }
}

/// Writes bytes as they stand in a request.
pub fn url_encode_bytes(bytes: &[u8]) -> (r: String)
    ensures
        r@ == url_text(bytes@),
{
    let mut r: String = String::new();
    let mut i: usize = 0;
    assert(bytes@.take(0) =~= Seq::<u8>::empty());
    while i < bytes.len()
        invariant
            i <= bytes@.len(),
            r@ == url_text(bytes@.take(i as int)),
        decreases bytes@.len() - i,
    {
        let b: u8 = bytes[i];
        if (b >= 0x30 && b <= 0x39) || (b >= 0x41 && b <= 0x5a) || (b >= 0x61 && b <= 0x7a) || b
            == 0x2d || b == 0x5f || b == 0x2e || b == 0x7e {
            r.push(b as char);
        } else {
            push_percent(&mut r, b);
        }
        i = i + 1;
        assert(bytes@.take(i as int).drop_last() =~= bytes@.take(i - 1));
    }
    assert(bytes@.take(i as int) =~= bytes@);
    r
}

/// A number in decimal, with a minus sign where it is negative.
pub open spec fn signed_decimal(n: int) -> Seq<char> {
    if n < 0 {
        "-"@ + decimal((-n) as nat)
    } else {
        decimal(n as nat)
    }
}

/// The request that tells a tracker of a client.
pub open spec fn request_text(q: AnnounceRequest) -> Seq<char> {
    q.tracker_url@ + (if find_from(encode_utf8(q.tracker_url@), 0, 0x3f) is Some {
        "&"@
    } else {
        "?"@
    }) + "info_hash="@ + url_text(q.info_hash@) + "&peer_id="@ + url_text(q.peer_id@) + "&port="@
        + decimal(q.port as nat) + "&uploaded="@ + decimal(q.uploaded as nat) + "&downloaded="@
        + decimal(q.downloaded as nat) + "&left="@ + decimal(q.left as nat)
        + "&compact=1&numwant="@ + signed_decimal(q.num_want as int) + (match event_name(q.event) {
        Some(e) => "&event="@ + e,
        None => Seq::empty(),
    })
}

/// The request that tells a tracker of a client. Parameters follow those that the tracker's
/// address already has.
pub fn announce_url(req: &AnnounceRequest) -> (r: String)
    ensures
        r@ == request_text(*req),
{
    let mut r: String = req.tracker_url.clone();
    if find_byte(req.tracker_url.as_str().as_bytes(), 0, 0x3f).is_some() {
        r.append("&");
    } else {
        r.append("?");
    }
    r.append("info_hash=");
    r.append(url_encode_bytes(req.info_hash.as_slice()).as_str());
    r.append("&peer_id=");
    r.append(url_encode_bytes(req.peer_id.as_slice()).as_str());
    r.append("&port=");
    push_decimal(&mut r, req.port as u64);
    r.append("&uploaded=");
    push_decimal(&mut r, req.uploaded);
    r.append("&downloaded=");
    push_decimal(&mut r, req.downloaded);
    r.append("&left=");
    push_decimal(&mut r, req.left);
    r.append("&compact=1&numwant=");
    let ghost before = r@;
    let n: i64 = req.num_want as i64;
    if n < 0 {
        r.append("-");
        push_decimal(&mut r, (-n) as u64);
    } else {
        push_decimal(&mut r, n as u64);
    }
    assert(r@ =~= before + signed_decimal(req.num_want as int));
    match req.event.as_str() {
        Some(e) => {
            let ghost mid = r@;
            r.append("&event=");
            r.append(e);
            assert(r@ =~= mid + ("&event="@ + e@));
        },
        None => {
            assert(r@ + Seq::<char>::empty() =~= r@);
        },
    }
    r
}

/// Refuses an answer that is too large.
pub fn check_response_size(len: u64) -> (r: Result<(), TorrentError>)
    ensures
        len <= MAX_TRACKER_RESPONSE ==> r is Ok,
        len > MAX_TRACKER_RESPONSE ==> (r matches Err(e) && e@ == TorrentFault::TrackerError(
            "Tracker response too large: "@ + decimal(len as nat) + " bytes"@,
        )),
{
    if len > MAX_TRACKER_RESPONSE {
        let mut m: String = "Tracker response too large: ".to_owned();
        push_decimal(&mut m, len);
        m.append(" bytes");
        return Err(TorrentError::TrackerError(m));
    }
    Ok(())
}

// ---- what a tracker answers ----

/// Four numbers with points between them.
pub open spec fn dotted(a: u8, b: u8, c: u8, d: u8) -> Seq<char> {
    decimal(a as nat) + "."@ + decimal(b as nat) + "."@ + decimal(c as nat) + "."@ + decimal(
        d as nat,
    )
}

/// Appends four numbers with points between them.
pub fn dotted_text(a: u8, b: u8, c: u8, d: u8) -> (r: String)
    ensures
        r@ == dotted(a, b, c, d),
{
    let mut r: String = String::new();
    push_decimal(&mut r, a as u64);
    assert(r@ =~= decimal(a as nat));
    r.append(".");
    push_decimal(&mut r, b as u64);
    r.append(".");
    push_decimal(&mut r, c as u64);
    r.append(".");
    push_decimal(&mut r, d as u64);
    r
}

/// The peers in compact form: four bytes of address and two of port each.
pub open spec fn compact_peers(s: Seq<u8>) -> Seq<Peer> {
    Seq::new(
        s.len() / 6,
        |i: int|
            Peer {
                ip: dotted(s[6 * i], s[6 * i + 1], s[6 * i + 2], s[6 * i + 3]),
                port: be_value(s.subrange(6 * i + 4, 6 * i + 6)) as u16,
                peer_id: None,
            },
    )
}

/// Reads peers in compact form. Bytes that make no whole peer are passed over.
pub fn parse_compact_peers(data: &[u8]) -> (r: Vec<TrackerPeer>)
    ensures
        peer_views(r@) == compact_peers(data@),
{
    let mut r: Vec<TrackerPeer> = Vec::new();
    let count: usize = data.len() / 6;
    let mut k: usize = 0;
    while k < count
        invariant
            k <= count,
            count == data.len() / 6,
            r@.len() == k,
            forall|i: int| 0 <= i < k ==> (#[trigger] r@[i])@ == compact_peers(data@)[i],
        decreases count - k,
    {
        let i: usize = 6 * k;
        let ip: String = dotted_text(data[i], data[i + 1], data[i + 2], data[i + 3]);
        let port: u16 = read_u16_be(data, i + 4);
        r.push(TrackerPeer { ip, port, peer_id: None });
        assert(r@[k as int]@ == compact_peers(data@)[k as int]);
        k = k + 1;
    }
    assert(peer_views(r@) =~= compact_peers(data@));
    r
}

/// The peer that a dictionary names.
pub open spec fn dict_peer(t: Tree) -> Option<Peer> {
    match (entry(t, "ip"@), entry(t, "port"@)) {
        (Some(Tree::Bytes(b)), Some(Tree::Int(p))) => if 0 < p <= u16::MAX {
            Some(
                Peer {
                    ip: if valid_utf8(b) {
                        decode_utf8(b)
                    } else {
                        Seq::empty()
                    },
                    port: p as u16,
                    peer_id: None,
                },
            )
        } else {
            None
        },
        _ => None,
    }
}

/// The peers that the first `n` items of a list name.
pub open spec fn dict_peers(s: Seq<Tree>, n: nat) -> Seq<Peer>
    decreases n,
{
    if n == 0 {
        Seq::empty()
    } else {
        match dict_peer(s[n - 1]) {
            Some(p) => dict_peers(s, (n - 1) as nat).push(p),
            None => dict_peers(s, (n - 1) as nat),
        }
    }
}

fn parse_dict_peer(item: &Bencode) -> (r: Option<TrackerPeer>)
    ensures
        match dict_peer(tree_of(*item)) {
            Some(p) => r matches Some(v) && v@ == p,
            None => r is None,
        },
{
    match item.get("ip".as_bytes()) {
        Some(Bencode::Bytes(b)) => match item.get("port".as_bytes()) {
            Some(Bencode::Int(p)) => {
                if *p > 0 && *p <= u16::MAX as i64 {
                    let ip: String = match decode_text(b.as_slice()) {
                        Ok(t) => {
                            proof {
                                vstd::utf8::encode_utf8_decode_utf8(t@);
                            }
                            t
                        },
                        Err(_) => String::new(),
                    };
                    assert(!valid_utf8(b@) ==> ip@ =~= Seq::<char>::empty());
                    Some(TrackerPeer { ip, port: *p as u16, peer_id: None })
                } else {
                    None
                }
            },
            _ => None,
        },
        _ => None,
    }
}

fn parse_dict_peers(l: &Vec<Bencode>) -> (r: Vec<TrackerPeer>)
    ensures
        peer_views(r@) == dict_peers(
            tree_of(Bencode::List(*l))->List_0,
            tree_of(Bencode::List(*l))->List_0.len(),
        ),
{
    let ghost s = tree_of(Bencode::List(*l))->List_0;
    let mut r: Vec<TrackerPeer> = Vec::new();
    let mut i: usize = 0;
    assert(peer_views(r@) =~= Seq::<Peer>::empty());
    while i < l.len()
        invariant
            i <= l@.len(),
            s == tree_of(Bencode::List(*l))->List_0,
            peer_views(r@) == dict_peers(s, i as nat),
        decreases l@.len() - i,
    {
        assert(s[i as int] == tree_of(l@[i as int]));
        let ghost before = r@;
        match parse_dict_peer(&l[i]) {
            Some(p) => {
                r.push(p);
                assert(peer_views(r@) =~= peer_views(before).push(p@));
            },
            None => {},
        }
        i = i + 1;
    }
    r
}

/// The number under a name where it is above `least`, in 32 bits.
pub open spec fn count_entry(t: Tree, name: Seq<char>, least: int) -> Option<u32> {
    match entry(t, name) {
        Some(Tree::Int(i)) => if i > least {
            Some(i as u32)
        } else {
            None
        },
        _ => None,
    }
}

fn get_count(dict: &Bencode, name: &str, least: i64) -> (r: Option<u32>)
    ensures
        r == count_entry(tree_of(*dict), name@, least as int),
{
    match dict.get(name.as_bytes()) {
        Some(Bencode::Int(i)) => {
            if *i > least {
                Some(*i as u32)
            } else {
                None
            }
        },
        _ => None,
    }
}

/// The peers of an answer, in either form.
pub open spec fn answer_peers(t: Tree) -> Seq<Peer> {
    match entry(t, "peers"@) {
        Some(Tree::Bytes(b)) => compact_peers(b),
        Some(Tree::List(s)) => dict_peers(s, s.len()),
        _ => Seq::empty(),
    }
}

/// What a tracker answers, when its answer is parsed as this tree.
pub open spec fn answer_of(t: Tree) -> Result<Answer, TorrentFault> {
    if t !is Dict {
        Err(TorrentFault::TrackerError("Response is not a dict"@))
    } else {
        match entry(t, "failure reason"@) {
            Some(Tree::Bytes(b)) => Err(TorrentFault::TrackerError(lossy_text(b))),
            _ => Ok(
                Answer {
                    interval: match count_entry(t, "interval"@, 0) {
                        Some(n) => n,
                        None => DEFAULT_INTERVAL,
                    },
                    min_interval: count_entry(t, "min interval"@, 0),
                    complete: match count_entry(t, "complete"@, -1) {
                        Some(n) => n,
                        None => 0,
                    },
                    incomplete: match count_entry(t, "incomplete"@, -1) {
                        Some(n) => n,
                        None => 0,
                    },
                    peers: answer_peers(t),
                    warning: optional_text(t, "warning message"@),
                },
            ),
        }
    }
}

/// What a tracker answers.
pub open spec fn answer_in(data: Seq<u8>) -> Result<Answer, TorrentFault> {
    if scan_from(data, 0, 0, MAX_BENCODE_DEPTH as nat) != Scan::Balanced {
        Err(TorrentFault::BencodeError("bencode nesting too deep"@))
    } else {
        match bencode_tree(data) {
            Err(m) => Err(TorrentFault::BencodeError(m)),
            Ok(t) => answer_of(t),
        }
    }
}

/// Reads the answer of a tracker from the tree that it was parsed as.
pub fn read_tracker_response(tree: &Bencode) -> (r: Result<AnnounceResponse, TorrentError>)
    ensures
        match answer_of(tree_of(*tree)) {
            Ok(a) => r matches Ok(v) && v@ == a,
            Err(f) => r matches Err(e) && e@ == f,
        },
{
    if !tree.is_dict() {
        return Err(bad_tracker("Response is not a dict"));
    }
    match tree.get("failure reason".as_bytes()) {
        Some(Bencode::Bytes(b)) => {
            return Err(TorrentError::TrackerError(decode_lossy(b.as_slice())));
        },
        _ => {},
    }
    let interval: u32 = match get_count(tree, "interval", 0) {
        Some(n) => n,
        None => DEFAULT_INTERVAL,
    };
    let min_interval: Option<u32> = get_count(tree, "min interval", 0);
    let complete: u32 = match get_count(tree, "complete", -1) {
        Some(n) => n,
        None => 0,
    };
    let incomplete: u32 = match get_count(tree, "incomplete", -1) {
        Some(n) => n,
        None => 0,
    };
    let warning: Option<String> = match tree.get("warning message".as_bytes()) {
        Some(Bencode::Bytes(b)) => match decode_text(b.as_slice()) {
            Ok(t) => {
                proof {
                    vstd::utf8::encode_utf8_decode_utf8(t@);
                }
                Some(t)
            },
            Err(_) => None,
        },
        _ => None,
    };
    let peers: Vec<TrackerPeer> = match tree.get("peers".as_bytes()) {
        Some(Bencode::Bytes(b)) => parse_compact_peers(b.as_slice()),
        Some(Bencode::List(l)) => parse_dict_peers(l),
        _ => {
            let none: Vec<TrackerPeer> = Vec::new();
            assert(peer_views(none@) =~= Seq::<Peer>::empty());
            none
        },
    };
    Ok(AnnounceResponse { interval, min_interval, complete, incomplete, peers, warning })
}

/// Reads the answer of a tracker.
pub fn parse_tracker_response(data: &[u8]) -> (r: Result<AnnounceResponse, TorrentError>)
    ensures
        match answer_in(data@) {
            Ok(a) => r matches Ok(v) && v@ == a,
            Err(f) => r matches Err(e) && e@ == f,
        },
{
    match parse_untrusted(data) {
        None => Err(TorrentError::BencodeError("bencode nesting too deep".to_owned())),
        Some(Err(m)) => Err(TorrentError::BencodeError(m)),
        Some(Ok(tree)) => read_tracker_response(&tree),
    }
}

} // verus!
