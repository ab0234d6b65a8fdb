//! A download from beginning to end: trackers are asked for peers, peers for the description where
//! it is missing, and then for the pieces.
use crate::text::decimal;
use crate::text::push_decimal;
use crate::torrent::metainfo::texts;
use crate::torrent::metainfo::trackers_of;
use crate::torrent::metainfo::Meta;
use crate::torrent::metainfo::Metainfo;
use crate::torrent::session::Session;
use crate::torrent::session::SessionState;
use crate::torrent::session::TorrentSession;
use crate::torrent::tracker::peer_views;
use crate::torrent::tracker::AnnounceEvent;
use crate::torrent::tracker::AnnounceRequest;
use crate::torrent::tracker::Peer;
use crate::torrent::tracker::TrackerPeer;
use vstd::prelude::*;
use vstd::string::*;

verus! {

/// The port that trackers are told.
pub const LISTEN_PORT: u16 = 6881;

/// The number of peers that trackers are asked for.
pub const WANTED_PEERS: i32 = 50;

/// The name of this client.
pub open spec fn client_name() -> Seq<u8> {
    Seq::new(20, |i: int| 0x2du8)
}

/// The name of this client.
pub fn client_id() -> (r: [u8; 20])
    ensures
        r@ == client_name(),
{
    let r: [u8; 20] = [0x2d; 20];
    assert(r@ =~= client_name());
    r
}

/// Whether a text starts with another.
pub open spec fn text_starts(s: Seq<char>, p: Seq<char>) -> bool {
    s.len() >= p.len() && s.take(p.len() as int) == p
}

/// What is left of a tracker's address without the name of its protocol, however often that
/// stands in front.
pub open spec fn without_udp(s: Seq<char>) -> Seq<char>
    decreases s.len(),
{
    if s.len() >= 6 && s.take(6) == "udp://"@ {
        without_udp(s.skip(6))
    } else {
        s
    }
}

fn udp_at(s: &str, from: usize) -> (r: bool)
    requires
        from <= s@.len(),
    ensures
        r == text_starts(s@.skip(from as int), "udp://"@),
{
    proof {
        reveal_strlit("udp://");
    }
    let n: usize = s.unicode_len();
    if n - from < 6 {
        return false;
    }
    let ghost t = s@.skip(from as int);
    let r: bool = s.get_char(from) == 'u' && s.get_char(from + 1) == 'd' && s.get_char(from + 2)
        == 'p' && s.get_char(from + 3) == ':' && s.get_char(from + 4) == '/' && s.get_char(
        from + 5,
    ) == '/';
    proof {
        assert(t[0] == s@[from as int]);
        assert(t[1] == s@[from + 1]);
        assert(t[2] == s@[from + 2]);
        assert(t[3] == s@[from + 3]);
        assert(t[4] == s@[from + 4]);
        assert(t[5] == s@[from + 5]);
        if r {
            assert(t.take(6) =~= "udp://"@);
        } else if t.take(6) == "udp://"@ {
            assert(t.take(6)[0] == t[0] && t.take(6)[1] == t[1] && t.take(6)[2] == t[2] && t.take(
                6,
            )[3] == t[3] && t.take(6)[4] == t[4] && t.take(6)[5] == t[5]);
        }
    }
    r
}

fn strip_udp(s: &str) -> (r: String)
    ensures
        r@ == without_udp(s@),
{
    let n: usize = s.unicode_len();
    let mut from: usize = 0;
    proof {
        reveal_strlit("udp://");
        assert(s@.skip(0) =~= s@);
    }
    while udp_at(s, from)
        invariant
            n == s@.len(),
            from <= n,
            "udp://"@.len() == 6,
            without_udp(s@) == without_udp(s@.skip(from as int)),
        decreases n - from,
    {
        assert(s@.skip(from as int).skip(6) =~= s@.skip(from + 6));
        from = from + 6;
    }
    let ghost tail = s@.skip(from as int);
    assert(without_udp(tail) == tail);
    let mut r: String = String::new();
    let mut i: usize = from;
    assert(r@ =~= tail.take(0));
    while i < n
        invariant
            n == s@.len(),
            from <= i <= n,
            tail == s@.skip(from as int),
            r@ == tail.take(i - from),
        decreases n - i,
    {
        let c: char = s.get_char(i);
        r.push(c);
        i = i + 1;
        assert(r@ =~= tail.take(i - from));
    }
    assert(tail.take(n - from) =~= tail);
    r
}

/// How a tracker is asked.
#[derive(Debug, Clone)]
pub enum TrackerRequest {
    /// By datagrams to an address. The client has nothing and lacks `left` bytes.
    Udp { address: String, info_hash: [u8; 20], left: u64 },
    /// By a web request.
    Http(AnnounceRequest),
}

/// Whether `r` asks the tracker `url` for peers of the torrent `m`, of which nothing is there yet.
pub open spec fn asks_tracker(r: TrackerRequest, url: Seq<char>, m: Meta) -> bool {
    if text_starts(url, "udp://"@) {
        &&& r matches TrackerRequest::Udp { address, info_hash, left }
        &&& address@ == without_udp(url)
        &&& info_hash@ == m.info_hash
        &&& left == m.total_size
    } else {
        &&& r matches TrackerRequest::Http(q)
        &&& q.tracker_url@ == url
        &&& q.info_hash@ == m.info_hash
        &&& q.peer_id@ == client_name()
        &&& q.port == LISTEN_PORT
        &&& q.uploaded == 0
        &&& q.downloaded == 0
        &&& q.left == m.total_size
        &&& q.event == AnnounceEvent::Started
        &&& q.num_want == WANTED_PEERS
    }
}

/// How the tracker `url` is asked for peers of a torrent.
pub fn tracker_request(url: &str, metainfo: &Metainfo) -> (r: TrackerRequest)
    ensures
        asks_tracker(r, url@, metainfo@),
{
    assert(url@.skip(0) =~= url@);
    if udp_at(url, 0) {
        TrackerRequest::Udp {
            address: strip_udp(url),
            info_hash: metainfo.info_hash,
            left: metainfo.total_size,
        }
    } else {
        TrackerRequest::Http(
            AnnounceRequest {
                tracker_url: url.to_owned(),
                info_hash: metainfo.info_hash,
                peer_id: client_id(),
                port: LISTEN_PORT,
                uploaded: 0,
                downloaded: 0,
                left: metainfo.total_size,
                event: AnnounceEvent::Started,
                num_want: WANTED_PEERS,
            },
        )
    }
}

/// The address of a peer as text.
pub open spec fn peer_address(p: Peer) -> Seq<char> {
    p.ip + ":"@ + decimal(p.port as nat)
}

/// The address of a peer as text.
pub fn peer_address_text(p: &TrackerPeer) -> (r: String)
    ensures
        r@ == peer_address(p@),
{
    let mut s: String = p.ip.clone();
    s.append(":");
    push_decimal(&mut s, p.port as u64);
    s
}

/// How far a download has come.
#[derive(Debug, Clone, Copy, PartialEq, Eq, Structural)]
pub enum EnginePhase {
    /// A tracker is asked for peers.
    Announcing { tracker: usize },
    /// A peer is asked for the description.
    Searching { peer: usize },
    /// All peers are asked for pieces.
    Downloading,
}

/// A download.
#[derive(Debug)]
pub struct Engine {
    metainfo: Metainfo,
    trackers: Vec<String>,
    peers: Vec<TrackerPeer>,
    phase: EnginePhase,
}

/// What an [`Engine`] holds.
#[verifier::ext_equal]
pub ghost struct Run {
    pub metainfo: Meta,
    pub trackers: Seq<Seq<char>>,
    pub peers: Seq<Peer>,
    pub phase: EnginePhase,
}

impl View for Engine {
    type V = Run;

    closed spec fn view(&self) -> Run {
        Run {
            metainfo: self.metainfo@,
            trackers: texts(self.trackers@),
            peers: peer_views(self.peers@),
            phase: self.phase,
        }
    }
}

/// Peers are known. They are asked for the description where there are no pieces yet, as after a
/// magnet link.
pub open spec fn with_peers(r: Run, peers: Seq<Peer>) -> Run {
    Run {
        peers,
        phase: if r.metainfo.pieces.len() == 0 && peers.len() > 0 {
            EnginePhase::Searching { peer: 0 }
        } else {
            EnginePhase::Downloading
        },
        ..r
    }
}

/// A download begins.
pub open spec fn run_start(m: Meta) -> Run {
    let r = Run {
        metainfo: m,
        trackers: trackers_of(m),
        peers: Seq::empty(),
        phase: EnginePhase::Announcing { tracker: 0 },
    };
    if r.trackers.len() > 0 {
        r
    } else {
        with_peers(r, Seq::empty())
    }
}

/// A tracker told peers, or did not answer, in which case the next one is asked.
pub open spec fn run_announced(r: Run, answer: Option<Seq<Peer>>) -> Run {
    match r.phase {
        EnginePhase::Announcing { tracker } => match answer {
            Some(peers) => with_peers(r, peers),
            None => if tracker + 1 < r.trackers.len() {
                Run { phase: EnginePhase::Announcing { tracker: (tracker + 1) as usize }, ..r }
            } else {
                with_peers(r, Seq::empty())
            },
        },
        _ => r,
    }
}

/// A peer gave the description, or did not, in which case the next one is asked.
pub open spec fn run_fetched(r: Run, found: Option<Meta>) -> Run {
    match r.phase {
        EnginePhase::Searching { peer } => match found {
            Some(m) => Run { metainfo: m, phase: EnginePhase::Downloading, ..r },
            None => if peer + 1 < r.peers.len() {
                Run { phase: EnginePhase::Searching { peer: (peer + 1) as usize }, ..r }
            } else {
                Run { phase: EnginePhase::Downloading, ..r }
            },
        },
        _ => r,
    }
}

/// What holds at every moment of a download.
pub open spec fn run_sound(r: Run) -> bool {
    match r.phase {
        EnginePhase::Announcing { tracker } => tracker < r.trackers.len() && r.peers.len() == 0,
        EnginePhase::Searching { peer } => peer < r.peers.len() && r.metainfo.pieces.len() == 0,
        EnginePhase::Downloading => true,
    }
}

/// What is to be done next.
#[derive(Debug, Clone)]
pub enum EngineAction {
    /// Ask a tracker.
    Announce(TrackerRequest),
    /// Ask the peer at this address for the description.
    FetchMetadata(String),
    /// Ask the peers at these addresses for pieces. What is there already stands in a file of this
    /// name.
    Download { peers: Vec<String>, resume_file: String },
}

/// The addresses of peers as text.
pub open spec fn peer_addresses(s: Seq<Peer>) -> Seq<Seq<char>> {
    s.map_values(|p: Peer| peer_address(p))
}

/// Whether `a` is what is to be done next.
pub open spec fn is_next_action(r: Run, a: EngineAction) -> bool {
    match r.phase {
        EnginePhase::Announcing { tracker } => a matches EngineAction::Announce(q) && asks_tracker(
            q,
            r.trackers[tracker as int],
            r.metainfo,
        ),
        EnginePhase::Searching { peer } => a matches EngineAction::FetchMetadata(s) && s@
            == peer_address(r.peers[peer as int]),
        EnginePhase::Downloading => a matches EngineAction::Download { peers, resume_file }
            && texts(peers@) == peer_addresses(r.peers) && resume_file@ == r.metainfo.name
            + ".vtorrent"@,
    }
}

impl Engine {
    /// What holds of every download.
    pub open spec fn wf(&self) -> bool {
        run_sound(self@)
    }

    /// Begins to download a torrent.
    pub fn new(metainfo: Metainfo) -> (r: Self)
        ensures
            r.wf(),
            r@ == run_start(metainfo@),
    {
        let trackers: Vec<String> = metainfo.all_trackers();
        let phase: EnginePhase = if trackers.len() > 0 {
            EnginePhase::Announcing { tracker: 0 }
        } else {
            EnginePhase::Downloading
        };
        let r: Engine = Engine { metainfo, trackers, peers: Vec::new(), phase };
        assert(r@ =~= run_start(metainfo@));
        r
    }

    /// The torrent.
    pub fn metainfo(&self) -> (r: &Metainfo)
        ensures
            r@ == self@.metainfo,
    {
        &self.metainfo
    }

    /// The peers.
    pub fn peers(&self) -> (r: &Vec<TrackerPeer>)
        ensures
            peer_views(r@) == self@.peers,
    {
        &self.peers
    }

    /// What is to be done next.
    pub fn action(&self) -> (r: EngineAction)
        requires
            self.wf(),
        ensures
            is_next_action(self@, r),
    {
        match self.phase {
            EnginePhase::Announcing { tracker } => {
                assert(self@.trackers[tracker as int] == self.trackers@[tracker as int]@);
                EngineAction::Announce(
                    tracker_request(self.trackers[tracker].as_str(), &self.metainfo),
                )
            },
            EnginePhase::Searching { peer } => {
                assert(self@.peers[peer as int] == self.peers@[peer as int]@);
                EngineAction::FetchMetadata(peer_address_text(&self.peers[peer]))
            },
            EnginePhase::Downloading => {
                let mut peers: Vec<String> = Vec::new();
                let mut i: usize = 0;
                assert(texts(peers@) =~= peer_addresses(self@.peers).take(0));
                while i < self.peers.len()
                    invariant
                        i <= self.peers@.len(),
                        texts(peers@) == peer_addresses(self@.peers).take(i as int),
                    decreases self.peers@.len() - i,
                {
                    let ghost before = peers@;
                    let a: String = peer_address_text(&self.peers[i]);
                    assert(a@ == peer_addresses(self@.peers)[i as int]);
                    peers.push(a);
                    assert(texts(peers@) =~= texts(before).push(a@));
                    i = i + 1;
                    assert(texts(peers@) =~= peer_addresses(self@.peers).take(i as int));
                }
                assert(peer_addresses(self@.peers).take(i as int) =~= peer_addresses(self@.peers));
                let mut resume_file: String = self.metainfo.name.clone();
                resume_file.append(".vtorrent");
                EngineAction::Download { peers, resume_file }
            },
        }
    }

    fn set_peers(&mut self, peers: Vec<TrackerPeer>)
        ensures
            final(self).wf(),
            final(self)@ == with_peers(old(self)@, peer_views(peers@)),
    {
        self.phase =
        if self.metainfo.pieces.len() == 0 && peers.len() > 0 {
            EnginePhase::Searching { peer: 0 }
        } else {
            EnginePhase::Downloading
        };
        self.peers = peers;
        assert(self@ =~= with_peers(old(self)@, peer_views(peers@)));
    }

    /// Takes the answer of the tracker that was asked.
    pub fn announced(&mut self, answer: Option<Vec<TrackerPeer>>)
        requires
            old(self).wf(),
        ensures
            final(self).wf(),
            final(self)@ == run_announced(
                old(self)@,
                match answer {
                    Some(peers) => Some(peer_views(peers@)),
                    None => None,
                },
            ),
    {
        match self.phase {
            EnginePhase::Announcing { tracker } => match answer {
                Some(peers) => {
                    self.set_peers(peers);
                },
                None => {
                    assert(tracker < self.trackers.len());
                    if tracker + 1 < self.trackers.len() {
                        self.phase = EnginePhase::Announcing { tracker: tracker + 1 };
                    } else {
                        let none: Vec<TrackerPeer> = Vec::new();
                        assert(peer_views(none@) =~= Seq::empty());
                        self.set_peers(none);
                    }
                },
            },
            _ => {},
        }
    }

    /// Takes the description that the peer that was asked gave.
    pub fn fetched(&mut self, found: Option<Metainfo>)
        requires
            old(self).wf(),
        ensures
            final(self).wf(),
            final(self)@ == run_fetched(
                old(self)@,
                match found {
                    Some(m) => Some(m@),
                    None => None,
                },
            ),
    {
        match self.phase {
            EnginePhase::Searching { peer } => match found {
                Some(m) => {
                    self.metainfo = m;
                    self.phase = EnginePhase::Downloading;
                },
                None => {
                    assert(peer < self.peers.len());
                    if peer + 1 < self.peers.len() {
                        self.phase = EnginePhase::Searching { peer: peer + 1 };
                    } else {
                        self.phase = EnginePhase::Downloading;
                    }
                },
            },
            _ => {},
        }
    }
}

/// The session after a download ended with `have` pieces at `now`.
pub open spec fn finished_session(s: Session, have: int, m: Meta, now: u64) -> Session {
    let downloaded = have * m.piece_length;
    Session {
        bytes_downloaded: downloaded as u64,
        state: if downloaded >= m.total_size {
            SessionState::Seeding
        } else {
            SessionState::Downloading
        },
        last_active: now,
        ..s
    }
}

/// Notes the end of a download in its session: the session seeds once it has everything.
pub fn finish_session(session: &mut TorrentSession, have: u32, metainfo: &Metainfo, now: u64)
    requires
        have * metainfo@.piece_length <= u64::MAX,
    ensures
        final(session)@ == finished_session(old(session)@, have as int, metainfo@, now),
{
    let downloaded: u64 = have as u64 * metainfo.piece_length;
    session.bytes_downloaded = downloaded;
    session.state =
    if downloaded >= metainfo.total_size {
        SessionState::Seeding
    } else {
        SessionState::Downloading
    };
    session.last_active = now;
}

/// The download after its first `n` trackers did not answer.
pub open spec fn run_unanswered(m: Meta, n: nat) -> Run
    decreases n,
{
    if n == 0 {
        run_start(m)
    } else {
        run_announced(run_unanswered(m, (n - 1) as nat), None)
    }
}

/// Trackers are asked in turn, each once, until one answers. Where none does, the download goes on
/// without peers.
pub proof fn law_trackers_are_asked_in_turn(m: Meta, n: nat)
    requires
        n <= trackers_of(m).len(),
        trackers_of(m).len() <= usize::MAX,
    ensures
        n < trackers_of(m).len() ==> run_unanswered(m, n).phase == (EnginePhase::Announcing {
            tracker: n as usize,
        }),
        n == trackers_of(m).len() ==> run_unanswered(m, n).phase == EnginePhase::Downloading
            && run_unanswered(m, n).peers.len() == 0,
        run_unanswered(m, n).trackers == trackers_of(m),
        run_unanswered(m, n).metainfo == m,
    decreases n,
{
    if n > 0 {
        law_trackers_are_asked_in_turn(m, (n - 1) as nat);
    }
}

/// A torrent whose pieces are known is downloaded as it is: no peer is asked to describe it.
pub proof fn law_known_torrent_is_not_fetched(r: Run, answer: Option<Seq<Peer>>)
    requires
        run_sound(r),
        r.metainfo.pieces.len() > 0,
    ensures
        run_sound(run_announced(r, answer)),
        run_announced(r, answer).metainfo == r.metainfo,
        run_announced(r, answer).phase !is Searching,
{
}

} // verus!
