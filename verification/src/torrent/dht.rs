//! Looking up peers among other clients.
use crate::bytes::append_slice;
use crate::bytes::array20;
use crate::bytes::be_digits;
use crate::bytes::be_value;
use crate::bytes::copy_all;
use crate::bytes::copy_range;
use crate::bytes::find_byte;
use crate::bytes::find_from;
use crate::bytes::lemma_be_roundtrip;
use crate::bytes::pow256;
use crate::bytes::read_u16_be;
use crate::bytes::same_bytes;
use crate::text::decimal;
use crate::text::is_digit;
use crate::text::parse_i64;
use crate::text::parse_unsigned;
use crate::text::signed_number;
use crate::text::unsigned_number;
use crate::torrent::bencode::key_position;
use crate::torrent::bencode::lemma_key_position;
use crate::torrent::bencode::push_number;
use crate::torrent::bencode::tree_of;
use crate::torrent::bencode::Bencode;
use crate::torrent::bencode::Tree;
use crate::torrent::metainfo::entry;
use crate::torrent::tracker::compact_peers;
use crate::torrent::tracker::parse_compact_peers;
use crate::torrent::tracker::peer_views;
use crate::torrent::tracker::IpAddress;
use crate::torrent::tracker::Peer;
use crate::torrent::tracker::TrackerPeer;
use vstd::prelude::*;
use vstd::utf8::encode_utf8;

verus! {

/// The deepest nesting of a reply.
pub const MAX_KRPC_DEPTH: usize = 32;

/// A lookup stops when this many peers are known.
pub const ENOUGH_PEERS: usize = 50;

/// The name of a node.
#[derive(Debug, Clone, Copy, PartialEq, Eq)]
pub struct NodeId(pub [u8; 20]);

/// `rand::thread_rng().fill_bytes`: bytes of which nothing is said, they are drawn at random.
#[verifier::external_body]
fn random_bytes() -> (b: [u8; 20]) {
    let mut b = [0u8; 20];
    rand::RngCore::fill_bytes(&mut rand::thread_rng(), &mut b);
    b
}

impl NodeId {
    /// A name that is drawn at random.
    pub fn random() -> NodeId {
        NodeId(random_bytes())
    }

    /// The bytes of the name.
    pub fn as_bytes(&self) -> (r: &[u8; 20])
        ensures
            r@ == self.0@,
    {
        &self.0
    }
}

/// Where a node is reached.
#[derive(Debug, Clone, Copy, PartialEq, Eq)]
pub struct NodeAddress {
    /// Its address.
    pub ip: IpAddress,
    /// Its port.
    pub port: u16,
}

/// A `NodeAddress` over sequences: four bytes or eight groups, and a port.
#[verifier::ext_equal]
pub enum Place {
    V4(Seq<u8>, u16),
    V6(Seq<u16>, u16),
}

impl View for NodeAddress {
    type V = Place;

    open spec fn view(&self) -> Place {
        match self.ip {
            IpAddress::V4(a) => Place::V4(a@, self.port),
            IpAddress::V6(s) => Place::V6(s@, self.port),
        }
    }
}

impl NodeAddress {
    /// The port.
    pub fn port(&self) -> (r: u16)
        ensures
            r == self.port,
    {
        self.port
    }

    /// Whether two addresses are the same.
    pub fn same(&self, other: &NodeAddress) -> (r: bool)
        ensures
            r == (self@ == other@),
    {
        if self.port != other.port {
            return false;
        }
        match (self.ip, other.ip) {
            (IpAddress::V4(a), IpAddress::V4(b)) => {
                let r: bool = a[0] == b[0] && a[1] == b[1] && a[2] == b[2] && a[3] == b[3];
                proof {
                    if r {
                        assert(a@ =~= b@);
                    }
                }
                r
            },
            (IpAddress::V6(a), IpAddress::V6(b)) => {
                let r: bool = a[0] == b[0] && a[1] == b[1] && a[2] == b[2] && a[3] == b[3] && a[4]
                    == b[4] && a[5] == b[5] && a[6] == b[6] && a[7] == b[7];
                proof {
                    if r {
                        assert(a@ =~= b@);
                    }
                }
                r
            },
            _ => false,
        }
    }
}

/// A node as replies name it.
#[derive(Debug, Clone, Copy)]
pub struct CompactNode {
    /// Its name.
    pub id: NodeId,
    /// Where it is reached.
    pub addr: NodeAddress,
}

/// A `CompactNode` over sequences.
#[verifier::ext_equal]
pub struct Node {
    pub id: Seq<u8>,
    pub addr: Place,
}

impl View for CompactNode {
    type V = Node;

    open spec fn view(&self) -> Node {
        Node { id: self.id.0@, addr: self.addr@ }
    }
}

/// Nodes over sequences.
pub open spec fn node_views(s: Seq<CompactNode>) -> Seq<Node> {
    s.map_values(|n: CompactNode| n@)
}

/// The node in 26 bytes: a name, four bytes of address and a port, which is not zero.
pub open spec fn node_in(b: Seq<u8>) -> Option<Node> {
    let port = be_value(b.subrange(24, 26)) as u16;
    if port > 0 {
        Some(Node { id: b.subrange(0, 20), addr: Place::V4(b.subrange(20, 24), port) })
    } else {
        None
    }
}

/// The nodes in the first `n` groups of 26 bytes.
pub open spec fn nodes_upto(s: Seq<u8>, n: nat) -> Seq<Node>
    decreases n,
{
    if n == 0 {
        Seq::empty()
    } else {
        let before = nodes_upto(s, (n - 1) as nat);
        match node_in(s.subrange(26 * (n - 1), 26 * (n - 1) + 26)) {
            Some(x) => before.push(x),
            None => before,
        }
    }
}

impl CompactNode {
    /// Reads nodes. Those without a port and bytes that make no whole node are passed over.
    pub fn parse_list(data: &[u8]) -> (r: Vec<CompactNode>)
        ensures
            node_views(r@) == nodes_upto(data@, data@.len() / 26),
    {
        let mut r: Vec<CompactNode> = Vec::new();
        let count: usize = data.len() / 26;
        let mut k: usize = 0;
        assert(node_views(r@) =~= Seq::<Node>::empty());
        while k < count
            invariant
                k <= count,
                count == data.len() / 26,
                node_views(r@) == nodes_upto(data@, k as nat),
            decreases count - k,
        {
            let at: usize = 26 * k;
            let ghost before = r@;
            let ghost b = data@.subrange(at as int, at + 26);
            let port: u16 = read_u16_be(data, at + 24);
            assert(b.subrange(24, 26) =~= data@.subrange(at + 24, at + 26));
            if port > 0 {
                let ip: [u8; 4] = [data[at + 20], data[at + 21], data[at + 22], data[at + 23]];
                let n: CompactNode = CompactNode {
                    id: NodeId(array20(data, at)),
                    addr: NodeAddress { ip: IpAddress::V4(ip), port },
                };
                proof {
                    assert(n.id.0@ =~= b.subrange(0, 20));
                    assert(ip@ =~= b.subrange(20, 24));
                    assert(node_in(b) == Some(n@));
                }
                r.push(n);
                assert(node_views(r@) =~= node_views(before).push(n@));
            }
            k = k + 1;
        }
        r
    }
}

// ---- queries ----

/// The query for the peers of a torrent.
pub open spec fn get_peers_bytes(id: Seq<u8>, info_hash: Seq<u8>, tid: Seq<u8>) -> Seq<u8> {
    encode_utf8("d1:ad2:id20:"@) + id + encode_utf8("9:info_hash20:"@) + info_hash + encode_utf8(
        "e1:q9:get_peers1:t2:"@,
    ) + tid + encode_utf8("1:y1:qe"@)
}

/// Writes the query for the peers of a torrent.
pub fn build_get_peers_query(node_id: &NodeId, info_hash: &[u8; 20], tid: &[u8; 2]) -> (msg: Vec<
    u8,
>)
    ensures
        msg@ == get_peers_bytes(node_id.0@, info_hash@, tid@),
{
    let mut msg: Vec<u8> = Vec::new();
    append_slice(&mut msg, "d1:ad2:id20:".as_bytes());
    append_slice(&mut msg, node_id.as_bytes().as_slice());
    append_slice(&mut msg, "9:info_hash20:".as_bytes());
    append_slice(&mut msg, info_hash.as_slice());
    append_slice(&mut msg, "e1:q9:get_peers1:t2:".as_bytes());
    append_slice(&mut msg, tid.as_slice());
    append_slice(&mut msg, "1:y1:qe".as_bytes());
    assert(msg@ =~= get_peers_bytes(node_id.0@, info_hash@, tid@));
    msg
}

/// The query for the nodes near a name.
pub open spec fn find_node_bytes(id: Seq<u8>, target: Seq<u8>, tid: Seq<u8>) -> Seq<u8> {
    encode_utf8("d1:ad2:id20:"@) + id + encode_utf8("6:target20:"@) + target + encode_utf8(
        "e1:q9:find_node1:t2:"@,
    ) + tid + encode_utf8("1:y1:qe"@)
}

/// Writes the query for the nodes near a name.
pub fn build_find_node_query(node_id: &NodeId, target: &[u8; 20], tid: &[u8; 2]) -> (msg: Vec<u8>)
    ensures
        msg@ == find_node_bytes(node_id.0@, target@, tid@),
{
    let mut msg: Vec<u8> = Vec::new();
    append_slice(&mut msg, "d1:ad2:id20:".as_bytes());
    append_slice(&mut msg, node_id.as_bytes().as_slice());
    append_slice(&mut msg, "6:target20:".as_bytes());
    append_slice(&mut msg, target.as_slice());
    append_slice(&mut msg, "e1:q9:find_node1:t2:".as_bytes());
    append_slice(&mut msg, tid.as_slice());
    append_slice(&mut msg, "1:y1:qe".as_bytes());
    assert(msg@ =~= find_node_bytes(node_id.0@, target@, tid@));
    msg
}

/// The query that tells a node of a client.
pub open spec fn announce_peer_bytes(
    id: Seq<u8>,
    info_hash: Seq<u8>,
    port: u16,
    token: Seq<u8>,
    tid: Seq<u8>,
) -> Seq<u8> {
    encode_utf8("d1:ad2:id20:"@) + id + encode_utf8("12:implied_porti1e9:info_hash20:"@)
        + info_hash + encode_utf8("4:porti"@) + encode_utf8(decimal(port as nat)) + encode_utf8(
        "e5:token"@,
    ) + encode_utf8(decimal(token.len())) + encode_utf8(":"@) + token + encode_utf8(
        "e1:q13:announce_peer1:t2:"@,
    ) + tid + encode_utf8("1:y1:qe"@)
}

/// Writes the query that tells a node of a client.
pub fn build_announce_peer_query(
    node_id: &NodeId,
    info_hash: &[u8; 20],
    port: u16,
    token: &[u8],
    tid: &[u8; 2],
) -> (msg: Vec<u8>)
    ensures
        msg@ == announce_peer_bytes(node_id.0@, info_hash@, port, token@, tid@),
{
    let mut msg: Vec<u8> = Vec::new();
    append_slice(&mut msg, "d1:ad2:id20:".as_bytes());
    append_slice(&mut msg, node_id.as_bytes().as_slice());
    append_slice(&mut msg, "12:implied_porti1e9:info_hash20:".as_bytes());
    append_slice(&mut msg, info_hash.as_slice());
    append_slice(&mut msg, "4:porti".as_bytes());
    push_number(&mut msg, port as u64);
    append_slice(&mut msg, "e5:token".as_bytes());
    push_number(&mut msg, token.len() as u64);
    append_slice(&mut msg, ":".as_bytes());
    append_slice(&mut msg, token);
    append_slice(&mut msg, "e1:q13:announce_peer1:t2:".as_bytes());
    append_slice(&mut msg, tid.as_slice());
    append_slice(&mut msg, "1:y1:qe".as_bytes());
    assert(msg@ =~= announce_peer_bytes(node_id.0@, info_hash@, port, token@, tid@));
    msg
}

// ---- replies ----

/// The number at `pos`, after its letter, and where it ends.
pub open spec fn int_at(data: Seq<u8>, pos: int) -> Option<(i64, int)> {
    match find_from(data, pos, 0x65) {
        None => None,
        Some(end) => match signed_number(data.subrange(pos, end)) {
            Some(n) => if i64::MIN <= n <= i64::MAX {
                Some((n as i64, end + 1))
            } else {
                None
            },
            None => None,
        },
    }
}

/// The byte string at `pos` and where it ends.
pub open spec fn string_at(data: Seq<u8>, pos: int) -> Option<(Seq<u8>, int)> {
    match find_from(data, pos, 0x3a) {
        None => None,
        Some(colon) => match unsigned_number(data.subrange(pos, colon)) {
            Some(n) => if colon + 1 + n <= data.len() {
                Some((data.subrange(colon + 1, colon + 1 + n), colon + 1 + n))
            } else {
                None
            },
            None => None,
        },
    }
}

/// A dictionary with one more entry; a key that is there keeps its value.
pub open spec fn with_entry(m: Map<Seq<u8>, Tree>, key: Seq<u8>, t: Tree) -> Map<Seq<u8>, Tree> {
    if m.dom().contains(key) {
        m
    } else {
        m.insert(key, t)
    }
}

/// The value at `pos`, inside `depth` levels, and where it ends.
pub open spec fn value_at(data: Seq<u8>, pos: int, depth: nat) -> Option<(Tree, int)>
    decreases data.len() - pos, 0nat,
{
    if depth > MAX_KRPC_DEPTH || pos < 0 || pos >= data.len() {
        None
    } else if data[pos] == 0x69 {
        match int_at(data, pos + 1) {
            Some((n, end)) => Some((Tree::Int(n), end)),
            None => None,
        }
    } else if is_digit(data[pos]) {
        match string_at(data, pos) {
            Some((b, end)) => Some((Tree::Bytes(b), end)),
            None => None,
        }
    } else if data[pos] == 0x6c {
        match list_at(data, pos + 1, depth, Seq::empty()) {
            Some((s, end)) => Some((Tree::List(s), end)),
            None => None,
        }
    } else if data[pos] == 0x64 {
        match dict_at(data, pos + 1, depth, Map::empty()) {
            Some((m, end)) => Some((Tree::Dict(m), end)),
            None => None,
        }
    } else {
        None
    }
}

/// The items of a list from `pos` on, after `done`, and where it ends.
pub open spec fn list_at(data: Seq<u8>, pos: int, depth: nat, done: Seq<Tree>) -> Option<
    (Seq<Tree>, int),
>
    decreases data.len() - pos, 1nat,
{
    if pos < 0 || pos >= data.len() {
        None
    } else if data[pos] == 0x65 {
        Some((done, pos + 1))
    } else {
        match value_at(data, pos, depth + 1) {
            None => None,
            Some((t, next)) => if pos < next <= data.len() {
                list_at(data, next, depth, done.push(t))
            } else {
                None
            },
        }
    }
}

/// The entries of a dictionary from `pos` on, after `done`, and where it ends.
pub open spec fn dict_at(data: Seq<u8>, pos: int, depth: nat, done: Map<Seq<u8>, Tree>) -> Option<
    (Map<Seq<u8>, Tree>, int),
>
    decreases data.len() - pos, 1nat,
{
    if pos < 0 || pos >= data.len() {
        None
    } else if data[pos] == 0x65 {
        Some((done, pos + 1))
    } else {
        match value_at(data, pos, depth + 1) {
            Some((Tree::Bytes(key), mid)) => if pos < mid <= data.len() {
                match value_at(data, mid, depth + 1) {
                    None => None,
                    Some((t, next)) => if mid < next <= data.len() {
                        dict_at(data, next, depth, with_entry(done, key, t))
                    } else {
                        None
                    },
                }
            } else {
                None
            },
            _ => None,
        }
    }
}

proof fn lemma_value_at(data: Seq<u8>, pos: int, depth: nat)
    requires
        0 <= pos <= data.len(),
    ensures
        value_at(data, pos, depth) matches Some((t, end)) ==> pos < end <= data.len(),
    decreases data.len() - pos, 0nat,
{
    if pos < data.len() {
        crate::bytes::lemma_find_from(data, pos + 1, 0x65);
        crate::bytes::lemma_find_from(data, pos, 0x3a);
        lemma_list_at(data, pos + 1, depth, Seq::empty());
        lemma_dict_at(data, pos + 1, depth, Map::empty());
    }
}

proof fn lemma_list_at(data: Seq<u8>, pos: int, depth: nat, done: Seq<Tree>)
    requires
        0 <= pos <= data.len(),
    ensures
        list_at(data, pos, depth, done) matches Some((s, end)) ==> pos < end <= data.len(),
    decreases data.len() - pos, 1nat,
{
    if pos < data.len() && data[pos] != 0x65 {
        if let Some((t, next)) = value_at(data, pos, depth + 1) {
            if pos < next <= data.len() {
                lemma_list_at(data, next, depth, done.push(t));
            }
        }
    }
}

proof fn lemma_dict_at(data: Seq<u8>, pos: int, depth: nat, done: Map<Seq<u8>, Tree>)
    requires
        0 <= pos <= data.len(),
    ensures
        dict_at(data, pos, depth, done) matches Some((m, end)) ==> pos < end <= data.len(),
    decreases data.len() - pos, 1nat,
{
    if pos < data.len() && data[pos] != 0x65 {
        if let Some((Tree::Bytes(key), mid)) = value_at(data, pos, depth + 1) {
            if pos < mid <= data.len() {
                if let Some((t, next)) = value_at(data, mid, depth + 1) {
                    if mid < next <= data.len() {
                        lemma_dict_at(data, next, depth, with_entry(done, key, t));
                    }
                }
            }
        }
    }
}

proof fn lemma_push_entry(d: Seq<(Vec<u8>, Bencode)>, e: (Vec<u8>, Bencode), k: Seq<u8>, from: int)
    requires
        0 <= from <= d.len(),
    ensures
        key_position(d, k, from) < d.len() ==> key_position(d.push(e), k, from) == key_position(
            d,
            k,
            from,
        ),
        key_position(d, k, from) >= d.len() ==> key_position(d.push(e), k, from) == if e.0@ == k {
            d.len() as int
        } else {
            d.len() as int + 1
        },
    decreases d.len() - from,
{
    let p = d.push(e);
    if from < d.len() {
        assert(p[from] == d[from]);
        lemma_push_entry(d, e, k, from + 1);
    } else {
        assert(p[from] == e);
        reveal_with_fuel(key_position, 2);
    }
}

proof fn lemma_dict_push(a: Vec<(Vec<u8>, Bencode)>, b: Vec<(Vec<u8>, Bencode)>, e: (
    Vec<u8>,
    Bencode,
))
    requires
        b@ == a@.push(e),
    ensures
        tree_of(Bencode::Dict(b))->Dict_0 == with_entry(
            tree_of(Bencode::Dict(a))->Dict_0,
            e.0@,
            tree_of(e.1),
        ),
{
    let m = tree_of(Bencode::Dict(a))->Dict_0;
    let n = tree_of(Bencode::Dict(b))->Dict_0;
    let w = with_entry(m, e.0@, tree_of(e.1));
    assert forall|k: Seq<u8>| n.dom().contains(k) == w.dom().contains(k) by {
        lemma_push_entry(a@, e, k, 0);
        lemma_key_position(a@, k, 0);
        lemma_key_position(b@, k, 0);
    }
    assert forall|k: Seq<u8>| w.dom().contains(k) implies n[k] == w[k] by {
        lemma_push_entry(a@, e, k, 0);
        lemma_key_position(a@, k, 0);
        lemma_key_position(b@, k, 0);
        assert(n.dom().contains(k));
        let i = key_position(b@, k, 0);
        if m.dom().contains(k) {
            assert(b@[i] == a@[i]);
        } else {
            assert(b@[i] == e);
        }
    }
    assert(n =~= w);
}

fn parse_list_items(data: &[u8], pos: usize, depth: usize) -> (r: Option<(Bencode, usize)>)
    requires
        pos <= data@.len(),
        depth <= MAX_KRPC_DEPTH,
    ensures
        match list_at(data@, pos as int, depth as nat, Seq::empty()) {
            Some((s, end)) => r matches Some(v) && tree_of(v.0) == Tree::List(s) && v.1 == end
                && v.1 <= data@.len(),
            None => r is None,
        },
    decreases data@.len() - pos, 1nat,
{
    proof {
        lemma_list_at(data@, pos as int, depth as nat, Seq::empty());
    }
    let ghost want = list_at(data@, pos as int, depth as nat, Seq::empty());
    let mut items: Vec<Bencode> = Vec::new();
    let mut at: usize = pos;
    assert(tree_of(Bencode::List(items))->List_0 =~= Seq::<Tree>::empty());
    while at < data.len()
        invariant
            pos <= at <= data.len(),
            depth <= MAX_KRPC_DEPTH,
            want == list_at(data@, pos as int, depth as nat, Seq::empty()),
            want matches Some((s, end)) ==> pos < end <= data@.len(),
            want == list_at(
                data@,
                at as int,
                depth as nat,
                tree_of(Bencode::List(items))->List_0,
            ),
        decreases data.len() - at,
    {
        if data[at] == 0x65 {
            return Some((Bencode::List(items), at + 1));
        }
        let ghost before = items;
        match parse_bencode_value(data, at, depth + 1) {
            None => {
                return None;
            },
            Some((x, next)) => {
                proof {
                    lemma_value_at(data@, at as int, (depth + 1) as nat);
                }
                items.push(x);
                assert(tree_of(Bencode::List(items))->List_0 =~= tree_of(
                    Bencode::List(before),
                )->List_0.push(tree_of(x)));
                at = next;
            },
        }
    }
    None
}

fn parse_dict_entries(data: &[u8], pos: usize, depth: usize) -> (r: Option<(Bencode, usize)>)
    requires
        pos <= data@.len(),
        depth <= MAX_KRPC_DEPTH,
    ensures
        match dict_at(data@, pos as int, depth as nat, Map::empty()) {
            Some((m, end)) => r matches Some(v) && tree_of(v.0) == Tree::Dict(m) && v.1 == end
                && v.1 <= data@.len(),
            None => r is None,
        },
    decreases data@.len() - pos, 1nat,
{
    proof {
        lemma_dict_at(data@, pos as int, depth as nat, Map::empty());
    }
    let ghost want = dict_at(data@, pos as int, depth as nat, Map::empty());
    let mut entries: Vec<(Vec<u8>, Bencode)> = Vec::new();
    let mut at: usize = pos;
    assert(tree_of(Bencode::Dict(entries))->Dict_0 =~= Map::<Seq<u8>, Tree>::empty());
    while at < data.len()
        invariant
            pos <= at <= data.len(),
            depth <= MAX_KRPC_DEPTH,
            want == dict_at(data@, pos as int, depth as nat, Map::empty()),
            want matches Some((m, end)) ==> pos < end <= data@.len(),
            want == dict_at(
                data@,
                at as int,
                depth as nat,
                tree_of(Bencode::Dict(entries))->Dict_0,
            ),
        decreases data.len() - at,
    {
        if data[at] == 0x65 {
            return Some((Bencode::Dict(entries), at + 1));
        }
        proof {
            lemma_value_at(data@, at as int, (depth + 1) as nat);
        }
        let ghost before = entries;
        match parse_bencode_value(data, at, depth + 1) {
            Some((Bencode::Bytes(key), mid)) => {
                proof {
                    lemma_value_at(data@, mid as int, (depth + 1) as nat);
                }
                match parse_bencode_value(data, mid, depth + 1) {
                    None => {
                        return None;
                    },
                    Some((x, next)) => {
                        let ghost e = (key, x);
                        entries.push((key, x));
                        proof {
                            lemma_dict_push(before, entries, e);
                        }
                        at = next;
                    },
                }
            },
            _ => {
                return None;
            },
        }
    }
    None
}

/// Parses the value at `pos`, inside `depth` levels: the value and where it ends.
pub fn parse_bencode_value(data: &[u8], pos: usize, depth: usize) -> (r: Option<(Bencode, usize)>)
    ensures
        match value_at(data@, pos as int, depth as nat) {
            Some((t, end)) => r matches Some(v) && tree_of(v.0) == t && v.1 == end && pos < v.1
                <= data@.len(),
            None => r is None,
        },
    decreases data@.len() - pos, 0nat,
{
    if depth > MAX_KRPC_DEPTH || pos >= data.len() {
        return None;
    }
    proof {
        lemma_value_at(data@, pos as int, depth as nat);
    }
    let c: u8 = data[pos];
    if c == 0x69 {
        let end: usize = match find_byte(data, pos + 1, 0x65) {
            None => {
                return None;
            },
            Some(e) => e,
        };
        assert(end < data.len());
        match parse_i64(vstd::slice::slice_subrange(data, pos + 1, end)) {
            None => None,
            Some(n) => Some((Bencode::Int(n), end + 1)),
        }
    } else if c >= 0x30 && c <= 0x39 {
        let colon: usize = match find_byte(data, pos, 0x3a) {
            None => {
                return None;
            },
            Some(e) => e,
        };
        assert(colon < data.len());
        let room: usize = data.len() - colon - 1;
        match parse_unsigned(vstd::slice::slice_subrange(data, pos, colon), room as u64) {
            None => None,
            Some(n) => {
                let end: usize = colon + 1 + n as usize;
                Some((Bencode::Bytes(copy_range(data, colon + 1, end)), end))
            },
        }
    } else if c == 0x6c {
        parse_list_items(data, pos + 1, depth)
    } else if c == 0x64 {
        parse_dict_entries(data, pos + 1, depth)
    } else {
        None
    }
}

/// What a reply says: peers, nodes, and the number of the query that it answers.
#[verifier::ext_equal]
pub struct Reply {
    pub peers: Seq<Peer>,
    pub nodes: Seq<Node>,
    pub tid: Option<Seq<u8>>,
}

/// The peers that the first `n` items of a list name.
pub open spec fn listed_peers(s: Seq<Tree>, n: nat) -> Seq<Peer>
    decreases n,
{
    if n == 0 {
        Seq::empty()
    } else {
        match s[n - 1] {
            Tree::Bytes(b) => listed_peers(s, (n - 1) as nat) + compact_peers(b),
            _ => listed_peers(s, (n - 1) as nat),
        }
    }
}

/// The body of a reply.
pub open spec fn reply_body(t: Tree) -> Option<Tree> {
    match entry(t, "r"@) {
        Some(r) => if r is Dict {
            Some(r)
        } else {
            None
        },
        None => None,
    }
}

/// What a reply says, when it is parsed as this tree.
pub open spec fn reply_of(t: Tree) -> Reply {
    Reply {
        tid: match entry(t, "t"@) {
            Some(Tree::Bytes(b)) => Some(b),
            _ => None,
        },
        nodes: match reply_body(t) {
            Some(r) => match entry(r, "nodes"@) {
                Some(Tree::Bytes(b)) => nodes_upto(b, b.len() / 26),
                _ => Seq::empty(),
            },
            None => Seq::empty(),
        },
        peers: match reply_body(t) {
            Some(r) => match entry(r, "values"@) {
                Some(Tree::List(s)) => listed_peers(s, s.len()),
                _ => Seq::empty(),
            },
            None => Seq::empty(),
        },
    }
}

/// What a reply says. Bytes that do not start with a dictionary say nothing.
pub open spec fn reply_in(data: Seq<u8>) -> Reply {
    match value_at(data, 0, 0) {
        Some((t, _)) => if t is Dict {
            reply_of(t)
        } else {
            Reply { peers: Seq::empty(), nodes: Seq::empty(), tid: None }
        },
        None => Reply { peers: Seq::empty(), nodes: Seq::empty(), tid: None },
    }
}

fn append_peers(to: &mut Vec<TrackerPeer>, from: Vec<TrackerPeer>)
    ensures
        peer_views(final(to)@) == peer_views(old(to)@) + peer_views(from@),
{
    let mut more: Vec<TrackerPeer> = from;
    to.append(&mut more);
    assert(peer_views(to@) =~= peer_views(old(to)@) + peer_views(from@));
}

fn list_peers(l: &Vec<Bencode>) -> (r: Vec<TrackerPeer>)
    ensures
        peer_views(r@) == listed_peers(
            tree_of(Bencode::List(*l))->List_0,
            tree_of(Bencode::List(*l))->List_0.len(),
        ),
{
    let ghost s = tree_of(Bencode::List(*l))->List_0;
    let mut r: Vec<TrackerPeer> = Vec::new();
    let mut i: usize = 0;
    assert(peer_views(r@) =~= Seq::<Peer>::empty());
    while i < l.len()
        invariant
            i <= l@.len(),
            s == tree_of(Bencode::List(*l))->List_0,
            peer_views(r@) == listed_peers(s, i as nat),
        decreases l@.len() - i,
    {
        assert(s[i as int] == tree_of(l@[i as int]));
        match &l[i] {
            Bencode::Bytes(b) => {
                append_peers(&mut r, parse_compact_peers(b.as_slice()));
            },
            _ => {},
        }
        i = i + 1;
    }
    r
}

/// Whether a value that was read is what a reply says.
pub open spec fn tells_reply(
    r: (Vec<TrackerPeer>, Vec<CompactNode>, Option<Vec<u8>>),
    want: Reply,
) -> bool {
    &&& peer_views(r.0@) == want.peers
    &&& node_views(r.1@) == want.nodes
    &&& match r.2 {
        Some(t) => want.tid == Some(t@),
        None => want.tid is None,
    }
}

/// Reads a reply: peers, nodes, and the number of the query that it answers.
pub fn parse_dht_response(data: &[u8]) -> (r: (
    Vec<TrackerPeer>,
    Vec<CompactNode>,
    Option<Vec<u8>>,
))
    ensures
        tells_reply(r, reply_in(data@)),
{
    let mut peers: Vec<TrackerPeer> = Vec::new();
    let mut nodes: Vec<CompactNode> = Vec::new();
    let mut tid: Option<Vec<u8>> = None;
    assert(peer_views(peers@) =~= Seq::<Peer>::empty());
    assert(node_views(nodes@) =~= Seq::<Node>::empty());
    match parse_bencode_value(data, 0, 0) {
        None => {},
        Some((root, _)) => {
            if root.is_dict() {
                match root.get("t".as_bytes()) {
                    Some(Bencode::Bytes(t)) => {
                        tid = Some(copy_all(t.as_slice()));
                    },
                    _ => {},
                }
                match root.get("r".as_bytes()) {
                    Some(body) => {
                        if body.is_dict() {
                            match body.get("nodes".as_bytes()) {
                                Some(Bencode::Bytes(b)) => {
                                    nodes = CompactNode::parse_list(b.as_slice());
                                },
                                _ => {},
                            }
                            match body.get("values".as_bytes()) {
                                Some(Bencode::List(l)) => {
                                    peers = list_peers(l);
                                },
                                _ => {},
                            }
                        }
                    },
                    None => {},
                }
            }
        },
    }
    (peers, nodes, tid)
}

/// The token of a reply that answers this query.
pub open spec fn token_in(data: Seq<u8>, tid: Seq<u8>) -> Option<Seq<u8>> {
    if reply_in(data).tid != Some(tid) {
        None
    } else {
        match value_at(data, 0, 0) {
            Some((t, _)) => match reply_body(t) {
                Some(r) => match entry(r, "token"@) {
                    Some(Tree::Bytes(b)) => Some(b),
                    _ => None,
                },
                None => None,
            },
            None => None,
        }
    }
}

/// Reads the token of a reply that answers the query with this number.
pub fn extract_token(data: &[u8], expected_tid: &[u8]) -> (r: Option<Vec<u8>>)
    ensures
        match token_in(data@, expected_tid@) {
            Some(t) => r matches Some(v) && v@ == t,
            None => r is None,
        },
{
    let (_, _, tid) = parse_dht_response(data);
    match tid {
        None => {
            return None;
        },
        Some(t) => {
            if !same_bytes(t.as_slice(), expected_tid) {
                return None;
            }
        },
    }
    match parse_bencode_value(data, 0, 0) {
        None => None,
        Some((root, _)) => match root.get("r".as_bytes()) {
            Some(body) => {
                if !body.is_dict() {
                    return None;
                }
                match body.get("token".as_bytes()) {
                    Some(Bencode::Bytes(b)) => Some(copy_all(b.as_slice())),
                    _ => None,
                }
            },
            None => None,
        },
    }
}

// ---- announcing ----

/// The number of the query that asks a node for its token.
pub open spec fn token_query() -> Seq<u8> {
    seq![0x61u8, 0x61u8]
}

/// The number of the query that tells a node of the client.
pub open spec fn announce_query() -> Seq<u8> {
    seq![0x62u8, 0x62u8]
}

/// What a node that was asked for its token is told. Nothing, where the answer comes from
/// elsewhere, answers another query or holds no token.
pub open spec fn announcement(
    id: Seq<u8>,
    info_hash: Seq<u8>,
    port: u16,
    asked: Place,
    from: Place,
    data: Seq<u8>,
) -> Option<Seq<u8>> {
    if asked != from {
        None
    } else {
        match token_in(data, token_query()) {
            Some(token) => Some(announce_peer_bytes(id, info_hash, port, token, announce_query())),
            None => None,
        }
    }
}

/// Writes the query that asks a node for its token.
pub fn build_token_query(node_id: &NodeId, info_hash: &[u8; 20]) -> (msg: Vec<u8>)
    ensures
        msg@ == get_peers_bytes(node_id.0@, info_hash@, token_query()),
{
    let tid: [u8; 2] = [0x61, 0x61];
    assert(tid@ =~= token_query());
    build_get_peers_query(node_id, info_hash, &tid)
}

/// Decides what a node is told that was asked for its token.
pub fn answer_with_announcement(
    node_id: &NodeId,
    info_hash: &[u8; 20],
    port: u16,
    asked: &NodeAddress,
    from: &NodeAddress,
    data: &[u8],
) -> (r: Option<Vec<u8>>)
    ensures
        match announcement(node_id.0@, info_hash@, port, asked@, from@, data@) {
            Some(m) => r matches Some(v) && v@ == m,
            None => r is None,
        },
{
    if !asked.same(from) {
        return None;
    }
    let tid: [u8; 2] = [0x61, 0x61];
    assert(tid@ =~= token_query());
    match extract_token(data, tid.as_slice()) {
        Some(token) => {
            let next: [u8; 2] = [0x62, 0x62];
            assert(next@ =~= announce_query());
            Some(build_announce_peer_query(node_id, info_hash, port, token.as_slice(), &next))
        },
        None => None,
    }
}

// ---- lookups ----

/// A lookup under way: what is to be asked, what was asked, and what was found.
#[derive(Debug)]
pub struct Lookup {
    pending: Vec<NodeAddress>,
    queried: Vec<NodeAddress>,
    peers: Vec<TrackerPeer>,
    tid: u16,
}

/// A `Lookup` over sequences.
#[verifier::ext_equal]
pub struct Search {
    pub pending: Seq<Place>,
    pub queried: Seq<Place>,
    pub peers: Seq<Peer>,
    pub tid: u16,
}

/// Addresses over sequences.
pub open spec fn places(s: Seq<NodeAddress>) -> Seq<Place> {
    s.map_values(|a: NodeAddress| a@)
}

impl View for Lookup {
    type V = Search;

    closed spec fn view(&self) -> Search {
        Search {
            pending: places(self.pending@),
            queried: places(self.queried@),
            peers: peer_views(self.peers@),
            tid: self.tid,
        }
    }
}

/// The search without the addresses at the front that were asked already.
pub open spec fn without_asked(s: Search) -> Search
    decreases s.pending.len(),
{
    if s.pending.len() > 0 && s.queried.contains(s.pending[0]) {
        without_asked(Search { pending: s.pending.skip(1), ..s })
    } else {
        s
    }
}

/// Whether a search is over: enough peers are known, or nothing is left to ask.
pub open spec fn search_over(s: Search) -> bool {
    s.peers.len() >= ENOUGH_PEERS || without_asked(s).pending.len() == 0
}

/// The search once the next address is taken.
pub open spec fn search_asking(s: Search) -> Search {
    let t = without_asked(s);
    Search {
        pending: t.pending.skip(1),
        queried: t.queried.push(t.pending[0]),
        peers: t.peers,
        tid: t.tid.wrapping_add(1),
    }
}

/// The peers with those that are not among them.
pub open spec fn peers_with(known: Seq<Peer>, found: Seq<Peer>, n: nat) -> Seq<Peer>
    decreases n,
{
    if n == 0 {
        known
    } else {
        let k = peers_with(known, found, (n - 1) as nat);
        if k.contains(found[n - 1]) {
            k
        } else {
            k.push(found[n - 1])
        }
    }
}

/// The pending addresses with those of nodes that were not asked.
pub open spec fn pending_with(
    pending: Seq<Place>,
    queried: Seq<Place>,
    nodes: Seq<Node>,
    n: nat,
) -> Seq<Place>
    decreases n,
{
    if n == 0 {
        pending
    } else {
        let p = pending_with(pending, queried, nodes, (n - 1) as nat);
        if queried.contains(nodes[n - 1].addr) {
            p
        } else {
            p.push(nodes[n - 1].addr)
        }
    }
}

/// The two bytes of a query's number.
pub open spec fn tid_bytes(tid: u16) -> Seq<u8> {
    seq![(tid / 256) as u8, (tid % 256) as u8]
}

/// The search after a datagram that came from `from` while `asked` was asked. Only an answer of
/// that node to the last query counts.
pub open spec fn search_after(s: Search, asked: Place, from: Place, data: Seq<u8>) -> Search {
    let r = reply_in(data);
    if from != asked || r.tid != Some(tid_bytes(s.tid)) {
        s
    } else {
        Search {
            peers: peers_with(s.peers, r.peers, r.peers.len()),
            pending: pending_with(s.pending, s.queried, r.nodes, r.nodes.len()),
            ..s
        }
    }
}

fn holds_place(v: &Vec<NodeAddress>, a: &NodeAddress) -> (r: bool)
    ensures
        r == places(v@).contains(a@),
{
    let mut i: usize = 0;
    while i < v.len()
        invariant
            i <= v@.len(),
            forall|k: int| 0 <= k < i ==> #[trigger] places(v@)[k] != a@,
        decreases v@.len() - i,
    {
        if v[i].same(a) {
            assert(places(v@)[i as int] == a@);
            return true;
        }
        assert(places(v@)[i as int] != a@);
        i = i + 1;
    }
    false
}

fn same_peer(a: &TrackerPeer, b: &TrackerPeer) -> (r: bool)
    ensures
        r == (a@ == b@),
{
    if a.port != b.port || a.ip != b.ip {
        return false;
    }
    match (&a.peer_id, &b.peer_id) {
        (None, None) => true,
        (Some(x), Some(y)) => same_bytes(x.as_slice(), y.as_slice()),
        _ => false,
    }
}

fn holds_peer(v: &Vec<TrackerPeer>, a: &TrackerPeer) -> (r: bool)
    ensures
        r == peer_views(v@).contains(a@),
{
    let mut i: usize = 0;
    while i < v.len()
        invariant
            i <= v@.len(),
            forall|k: int| 0 <= k < i ==> #[trigger] peer_views(v@)[k] != a@,
        decreases v@.len() - i,
    {
        if same_peer(&v[i], a) {
            assert(peer_views(v@)[i as int] == a@);
            return true;
        }
        assert(peer_views(v@)[i as int] != a@);
        i = i + 1;
    }
    false
}

fn copy_peer(p: &TrackerPeer) -> (r: TrackerPeer)
    ensures
        r@ == p@,
{
    TrackerPeer { ip: p.ip.clone(), port: p.port, peer_id: p.peer_id }
}

impl Lookup {
    /// A lookup that starts with these nodes.
    pub fn new(bootstrap: Vec<NodeAddress>) -> (l: Lookup)
        ensures
            l@ == (Search {
                pending: places(bootstrap@),
                queried: Seq::empty(),
                peers: Seq::empty(),
                tid: 0,
            }),
    {
        let l: Lookup = Lookup {
            pending: bootstrap,
            queried: Vec::new(),
            peers: Vec::new(),
            tid: 0,
        };
        assert(l@.queried =~= Seq::<Place>::empty());
        assert(l@.peers =~= Seq::<Peer>::empty());
        l
    }

    /// The next node to ask and the number of the query; nothing where the lookup is over.
    pub fn next_query(&mut self) -> (r: Option<(NodeAddress, [u8; 2])>)
        ensures
            search_over(old(self)@) ==> r is None && final(self)@.peers == old(self)@.peers,
            !search_over(old(self)@) ==> {
                &&& final(self)@ == search_asking(old(self)@)
                &&& r matches Some(q)
                &&& q.0@ == without_asked(old(self)@).pending[0]
                &&& q.1@ == tid_bytes(final(self)@.tid)
            },
    {
        if self.peers.len() >= ENOUGH_PEERS {
            return None;
        }
        let ghost s = self@;
        while self.pending.len() > 0
            invariant
                s == old(self)@,
                s.peers.len() < ENOUGH_PEERS,
                self@.peers == s.peers,
                without_asked(self@) == without_asked(s),
            decreases self.pending@.len(),
        {
            let ghost before = self@;
            let a: NodeAddress = self.pending.remove(0);
            assert(places(self.pending@) =~= before.pending.skip(1));
            assert(a@ == before.pending[0]);
            if !holds_place(&self.queried, &a) {
                assert(without_asked(before) == before);
                let ghost q = self.queried@;
                self.queried.push(a);
                assert(places(self.queried@) =~= places(q).push(a@));
                self.tid = self.tid.wrapping_add(1);
                let t: [u8; 2] = [(self.tid / 256) as u8, (self.tid % 256) as u8];
                assert(t@ =~= tid_bytes(self.tid));
                assert(self@ =~= search_asking(s));
                return Some((a, t));
            }
            assert(self@ == Search { pending: before.pending.skip(1), ..before });
        }
        None
    }

    /// Takes in a datagram that came from `from` while `asked` was asked.
    pub fn handle_reply(&mut self, asked: &NodeAddress, from: &NodeAddress, data: &[u8])
        ensures
            final(self)@ == search_after(old(self)@, asked@, from@, data@),
    {
        if !from.same(asked) {
            return ;
        }
        let (found, nodes, tid) = parse_dht_response(data);
        let ghost s = self@;
        let ghost reply = reply_in(data@);
        let t: [u8; 2] = [(self.tid / 256) as u8, (self.tid % 256) as u8];
        assert(t@ =~= tid_bytes(self.tid));
        match tid {
            None => {
                return ;
            },
            Some(x) => {
                if !same_bytes(x.as_slice(), t.as_slice()) {
                    return ;
                }
            },
        }
        let mut i: usize = 0;
        while i < found.len()
            invariant
                i <= found@.len(),
                peer_views(found@) == reply.peers,
                self@ == (Search {
                    peers: peers_with(s.peers, reply.peers, i as nat),
                    ..s
                }),
            decreases found@.len() - i,
        {
            let ghost before = self.peers@;
            assert(reply.peers[i as int] == found@[i as int]@);
            if !holds_peer(&self.peers, &found[i]) {
                self.peers.push(copy_peer(&found[i]));
                assert(peer_views(self.peers@) =~= peer_views(before).push(found@[i as int]@));
            }
            i = i + 1;
        }
        assert(peer_views(found@).len() == found@.len());
        let mut k: usize = 0;
        while k < nodes.len()
            invariant
                k <= nodes@.len(),
                node_views(nodes@) == reply.nodes,
                self@ == (Search {
                    peers: peers_with(s.peers, reply.peers, reply.peers.len()),
                    pending: pending_with(s.pending, s.queried, reply.nodes, k as nat),
                    ..s
                }),
            decreases nodes@.len() - k,
        {
            let ghost before = self.pending@;
            assert(reply.nodes[k as int] == nodes@[k as int]@);
            if !holds_place(&self.queried, &nodes[k].addr) {
                self.pending.push(nodes[k].addr);
                assert(places(self.pending@) =~= places(before).push(nodes@[k as int].addr@));
            }
            k = k + 1;
        }
        assert(node_views(nodes@).len() == nodes@.len());
    }

    /// The peers that were found.
    pub fn into_peers(self) -> (r: Vec<TrackerPeer>)
        ensures
            peer_views(r@) == self@.peers,
    {
        self.peers
    }
}

proof fn lemma_without_asked(s: Search)
    ensures
        without_asked(s).queried == s.queried,
        without_asked(s).peers == s.peers,
        without_asked(s).pending.len() > 0 ==> !s.queried.contains(without_asked(s).pending[0]),
    decreases s.pending.len(),
{
    if s.pending.len() > 0 && s.queried.contains(s.pending[0]) {
        lemma_without_asked(Search { pending: s.pending.skip(1), ..s });
    }
}

/// No node is asked twice: where no address was asked twice so far, none is after the next query.
pub proof fn law_no_node_is_asked_twice(s: Search)
    requires
        s.queried.no_duplicates(),
        !search_over(s),
    ensures
        search_asking(s).queried.no_duplicates(),
        !s.queried.contains(without_asked(s).pending[0]),
{
    lemma_without_asked(s);
}

/// A datagram from another node, or with another number, changes nothing; and none forgets a peer
/// that was found or asks a node again that was asked.
pub proof fn law_only_answers_count(s: Search, asked: Place, from: Place, data: Seq<u8>, i: int)
    requires
        0 <= i < s.peers.len(),
    ensures
        from != asked ==> search_after(s, asked, from, data) == s,
        reply_in(data).tid != Some(tid_bytes(s.tid)) ==> search_after(s, asked, from, data) == s,
        search_after(s, asked, from, data).queried == s.queried,
        i < search_after(s, asked, from, data).peers.len(),
        search_after(s, asked, from, data).peers[i] == s.peers[i],
{
    let r = reply_in(data);
    lemma_peers_kept(s.peers, r.peers, r.peers.len(), i);
}

proof fn lemma_peers_kept(known: Seq<Peer>, found: Seq<Peer>, n: nat, i: int)
    requires
        0 <= i < known.len(),
    ensures
        known.len() <= peers_with(known, found, n).len(),
        peers_with(known, found, n)[i] == known[i],
    decreases n,
{
    if n > 0 {
        lemma_peers_kept(known, found, (n - 1) as nat, i);
    }
}

proof fn lemma_pending(pending: Seq<Place>, queried: Seq<Place>, nodes: Seq<Node>, n: nat)
    requires
        n <= nodes.len(),
    ensures
        pending_with(pending, queried, nodes, n).len() >= pending.len(),
        forall|k: int|
            0 <= k < pending.len() ==> #[trigger] pending_with(pending, queried, nodes, n)[k]
                == pending[k],
        forall|i: int|
            0 <= i < n ==> queried.contains((#[trigger] nodes[i]).addr) || pending_with(
                pending,
                queried,
                nodes,
                n,
            ).skip(pending.len() as int).contains(nodes[i].addr),
        forall|k: int|
            pending.len() <= k < pending_with(pending, queried, nodes, n).len() ==> {
                let p = #[trigger] pending_with(pending, queried, nodes, n)[k];
                !queried.contains(p) && exists|i: int| 0 <= i < n && (#[trigger] nodes[i]).addr == p
            },
    decreases n,
{
    if n > 0 {
        lemma_pending(pending, queried, nodes, (n - 1) as nat);
        let before = pending_with(pending, queried, nodes, (n - 1) as nat);
        let after = pending_with(pending, queried, nodes, n);
        let l = pending.len() as int;
        assert forall|i: int| 0 <= i < n implies queried.contains((#[trigger] nodes[i]).addr)
            || after.skip(l).contains(nodes[i].addr) by {
            if i < n - 1 {
                if !queried.contains(nodes[i].addr) {
                    let b = before.skip(l);
                    let k = choose|k: int| 0 <= k < b.len() && b[k] == nodes[i].addr;
                    assert(after.skip(l)[k] == nodes[i].addr);
                }
            } else if !queried.contains(nodes[i].addr) {
                assert(after.skip(l)[before.len() - l] == nodes[i].addr);
            }
        }
        assert forall|k: int| l <= k < after.len() implies {
            let p = #[trigger] after[k];
            !queried.contains(p) && exists|i: int| 0 <= i < n && (#[trigger] nodes[i]).addr == p
        } by {
            if k < before.len() {
                assert(before[k] == after[k]);
                let i = choose|i: int|
                    0 <= i < n - 1 && (#[trigger] nodes[i]).addr == before[k];
                assert(nodes[i].addr == after[k]);
            } else {
                assert(nodes[n - 1].addr == after[k]);
            }
        }
    }
}

/// After an answer that counts, every node that the reply names was asked already or waits to be
/// asked. What waited still does, at its place, and nothing waits but what waited and what the
/// reply names and was not asked.
pub proof fn law_named_nodes_wait(s: Search, asked: Place, data: Seq<u8>)
    requires
        reply_in(data).tid == Some(tid_bytes(s.tid)),
    ensures
        ({
            let after = search_after(s, asked, asked, data);
            let nodes = reply_in(data).nodes;
            &&& forall|i: int|
                0 <= i < nodes.len() ==> s.queried.contains((#[trigger] nodes[i]).addr)
                    || after.pending.contains(nodes[i].addr)
            &&& s.pending.len() <= after.pending.len()
            &&& forall|k: int|
                0 <= k < s.pending.len() ==> #[trigger] after.pending[k] == s.pending[k]
            &&& forall|k: int|
                s.pending.len() <= k < after.pending.len() ==> !s.queried.contains(
                    #[trigger] after.pending[k],
                ) && exists|i: int|
                    0 <= i < nodes.len() && (#[trigger] nodes[i]).addr == after.pending[k]
        }),
{
    let nodes = reply_in(data).nodes;
    let after = search_after(s, asked, asked, data);
    lemma_pending(s.pending, s.queried, nodes, nodes.len());
    assert forall|i: int| 0 <= i < nodes.len() implies s.queried.contains(
        (#[trigger] nodes[i]).addr,
    ) || after.pending.contains(nodes[i].addr) by {
        if !s.queried.contains(nodes[i].addr) {
            let t = after.pending.skip(s.pending.len() as int);
            let k = choose|k: int| 0 <= k < t.len() && t[k] == nodes[i].addr;
            assert(after.pending[s.pending.len() + k] == nodes[i].addr);
        }
    }
}

proof fn lemma_peers_found(known: Seq<Peer>, found: Seq<Peer>, n: nat)
    requires
        n <= found.len(),
    ensures
        forall|x: Peer|
            #[trigger] peers_with(known, found, n).contains(x) <==> known.contains(x) || exists|
                i: int,
            | 0 <= i < n && #[trigger] found[i] == x,
        known.no_duplicates() ==> peers_with(known, found, n).no_duplicates(),
    decreases n,
{
    if n > 0 {
        lemma_peers_found(known, found, (n - 1) as nat);
        let k = peers_with(known, found, (n - 1) as nat);
        let r = peers_with(known, found, n);
        let y = found[n - 1];
        assert(!k.contains(y) ==> r[k.len() as int] == y);
        assert forall|x: Peer| #[trigger] r.contains(x) <==> known.contains(x) || exists|i: int|
            0 <= i < n && #[trigger] found[i] == x by {
            if k.contains(x) {
                let j = choose|j: int| 0 <= j < k.len() && k[j] == x;
                assert(r[j] == x);
            }
            if r.contains(x) && x != y {
                let j = choose|j: int| 0 <= j < r.len() && r[j] == x;
                assert(k[j] == x);
            }
        }
    }
}

/// After an answer that counts, the peers that are known are those that were known and those that
/// the reply names, and none comes twice.
pub proof fn law_named_peers_are_known(s: Search, asked: Place, data: Seq<u8>, x: Peer)
    requires
        reply_in(data).tid == Some(tid_bytes(s.tid)),
    ensures
        search_after(s, asked, asked, data).peers.contains(x) <==> s.peers.contains(x)
            || reply_in(data).peers.contains(x),
        s.peers.no_duplicates() ==> search_after(s, asked, asked, data).peers.no_duplicates(),
        search_after(s, asked, asked, data).tid == s.tid,
{
    let found = reply_in(data).peers;
    lemma_peers_found(s.peers, found, found.len());
    if found.contains(x) {
        let i = choose|i: int| 0 <= i < found.len() && found[i] == x;
        assert(found[i] == x);
    }
}

proof fn lemma_asked_first(s: Search, k: int)
    requires
        0 <= k < s.pending.len(),
        !s.queried.contains(s.pending[k]),
        forall|i: int| 0 <= i < k ==> s.queried.contains(#[trigger] s.pending[i]),
    ensures
        without_asked(s).pending == s.pending.skip(k),
        without_asked(s).tid == s.tid,
        without_asked(s).queried == s.queried,
        without_asked(s).peers == s.peers,
    decreases s.pending.len(),
{
    if k == 0 {
        assert(s.pending.skip(0) =~= s.pending);
    } else {
        assert(s.queried.contains(s.pending[0]));
        let t = Search { pending: s.pending.skip(1), ..s };
        assert forall|i: int| 0 <= i < k - 1 implies t.queried.contains(#[trigger] t.pending[i]) by {
            assert(s.queried.contains(s.pending[i + 1]));
        }
        lemma_asked_first(t, k - 1);
        assert(t.pending.skip(k - 1) =~= s.pending.skip(k));
    }
}

proof fn lemma_nothing_to_ask(s: Search)
    requires
        forall|i: int| 0 <= i < s.pending.len() ==> s.queried.contains(#[trigger] s.pending[i]),
    ensures
        without_asked(s).pending.len() == 0,
    decreases s.pending.len(),
{
    if s.pending.len() > 0 {
        assert(s.queried.contains(s.pending[0]));
        let t = Search { pending: s.pending.skip(1), ..s };
        assert forall|i: int| 0 <= i < t.pending.len() implies t.queried.contains(
            #[trigger] t.pending[i],
        ) by {
            assert(s.queried.contains(s.pending[i + 1]));
        }
        lemma_nothing_to_ask(t);
    }
}

/// While fewer than fifty peers are known, the next node to be asked is the first that waits and
/// was not asked. It counts as asked from then on, the nodes behind it go on waiting, and each
/// query has the number after that of the last.
pub proof fn law_first_waiting_node_is_asked(s: Search, k: int)
    requires
        s.peers.len() < 50,
        0 <= k < s.pending.len(),
        !s.queried.contains(s.pending[k]),
        forall|i: int| 0 <= i < k ==> s.queried.contains(#[trigger] s.pending[i]),
    ensures
        !search_over(s),
        without_asked(s).pending[0] == s.pending[k],
        search_asking(s).queried == s.queried.push(s.pending[k]),
        search_asking(s).pending == s.pending.skip(k + 1),
        search_asking(s).peers == s.peers,
        search_asking(s).tid == (s.tid + 1) % 0x1_0000,
{
    lemma_asked_first(s, k);
    assert(s.pending.skip(k).skip(1) =~= s.pending.skip(k + 1));
}

/// A lookup is over when fifty peers are known, or when all that waits was asked.
pub proof fn law_lookup_ends(s: Search)
    ensures
        s.peers.len() >= 50 ==> search_over(s),
        (forall|i: int| 0 <= i < s.pending.len() ==> s.queried.contains(#[trigger] s.pending[i]))
            ==> search_over(s),
{
    if forall|i: int| 0 <= i < s.pending.len() ==> s.queried.contains(#[trigger] s.pending[i]) {
        lemma_nothing_to_ask(s);
    }
}

/// A node's twenty-six bytes after those of other nodes are read as that node; without a port it is
/// passed over.
pub proof fn law_compact_node_is_read(s: Seq<u8>, id: Seq<u8>, ip: Seq<u8>, port: u16, n: nat)
    requires
        s.len() == 26 * n,
        id.len() == 20,
        ip.len() == 4,
    ensures
        ({
            let t = s + id + ip + seq![(port / 256) as u8, (port % 256) as u8];
            nodes_upto(t, n + 1) == if port == 0 {
                nodes_upto(s, n)
            } else {
                nodes_upto(s, n).push(Node { id, addr: Place::V4(ip, port) })
            }
        }),
{
    let t = s + id + ip + seq![(port / 256) as u8, (port % 256) as u8];
    assert(t.take(s.len() as int) =~= s);
    lemma_nodes_prefix(s, t, n);
    let b = t.subrange(26 * n as int, 26 * n as int + 26);
    assert(b.subrange(0, 20) =~= id);
    assert(b.subrange(20, 24) =~= ip);
    let w = b.subrange(24, 26);
    assert(w =~= seq![(port / 256) as u8, (port % 256) as u8]);
    assert(w.drop_last().drop_last() =~= Seq::<u8>::empty());
    reveal_with_fuel(be_value, 3);
    assert(be_value(w) == port);
}

proof fn lemma_nodes_prefix(s: Seq<u8>, t: Seq<u8>, n: nat)
    requires
        26 * n <= s.len() <= t.len(),
        s == t.take(s.len() as int),
    ensures
        nodes_upto(s, n) == nodes_upto(t, n),
    decreases n,
{
    if n > 0 {
        lemma_nodes_prefix(s, t, (n - 1) as nat);
        assert(s.subrange(26 * (n - 1), 26 * (n - 1) + 26) =~= t.subrange(
            26 * (n - 1),
            26 * (n - 1) + 26,
        ));
    }
}

// ---- what replies say ----

/// A reply names its query under `t`, and in the dictionary under `r` nodes in groups of 26 bytes and
/// a list of peers in groups of six. What is not there says nothing.
pub proof fn law_what_a_reply_says(t: Tree, r: Tree, b: Seq<u8>, s: Seq<Tree>)
    ensures
        entry(t, "t"@) == Some(Tree::Bytes(b)) ==> reply_of(t).tid == Some(b),
        entry(t, "t"@) is None ==> reply_of(t).tid is None,
        entry(t, "r"@) == Some(r) && r is Dict && entry(r, "nodes"@) == Some(Tree::Bytes(b)) ==> reply_of(
            t,
        ).nodes == nodes_upto(b, b.len() / 26),
        entry(t, "r"@) == Some(r) && r is Dict && entry(r, "values"@) == Some(Tree::List(s)) ==> reply_of(
            t,
        ).peers == listed_peers(s, s.len()),
        entry(t, "r"@) is None ==> reply_of(t).nodes.len() == 0 && reply_of(t).peers.len() == 0,
        entry(t, "r"@) == Some(r) && entry(r, "nodes"@) is None ==> reply_of(t).nodes.len() == 0,
        entry(t, "r"@) == Some(r) && entry(r, "values"@) is None ==> reply_of(t).peers.len() == 0,
{
}

proof fn lemma_listed_prefix(s: Seq<Tree>, t: Tree, n: nat)
    requires
        n <= s.len(),
    ensures
        listed_peers(s.push(t), n) == listed_peers(s, n),
    decreases n,
{
    if n > 0 {
        lemma_listed_prefix(s, t, (n - 1) as nat);
    }
}

/// Each byte string of the list adds its peers behind the others; other items add none.
pub proof fn law_peers_in_replies(s: Seq<Tree>, t: Tree)
    ensures
        listed_peers(Seq::empty(), 0).len() == 0,
        t matches Tree::Bytes(b) ==> listed_peers(s.push(t), s.len() + 1) == listed_peers(s, s.len())
            + compact_peers(b),
        t !is Bytes ==> listed_peers(s.push(t), s.len() + 1) == listed_peers(s, s.len()),
{
    lemma_listed_prefix(s, t, s.len());
}

/// A token is taken from a reply only where the reply answers the query that asked for it, and is the
/// byte string under `token` in its body.
pub proof fn law_tokens_answer_their_query(data: Seq<u8>, tid: Seq<u8>, t: Tree, end: int)
    requires
        value_at(data, 0, 0) == Some((t, end)),
        t is Dict,
    ensures
        token_in(data, tid) matches Some(token) ==> entry(t, "t"@) == Some(Tree::Bytes(tid)) && (entry(
            t,
            "r"@,
        ) matches Some(r) && r is Dict && entry(r, "token"@) == Some(Tree::Bytes(token))),
        entry(t, "t"@) != Some(Tree::Bytes(tid)) ==> token_in(data, tid) is None,
        entry(t, "t"@) == Some(Tree::Bytes(tid)) ==> (entry(t, "r"@) matches Some(r) ==> r is Dict ==> (
        entry(r, "token"@) matches Some(Tree::Bytes(token)) ==> token_in(data, tid) == Some(token))),
{
}

/// A node is told of the client only where it was the one that was asked and its reply answers the
/// query for its token. It is handed the token that it gave.
pub proof fn law_announcements_return_the_token(
    id: Seq<u8>,
    hash: Seq<u8>,
    port: u16,
    asked: Place,
    from: Place,
    data: Seq<u8>,
)
    ensures
        asked != from ==> announcement(id, hash, port, asked, from, data) is None,
        token_in(data, seq![0x61u8, 0x61u8]) is None ==> announcement(id, hash, port, asked, from, data)
            is None,
        asked == from ==> (token_in(data, seq![0x61u8, 0x61u8]) matches Some(token) ==> announcement(
            id,
            hash,
            port,
            asked,
            from,
            data,
        ) == Some(announce_peer_bytes(id, hash, port, token, seq![0x62u8, 0x62u8]))),
{
}

/// The number of a query is two bytes, the high one first.
pub proof fn law_numbers_of_queries(tid: u16)
    ensures
        tid_bytes(tid).len() == 2,
        256 * tid_bytes(tid)[0] + tid_bytes(tid)[1] == tid,
{
}

proof fn lemma_nodes_in_front(s: Seq<u8>, more: Seq<u8>, n: nat)
    requires
        26 * n <= s.len(),
    ensures
        nodes_upto(s + more, n) == nodes_upto(s, n),
    decreases n,
{
    if n > 0 {
        lemma_nodes_in_front(s, more, (n - 1) as nat);
        assert((s + more).subrange(26 * (n - 1), 26 * (n - 1) + 26) =~= s.subrange(
            26 * (n - 1),
            26 * (n - 1) + 26,
        ));
    }
}

/// Nodes stand in groups of 26 bytes: the name, the four bytes of the address and the two of the
/// port, the greater first. One without a port is left out, and so is what fills no group.
pub proof fn law_nodes_in_groups(s: Seq<u8>, id: Seq<u8>, ip: Seq<u8>, port: u16, tail: Seq<u8>)
    requires
        s.len() % 26 == 0,
        id.len() == 20,
        ip.len() == 4,
        tail.len() < 26,
    ensures
        ({
            let before = nodes_upto(s, s.len() / 26);
            let more = s + (id + ip + be_digits(port as nat, 2));
            &&& port > 0 ==> nodes_upto(more, more.len() / 26) == before.push(
                Node { id, addr: Place::V4(ip, port) },
            )
            &&& port == 0 ==> nodes_upto(more, more.len() / 26) == before
            &&& nodes_upto(s + tail, (s + tail).len() / 26) == before
        }),
        nodes_upto(Seq::empty(), 0).len() == 0,
{
    let digits = be_digits(port as nat, 2);
    reveal_with_fuel(pow256, 3);
    lemma_be_roundtrip(port as nat, 2);
    let group = id + ip + digits;
    let more = s + group;
    let n = s.len() / 26;
    lemma_nodes_in_front(s, group, n);
    lemma_nodes_in_front(s, tail, n);
    assert(more.len() / 26 == n + 1);
    assert((s + tail).len() / 26 == n);
    let at = 26 * n as int;
    let b = more.subrange(at, at + 26);
    assert(b =~= group);
    assert(b.subrange(0, 20) =~= id);
    assert(b.subrange(20, 24) =~= ip);
    assert(b.subrange(24, 26) =~= digits);
}

} // verus!
