//! Fetching the description of the files from peers.
use crate::bytes::append_slice;
use crate::bytes::copy_range;
use crate::bytes::find_byte;
use crate::bytes::find_from;
use crate::text::decimal;
use crate::text::decode_lossy;
use crate::text::digits_value;
use crate::text::is_digit;
use crate::text::lossy_text;
use crate::text::push_decimal;
use crate::torrent::bencode::bencode_tree;
use crate::torrent::bencode::bytes_code;
use crate::torrent::bencode::int_code;
use crate::torrent::bencode::lemma_bytes_code_shallow;
use crate::torrent::bencode::parse_bencode;
use crate::torrent::bencode::push_bytes_code;
use crate::torrent::bencode::push_int_code;
use crate::torrent::bencode::shallow;
use crate::torrent::bencode::tree_of;
use crate::torrent::bencode::Bencode;
use crate::torrent::bencode::Tree;
use crate::torrent::bencode_guard::bencode_scan;
use crate::torrent::bencode_guard::digits_end;
use crate::torrent::bencode_guard::string_bounds;
use crate::torrent::bencode_guard::Scan;
use crate::torrent::bencode_guard::MAX_BENCODE_DEPTH;
use crate::torrent::error::bad_peer;
use crate::torrent::error::TorrentError;
use crate::torrent::error::TorrentFault;
use crate::torrent::metainfo::entry;
use std::collections::HashMap;
use vstd::prelude::*;
use vstd::std_specs::iter::IteratorSpec;
use vstd::string::*;
use vstd::utf8::encode_utf8;

verus! {

/// A dictionary with one entry.
pub open spec fn dict_of_one(key: Seq<char>, value: Seq<u8>) -> Seq<u8> {
    seq![0x64u8] + bytes_code(encode_utf8(key)) + value + seq![0x65u8]
}

/// A dictionary with two entries, the smaller key first.
pub open spec fn dict_of_two(
    key1: Seq<char>,
    value1: Seq<u8>,
    key2: Seq<char>,
    value2: Seq<u8>,
) -> Seq<u8> {
    seq![0x64u8] + bytes_code(encode_utf8(key1)) + value1 + bytes_code(encode_utf8(key2)) + value2
        + seq![0x65u8]
}

/// The greeting of an extension: its number, and the size of the description.
pub open spec fn extension_handshake(id: u8, size: u64) -> Seq<u8> {
    dict_of_two(
        "m"@,
        dict_of_one("ut_metadata"@, int_code(id as int)),
        "metadata_size"@,
        int_code(size as i64 as int),
    )
}

fn push_key(buf: &mut Vec<u8>, key: &str)
    ensures
        final(buf)@ == old(buf)@ + bytes_code(encode_utf8(key@)),
{
    push_bytes_code(buf, key.as_bytes());
}

fn one_entry(key: &str, value: i64) -> (buf: Vec<u8>)
    ensures
        buf@ == dict_of_one(key@, int_code(value as int)),
{
    let mut buf: Vec<u8> = Vec::new();
    buf.push(0x64);
    push_key(&mut buf, key);
    push_int_code(&mut buf, value);
    buf.push(0x65);
    assert(buf@ =~= dict_of_one(key@, int_code(value as int)));
    buf
}

/// Writes the greeting of an extension.
pub fn build_extension_handshake(ut_metadata_id: u8, metadata_size: u64) -> (buf: Vec<u8>)
    ensures
        buf@ == extension_handshake(ut_metadata_id, metadata_size),
{
    let m: Vec<u8> = one_entry("ut_metadata", ut_metadata_id as i64);
    let mut buf: Vec<u8> = Vec::new();
    buf.push(0x64);
    push_key(&mut buf, "m");
    append_slice(&mut buf, m.as_slice());
    push_key(&mut buf, "metadata_size");
    push_int_code(&mut buf, metadata_size as i64);
    buf.push(0x65);
    assert(buf@ =~= extension_handshake(ut_metadata_id, metadata_size));
    buf
}

/// Writes the greeting that offers payments.
pub fn build_ut_vtr_handshake(ut_vtr_id: u8) -> (buf: Vec<u8>)
    ensures
        buf@ == dict_of_one("m"@, dict_of_one("ut_vtr"@, int_code(ut_vtr_id as int))),
{
    let m: Vec<u8> = one_entry("ut_vtr", ut_vtr_id as i64);
    let mut buf: Vec<u8> = Vec::new();
    buf.push(0x64);
    push_key(&mut buf, "m");
    append_slice(&mut buf, m.as_slice());
    buf.push(0x65);
    assert(buf@ =~= dict_of_one("m"@, dict_of_one("ut_vtr"@, int_code(ut_vtr_id as int))));
    buf
}

/// Writes the message that tells a payment address.
pub fn build_ut_vtr_address(ut_vtr_id: u8, address: &str) -> (buf: Vec<u8>)
    ensures
        buf@ == seq![ut_vtr_id] + bytes_code(encode_utf8(address@)),
{
    let mut buf: Vec<u8> = Vec::new();
    buf.push(ut_vtr_id);
    push_bytes_code(&mut buf, address.as_bytes());
    assert(buf@ =~= seq![ut_vtr_id] + bytes_code(encode_utf8(address@)));
    buf
}

/// The message that asks for a piece of the description.
pub open spec fn request_for(id: u8, piece: u32) -> Seq<u8> {
    seq![id] + dict_of_two("msg_type"@, int_code(0), "piece"@, int_code(piece as int))
}

/// Writes the message that asks for a piece of the description.
pub fn build_request(ut_metadata_id: u8, piece: u32) -> (buf: Vec<u8>)
    ensures
        buf@ == request_for(ut_metadata_id, piece),
{
    let mut buf: Vec<u8> = Vec::new();
    buf.push(ut_metadata_id);
    buf.push(0x64);
    push_key(&mut buf, "msg_type");
    push_int_code(&mut buf, 0);
    push_key(&mut buf, "piece");
    push_int_code(&mut buf, piece as i64);
    buf.push(0x65);
    assert(buf@ =~= seq![ut_metadata_id] + dict_of_two(
        "msg_type"@,
        int_code(0),
        "piece"@,
        int_code(piece as int),
    ));
    buf
}

/// What parsing a message of a peer gives.
pub open spec fn peer_tree(data: Seq<u8>) -> Result<Tree, TorrentFault> {
    if !shallow(data) {
        Err(TorrentFault::PeerWireError("bencode nesting too deep"@))
    } else {
        match bencode_tree(data) {
            Ok(t) => Ok(t),
            Err(m) => Err(TorrentFault::PeerWireError(m)),
        }
    }
}

pub(crate) fn parse_peer_bencode(data: &[u8]) -> (r: Result<Bencode, TorrentError>)
    ensures
        match peer_tree(data@) {
            Ok(t) => r matches Ok(b) && tree_of(b) == t,
            Err(f) => r matches Err(e) && e@ == f,
        },
        forall|b: Seq<u8>| data@ == #[trigger] bytes_code(b) ==> peer_tree(data@) == Ok::<
            Tree,
            TorrentFault,
        >(Tree::Bytes(b)),
{
    if bencode_scan(data, MAX_BENCODE_DEPTH) == Scan::TooDeep {
        proof {
            assert forall|b: Seq<u8>| data@ == #[trigger] bytes_code(b) implies false by {
                lemma_bytes_code_shallow(b);
            }
        }
        return Err(bad_peer("bencode nesting too deep"));
    }
    match parse_bencode(data) {
        Ok(b) => Ok(b),
        Err(m) => Err(TorrentError::PeerWireError(m)),
    }
}

/// The payment address that a message tells, when it is parsed as this tree.
pub open spec fn address_of(t: Tree) -> Result<Seq<char>, TorrentFault> {
    match t {
        Tree::Bytes(b) => Ok(lossy_text(b)),
        _ => Err(TorrentFault::PeerWireError("ut_vtr not a string"@)),
    }
}

/// Reads the payment address from the tree that a message was parsed as.
pub fn read_ut_vtr_address(tree: &Bencode) -> (r: Result<String, TorrentError>)
    ensures
        match address_of(tree_of(*tree)) {
            Ok(a) => r matches Ok(s) && s@ == a,
            Err(f) => r matches Err(e) && e@ == f,
        },
        forall|a: Seq<char>|
            tree_of(*tree) == Tree::Bytes(#[trigger] encode_utf8(a)) ==> (r matches Ok(s) && s@
                == a),
{
    match tree {
        Bencode::Bytes(b) => {
            let s: String = decode_lossy(b.as_slice());
            proof {
                assert forall|a: Seq<char>| b@ == #[trigger] encode_utf8(a) implies s@ == a by {
                    vstd::utf8::encode_utf8_valid_utf8(a);
                    crate::text::lemma_encoding_injective(a, s@);
                }
            }
            Ok(s)
        },
        _ => Err(bad_peer("ut_vtr not a string")),
    }
}

/// Reads the payment address that a message tells. An address that was written by
/// `build_ut_vtr_address` is read back.
pub fn parse_ut_vtr_address(payload: &[u8]) -> (r: Result<String, TorrentError>)
    ensures
        match peer_tree(payload@) {
            Ok(t) => match address_of(t) {
                Ok(a) => r matches Ok(s) && s@ == a,
                Err(f) => r matches Err(e) && e@ == f,
            },
            Err(f) => r matches Err(e) && e@ == f,
        },
        forall|a: Seq<char>|
            payload@ == bytes_code(#[trigger] encode_utf8(a)) ==> (r matches Ok(s) && s@ == a),
{
    let tree: Bencode = parse_peer_bencode(payload)?;
    read_ut_vtr_address(&tree)
}

// ---- pieces of the description ----

/// Where the dictionary that bytes start with ends, from `i` on and inside `depth` levels.
pub open spec fn dict_end(data: Seq<u8>, i: int, depth: int) -> Option<int>
    decreases data.len() - i,
{
    if i < 0 || i >= data.len() {
        None
    } else if data[i] == 0x64 || data[i] == 0x6c {
        dict_end(data, i + 1, depth + 1)
    } else if data[i] == 0x65 {
        if depth == 1 {
            Some(i + 1)
        } else {
            dict_end(data, i + 1, depth - 1)
        }
    } else if data[i] == 0x69 {
        match find_from(data, i + 1, 0x65) {
            Some(p) => if i < p < data.len() {
                dict_end(data, p + 1, depth)
            } else {
                None
            },
            None => None,
        }
    } else if is_digit(data[i]) {
        let j = digits_end(data, i);
        let next = j + 1 + digits_value(data.subrange(i, j));
        if j >= data.len() || data[j] != 0x3a || next > data.len() || j < i {
            None
        } else {
            dict_end(data, next, depth)
        }
    } else {
        None
    }
}

/// Finds the end of the dictionary that bytes start with.
pub fn find_dict_end(bytes: &[u8]) -> (r: Option<usize>)
    ensures
        match r {
            Some(e) => dict_end(bytes@, 0, 0) == Some(e as int) && e <= bytes@.len(),
            None => dict_end(bytes@, 0, 0) is None,
        },
{
    let mut i: usize = 0;
    let mut depth: i128 = 0;
    while i < bytes.len()
        invariant
            i <= bytes.len(),
            -(i as int) <= depth <= i,
            dict_end(bytes@, 0, 0) == dict_end(bytes@, i as int, depth as int),
        decreases bytes.len() - i,
    {
        let c: u8 = bytes[i];
        if c == 0x64 || c == 0x6c {
            depth = depth + 1;
            i = i + 1;
        } else if c == 0x65 {
            if depth == 1 {
                return Some(i + 1);
            }
            depth = depth - 1;
            i = i + 1;
        } else if c == 0x69 {
            match find_byte(bytes, i + 1, 0x65) {
                None => {
                    return None;
                },
                Some(p) => {
                    assert(p < bytes.len());
                    i = p + 1;
                },
            }
        } else if c >= 0x30 && c <= 0x39 {
            match string_bounds(bytes, i) {
                None => {
                    return None;
                },
                Some((_, next)) => {
                    i = next;
                },
            }
        } else {
            return None;
        }
    }
    None
}

/// The numbers of a piece of the description, from the tree before its bytes.
pub open spec fn piece_of(t: Tree) -> Result<(u32, u64), TorrentFault> {
    if t !is Dict {
        Err(TorrentFault::PeerWireError("ut_metadata not a dict"@))
    } else {
        match entry(t, "piece"@) {
            Some(Tree::Int(i)) => match entry(t, "total_size"@) {
                Some(Tree::Int(n)) => Ok((i as u32, n as u64)),
                _ => Err(TorrentFault::PeerWireError("missing total_size"@)),
            },
            _ => Err(TorrentFault::PeerWireError("missing piece"@)),
        }
    }
}

/// Reads the numbers of a piece from the tree before its bytes.
pub fn read_piece_header(tree: &Bencode) -> (r: Result<(u32, u64), TorrentError>)
    ensures
        match piece_of(tree_of(*tree)) {
            Ok(p) => r == Ok::<(u32, u64), TorrentError>(p),
            Err(f) => r matches Err(e) && e@ == f,
        },
{
    if !tree.is_dict() {
        return Err(bad_peer("ut_metadata not a dict"));
    }
    let piece: u32 = match tree.get("piece".as_bytes()) {
        Some(Bencode::Int(i)) => *i as u32,
        _ => {
            return Err(bad_peer("missing piece"));
        },
    };
    let total: u64 = match tree.get("total_size".as_bytes()) {
        Some(Bencode::Int(n)) => *n as u64,
        _ => {
            return Err(bad_peer("missing total_size"));
        },
    };
    Ok((piece, total))
}

/// What a message with a piece of the description says: after the number of the extension a
/// dictionary, and after it the bytes of the piece.
pub open spec fn data_in(payload: Seq<u8>) -> Result<(u32, u64, Seq<u8>), TorrentFault> {
    match dict_end(payload.skip(1), 0, 0) {
        None => Err(TorrentFault::PeerWireError("malformed ut_metadata"@)),
        Some(e) => match peer_tree(payload.subrange(1, e + 1)) {
            Err(f) => Err(f),
            Ok(t) => match piece_of(t) {
                Err(f) => Err(f),
                Ok((piece, total)) => Ok((piece, total, payload.skip(e + 1))),
            },
        },
    }
}

/// Reads a message with a piece of the description: the piece's number, the size of the whole,
/// and the piece's bytes.
pub fn parse_data(payload: &[u8]) -> (r: Result<(u32, u64, Vec<u8>), TorrentError>)
    requires
        payload@.len() > 0,
    ensures
        match data_in(payload@) {
            Ok((piece, total, data)) => r matches Ok(v) && v.0 == piece && v.1 == total && v.2@
                == data,
            Err(f) => r matches Err(e) && e@ == f,
        },
{
    let rest: &[u8] = vstd::slice::slice_subrange(payload, 1, payload.len());
    assert(rest@ =~= payload@.skip(1));
    let end: usize = match find_dict_end(rest) {
        None => {
            return Err(bad_peer("malformed ut_metadata"));
        },
        Some(e) => e + 1,
    };
    let tree: Bencode = parse_peer_bencode(vstd::slice::slice_subrange(payload, 1, end))?;
    let header: (u32, u64) = read_piece_header(&tree)?;
    let data: Vec<u8> = copy_range(payload, end, payload.len());
    assert(data@ =~= payload@.skip(end as int));
    Ok((header.0, header.1, data))
}

/// Whether numbers increase strictly.
pub open spec fn ascending(s: Seq<u32>) -> bool {
    forall|i: int, j: int| 0 <= i < j < s.len() ==> s[i] < s[j]
}

/// Pieces as they read.
pub open spec fn byte_views(m: Map<u32, Vec<u8>>) -> Map<u32, Seq<u8>> {
    Map::new(|k: u32| m.dom().contains(k), |k: u32| m[k]@)
}

/// The pieces with these numbers, one after the other.
pub open spec fn joined(m: Map<u32, Seq<u8>>, keys: Seq<u32>) -> Seq<u8>
    decreases keys.len(),
{
    if keys.len() == 0 {
        Seq::empty()
    } else {
        joined(m, keys.drop_last()) + m[keys.last()]
    }
}

/// Whether `keys` are the numbers of the pieces in increasing order.
pub open spec fn in_piece_order(m: Map<u32, Seq<u8>>, keys: Seq<u32>) -> bool {
    ascending(keys) && forall|k: u32| #[trigger] keys.contains(k) <==> m.dom().contains(k)
}

fn insert_key(keys: &mut Vec<u32>, k: u32)
    requires
        ascending(old(keys)@),
    ensures
        ascending(final(keys)@),
        forall|x: u32| #[trigger] final(keys)@.contains(x) <==> (old(keys)@.contains(x) || x == k),
{
    let ghost before = keys@;
    let mut at: usize = 0;
    while at < keys.len() && keys[at] < k
        invariant
            keys@ == before,
            ascending(before),
            at <= before.len(),
            forall|i: int| 0 <= i < at ==> before[i] < k,
        decreases before.len() - at,
    {
        at = at + 1;
    }
    if at < keys.len() && keys[at] == k {
        assert(before[at as int] == k);
        return ;
    }
    keys.insert(at, k);
    proof {
        let after = keys@;
        assert(after =~= before.insert(at as int, k));
        assert(after[at as int] == k);
        assert forall|i: int, j: int| 0 <= i < j < after.len() implies after[i] < after[j] by {
            let bi = if i < at { i } else { i - 1 };
            let bj = if j < at { j } else { j - 1 };
            if i != at {
                assert(after[i] == before[bi]);
            }
            if j != at {
                assert(after[j] == before[bj]);
            }
            if i == at {
                assert(before[at as int] > k);
                assert(before[at as int] <= before[bj]);
            }
        }
        assert forall|x: u32| #[trigger] after.contains(x) <==> (before.contains(x) || x == k) by {
            if before.contains(x) {
                let i = choose|i: int| 0 <= i < before.len() && before[i] == x;
                if i < at {
                    assert(after[i] == x);
                } else {
                    assert(after[i + 1] == x);
                }
            }
            if after.contains(x) && x != k {
                let i = choose|i: int| 0 <= i < after.len() && after[i] == x;
                if i < at {
                    assert(before[i] == x);
                } else {
                    assert(before[i - 1] == x);
                }
            }
        }
    }
}

fn sorted_keys(pieces: &HashMap<u32, Vec<u8>>) -> (keys: Vec<u32>)
    ensures
        in_piece_order(byte_views(pieces@), keys@),
{
    broadcast use vstd::std_specs::hash::group_hash_axioms;

    let mut keys: Vec<u32> = Vec::new();
    let walk = pieces.keys();
    let ghost all = walk.remaining().unref();
    assert(all.to_set() == pieces@.dom());
    for k in it: walk
        invariant
            it.seq().unref() == all,
            ascending(keys@),
            forall|x: u32|
                #[trigger] keys@.contains(x) <==> exists|i: int|
                    0 <= i < it.index() && #[trigger] all[i] == x,
    {
        let ghost before = keys@;
        let ghost n = it.index();
        insert_key(&mut keys, *k);
        proof {
            assert forall|x: u32|
                #[trigger] keys@.contains(x) <==> exists|i: int|
                    0 <= i < n + 1 && #[trigger] all[i] == x by {
                assert(all[n] == *k);
                if before.contains(x) {
                    let i = choose|i: int| 0 <= i < n && #[trigger] all[i] == x;
                    assert(0 <= i < n + 1 && all[i] == x);
                }
            }
        }
    }
    proof {
        assert forall|x: u32| #[trigger] keys@.contains(x) <==> pieces@.dom().contains(x) by {
            assert(pieces@.dom().contains(x) <==> all.contains(x));
        }
    }
    keys
}

/// The pieces in the order of their numbers, one after the other.
pub open spec fn in_order(m: Map<u32, Seq<u8>>) -> Seq<u8> {
    joined(m, choose|keys: Seq<u32>| in_piece_order(m, keys))
}

/// The numbers of the pieces have one increasing order only.
pub proof fn lemma_one_order(a: Seq<u32>, b: Seq<u32>)
    requires
        ascending(a),
        ascending(b),
        forall|k: u32| #[trigger] a.contains(k) <==> b.contains(k),
    ensures
        a == b,
    decreases a.len(),
{
    if a.len() == 0 {
        if b.len() > 0 {
            assert(b.contains(b[0]));
            assert(a.contains(b[0]));
        }
        assert(a =~= b);
    } else {
        assert(a.contains(a.last()));
        assert(b.contains(a.last()));
        let i = choose|i: int| 0 <= i < b.len() && b[i] == a.last();
        assert(b.contains(b.last()));
        assert(a.contains(b.last()));
        let j = choose|j: int| 0 <= j < a.len() && a[j] == b.last();
        assert(a.last() == b.last()) by {
            if i < b.len() - 1 {
                assert(b[i] < b[b.len() - 1]);
                if j < a.len() - 1 {
                    assert(a[j] < a[a.len() - 1]);
                }
            }
        }
        let x = a.drop_last();
        let y = b.drop_last();
        assert forall|k: u32| #[trigger] x.contains(k) <==> y.contains(k) by {
            if x.contains(k) {
                let m = choose|m: int| 0 <= m < x.len() && x[m] == k;
                assert(a[m] == k && a[m] < a[a.len() - 1]);
                assert(a.contains(k));
                assert(b.contains(k));
                let n = choose|n: int| 0 <= n < b.len() && b[n] == k;
                assert(y[n] == k);
            }
            if y.contains(k) {
                let m = choose|m: int| 0 <= m < y.len() && y[m] == k;
                assert(b[m] == k && b[m] < b[b.len() - 1]);
                assert(b.contains(k));
                assert(a.contains(k));
                let n = choose|n: int| 0 <= n < a.len() && a[n] == k;
                assert(x[n] == k);
            }
        }
        lemma_one_order(x, y);
        assert(a =~= x.push(a.last()));
        assert(b =~= y.push(b.last()));
    }
}

/// The pieces in any increasing order of their numbers are the pieces in order.
pub proof fn lemma_in_order(m: Map<u32, Seq<u8>>, keys: Seq<u32>)
    requires
        in_piece_order(m, keys),
    ensures
        in_order(m) == joined(m, keys),
{
    let other = choose|other: Seq<u32>| in_piece_order(m, other);
    assert forall|k: u32| #[trigger] keys.contains(k) <==> other.contains(k) by {}
    lemma_one_order(keys, other);
}

/// Puts pieces together in the order of their numbers.
pub(crate) fn join_in_order(pieces: &HashMap<u32, Vec<u8>>) -> (out: Vec<u8>)
    ensures
        out@ == in_order(byte_views(pieces@)),
{
    broadcast use vstd::std_specs::hash::group_hash_axioms;

    let keys: Vec<u32> = sorted_keys(pieces);
    let mut out: Vec<u8> = Vec::new();
    let mut i: usize = 0;
    assert(keys@.take(0) =~= Seq::<u32>::empty());
    while i < keys.len()
        invariant
            i <= keys@.len(),
            in_piece_order(byte_views(pieces@), keys@),
            out@ == joined(byte_views(pieces@), keys@.take(i as int)),
        decreases keys@.len() - i,
    {
        assert(keys@.contains(keys@[i as int]));
        match pieces.get(&keys[i]) {
            Some(p) => {
                append_slice(&mut out, p.as_slice());
            },
            None => {},
        }
        i = i + 1;
        assert(keys@.take(i as int).drop_last() =~= keys@.take(i - 1));
    }
    assert(keys@.take(i as int) =~= keys@);
    proof {
        lemma_in_order(byte_views(pieces@), keys@);
    }
    out
}

/// Puts the pieces of the description together in the order of their numbers.
pub fn reassemble_metadata(pieces: &HashMap<u32, Vec<u8>>, total_size: u64) -> (r: Result<
    Vec<u8>,
    TorrentError,
>)
    ensures
        match description(byte_views(pieces@), total_size) {
            Ok(d) => r matches Ok(v) && v@ == d,
            Err(f) => r matches Err(e) && e@ == f,
        },
{
    let out: Vec<u8> = join_in_order(pieces);
    if out.len() as u64 != total_size {
        let mut m: String = "metadata size mismatch: expected ".to_owned();
        push_decimal(&mut m, total_size);
        m.append(" got ");
        push_decimal(&mut m, out.len() as u64);
        return Err(TorrentError::PeerWireError(m));
    }
    Ok(out)
}

/// The pieces in order where they have the size that was told.
pub open spec fn description(m: Map<u32, Seq<u8>>, total_size: u64) -> Result<
    Seq<u8>,
    TorrentFault,
> {
    let out = in_order(m);
    if out.len() == total_size {
        Ok(out)
    } else {
        Err(
            TorrentFault::PeerWireError(
                "metadata size mismatch: expected "@ + decimal(total_size as nat) + " got "@
                    + decimal(out.len()),
            ),
        )
    }
}

/// Where the part `k` of a cut description ends.
pub open spec fn cut_end(len: nat, part: nat, k: nat) -> nat {
    if k * part < len {
        k * part
    } else {
        len
    }
}

/// Whether `m` holds `data` cut into parts of `part` bytes, the last of which may be shorter.
pub open spec fn is_cut(data: Seq<u8>, m: Map<u32, Seq<u8>>, part: nat) -> bool {
    &&& part > 0
    &&& data.len() <= part * u32::MAX
    &&& forall|k: u32|
        #[trigger] m.dom().contains(k) <==> k as nat * part < data.len()
    &&& forall|k: u32|
        m.dom().contains(k) ==> (#[trigger] m[k]) == data.subrange(
            (k as nat * part) as int,
            cut_end(data.len(), part, (k + 1) as nat) as int,
        )
}

proof fn lemma_cut(data: Seq<u8>, m: Map<u32, Seq<u8>>, part: nat, keys: Seq<u32>, n: nat)
    requires
        is_cut(data, m, part),
        n <= keys.len(),
        forall|i: int| 0 <= i < keys.len() ==> #[trigger] keys[i] == i,
        forall|i: int| 0 <= i < keys.len() ==> m.dom().contains(#[trigger] keys[i]),
    ensures
        joined(m, keys.take(n as int)) == data.take(cut_end(data.len(), part, n) as int),
    decreases n,
{
    if n > 0 {
        let t = keys.take(n as int);
        lemma_cut(data, m, part, keys, (n - 1) as nat);
        assert(t.drop_last() =~= keys.take(n - 1));
        let k = keys[n - 1];
        assert(t.last() == k);
        assert(m.dom().contains(k));
        assert(k as nat * part < data.len());
        assert((k + 1) * part == k * part + part) by (nonlinear_arith);
        let a = (k as nat * part) as int;
        let b = cut_end(data.len(), part, n) as int;
        assert(m[k] == data.subrange(a, b));
        assert(data.take(a) + data.subrange(a, b) =~= data.take(b));
    } else {
        assert(keys.take(0) =~= Seq::<u32>::empty());
        assert(data.take(0) =~= Seq::<u8>::empty());
    }
}

/// A description that was cut into parts is put together again from them.
pub proof fn law_cut_description_reassembles(data: Seq<u8>, m: Map<u32, Seq<u8>>, part: nat)
    requires
        is_cut(data, m, part),
    ensures
        in_order(m) == data,
        data.len() <= u64::MAX ==> description(m, data.len() as u64) == Ok::<
            Seq<u8>,
            TorrentFault,
        >(data),
{
    let count = (data.len() + part - 1) as nat / part;
    let d = (data.len() + part - 1) as int;
    let p = part as int;
    let c = count as int;
    assert(c * p <= d && d < c * p + p) by (nonlinear_arith)
        requires
            c == d / p,
            p > 0,
            d >= 0,
    ;
    assert(count <= u32::MAX) by (nonlinear_arith)
        requires
            c * p <= d,
            d == data.len() + p - 1,
            data.len() <= p * u32::MAX,
            p > 0,
            c == count,
    ;
    let keys = Seq::new(count, |i: int| i as u32);
    assert forall|k: u32| #[trigger] keys.contains(k) <==> m.dom().contains(k) by {
        let x = k as int;
        if k < count {
            assert(keys[k as int] == k);
            assert(x * p < data.len()) by (nonlinear_arith)
                requires
                    x + 1 <= c,
                    c * p <= d,
                    d == data.len() + p - 1,
                    p > 0,
                    x >= 0,
            ;
        } else {
            assert(x * p >= data.len()) by (nonlinear_arith)
                requires
                    x >= c,
                    d < c * p + p,
                    d == data.len() + p - 1,
                    p > 0,
            ;
            if keys.contains(k) {
                let i = choose|i: int| 0 <= i < keys.len() && keys[i] == k;
            }
        }
        assert(k as nat * part == x * p);
    }
    assert forall|i: int| 0 <= i < keys.len() implies m.dom().contains(#[trigger] keys[i]) by {
        assert(keys.contains(keys[i]));
    }
    lemma_cut(data, m, part, keys, count);
    assert(keys.take(count as int) =~= keys);
    assert(cut_end(data.len(), part, count) == data.len()) by {
        assert(count * part == c * p);
    }
    assert(data.take(data.len() as int) =~= data);
    lemma_in_order(m, keys);
}

} // verus!
