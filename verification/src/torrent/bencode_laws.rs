//! What holds of the code in which torrents and messages are written: what is written is read back.
use crate::bytes::find_from;
use crate::text::all_digits;
use crate::text::decimal;
use crate::text::digits_value;
use crate::text::is_digit;
use crate::text::lemma_decimal_digits;
use crate::text::plain_number;
use crate::text::signed_number;
use crate::text::unsigned_number;
use crate::torrent::bencode::Bencode;
use crate::torrent::bencode::bytes_code;
use crate::torrent::bencode::int_code;
use crate::torrent::bencode::Tree;
use crate::torrent::bencode::key_position;
use crate::torrent::bencode::tree_get;
use crate::torrent::bencode::tree_of;
use crate::torrent::bencode_guard::digits_end;
use crate::torrent::bencode_guard::scan_from;
use crate::torrent::bencode_guard::Scan;
use crate::torrent::bencode_guard::MAX_BENCODE_DEPTH;
use crate::torrent::dht::announce_peer_bytes;
use crate::torrent::dht::dict_at;
use crate::torrent::dht::find_node_bytes;
use crate::torrent::dht::get_peers_bytes;
use crate::torrent::dht::int_at;
use crate::torrent::dht::list_at;
use crate::torrent::dht::string_at;
use crate::torrent::dht::value_at;
use crate::torrent::dht::with_entry;
use crate::torrent::dht::MAX_KRPC_DEPTH;
use crate::torrent::error::TorrentFault;
use crate::torrent::info_span::items_end;
use crate::torrent::info_span::span_from;
use crate::torrent::info_span::string_end;
use crate::torrent::info_span::value_end;
use crate::torrent::metadata::data_in;
use crate::torrent::metadata::dict_end;
use crate::torrent::metadata::dict_of_one;
use crate::torrent::metadata::dict_of_two;
use crate::torrent::metadata::extension_handshake;
use crate::torrent::metadata::peer_tree;
use crate::torrent::metadata::piece_of;
use crate::torrent::metadata::request_for;
use vstd::prelude::*;
use vstd::string::*;
use vstd::utf8::encode_utf8;
use vstd::utf8::is_ascii_chars;

verus! {

// ---- words and numbers ----

/// The characters of an ASCII text as bytes.
pub open spec fn word(t: Seq<char>) -> Seq<u8> {
    Seq::new(t.len(), |i: int| t[i] as u8)
}

proof fn lemma_word(t: Seq<char>)
    requires
        is_ascii_chars(t),
    ensures
        encode_utf8(t) == word(t),
{
    vstd::utf8::is_ascii_chars_encode_utf8(t);
    assert(encode_utf8(t) =~= word(t));
}

proof fn lemma_digits(n: nat)
    ensures
        ({
            let d = encode_utf8(decimal(n));
            &&& d == word(decimal(n))
            &&& d.len() > 0
            &&& all_digits(d)
            &&& digits_value(d) == n
            &&& is_digit(d[0])
            &&& plain_number(d) == Some(n)
            &&& unsigned_number(d) == Some(n)
        }),
{
    lemma_decimal_digits(n);
    lemma_word(decimal(n));
    let d = encode_utf8(decimal(n));
    assert(d =~= Seq::new(decimal(n).len(), |i: int| decimal(n)[i] as u8));
    assert(is_digit(d[0]));
}

proof fn lemma_run_of_digits(data: Seq<u8>, i: int, end: int)
    requires
        0 <= i <= end < data.len(),
        forall|k: int| i <= k < end ==> is_digit(#[trigger] data[k]),
        !is_digit(data[end]),
    ensures
        digits_end(data, i) == end,
    decreases end - i,
{
    if i < end {
        assert(is_digit(data[i]));
        lemma_run_of_digits(data, i + 1, end);
    }
}

proof fn lemma_first(data: Seq<u8>, i: int, end: int, b: u8)
    requires
        0 <= i <= end < data.len(),
        forall|k: int| i <= k < end ==> #[trigger] data[k] != b,
        data[end] == b,
    ensures
        find_from(data, i, b) == Some(end),
    decreases end - i,
{
    if i < end {
        assert(data[i] != b);
        lemma_first(data, i + 1, end, b);
    }
}

proof fn lemma_string_code(before: Seq<u8>, b: Seq<u8>, rest: Seq<u8>)
    ensures
        ({
            let data = before + bytes_code(b) + rest;
            let at = before.len() as int;
            let d = encode_utf8(decimal(b.len()));
            let colon = at + d.len();
            let end = at + bytes_code(b).len();
            &&& 0 <= at < colon < end <= data.len()
            &&& end == colon + 1 + b.len()
            &&& is_digit(data[at])
            &&& digits_end(data, at) == colon
            &&& data[colon] == 0x3a
            &&& data.subrange(at, colon) == d
            &&& digits_value(d) == b.len()
            &&& unsigned_number(d) == Some(b.len())
            &&& find_from(data, at, 0x3a) == Some(colon)
            &&& data.subrange(colon + 1, end) == b
        }),
{
    let data = before + bytes_code(b) + rest;
    let at = before.len() as int;
    let d = encode_utf8(decimal(b.len()));
    let colon = at + d.len();
    let end = at + bytes_code(b).len();
    lemma_digits(b.len());
    assert(bytes_code(b).len() == d.len() + 1 + b.len());
    assert forall|k: int| at <= k < colon implies is_digit(#[trigger] data[k]) && data[k] != 0x3a by {
        assert(data[k] == d[k - at]);
        assert(is_digit(d[k - at]));
    }
    assert(data[at] == d[0]);
    assert(data[colon] == 0x3a);
    lemma_run_of_digits(data, at, colon);
    lemma_first(data, at, colon, 0x3a);
    assert(data.subrange(at, colon) =~= d);
    assert(data.subrange(colon + 1, end) =~= b);
}

/// The digits of a number, with a minus sign where it is negative.
spec fn signed_digits(n: int) -> Seq<u8> {
    if n < 0 {
        seq![0x2du8] + encode_utf8(decimal((-n) as nat))
    } else {
        encode_utf8(decimal(n as nat))
    }
}

proof fn lemma_number_code(before: Seq<u8>, n: int, rest: Seq<u8>)
    ensures
        ({
            let data = before + int_code(n) + rest;
            let at = before.len() as int;
            let end = at + int_code(n).len();
            &&& 0 <= at < end - 1
            &&& end <= data.len()
            &&& data[at] == 0x69
            &&& find_from(data, at + 1, 0x65) == Some(end - 1)
            &&& find_from(data, at, 0x65) == Some(end - 1)
            &&& signed_number(data.subrange(at + 1, end - 1)) == Some(n)
        }),
{
    let data = before + int_code(n) + rest;
    let at = before.len() as int;
    let s = signed_digits(n);
    let end = at + int_code(n).len();
    assert(int_code(n) =~= seq![0x69u8] + s + seq![0x65u8]);
    let m = if n < 0 {
        (-n) as nat
    } else {
        n as nat
    };
    lemma_digits(m);
    let d = encode_utf8(decimal(m));
    assert forall|k: int| 0 <= k < s.len() implies #[trigger] s[k] != 0x65 by {
        if n < 0 {
            if k > 0 {
                assert(s[k] == d[k - 1]);
                assert(is_digit(d[k - 1]));
            }
        } else {
            assert(is_digit(d[k]));
        }
    }
    assert forall|k: int| at + 1 <= k < end - 1 implies #[trigger] data[k] != 0x65 by {
        assert(data[k] == s[k - at - 1]);
    }
    assert(data[at] == 0x69);
    assert(data[end - 1] == 0x65);
    lemma_first(data, at + 1, end - 1, 0x65);
    assert(data.subrange(at + 1, end - 1) =~= s);
    if n < 0 {
        assert(s.skip(1) =~= d);
    } else {
        assert(is_digit(d[0]));
    }
}

/// A byte string is its length in decimal, a colon and its bytes; a number is its digits between `i`
/// and `e`.
pub proof fn law_codes(b: Seq<u8>, n: nat)
    ensures
        bytes_code(b) == word(decimal(b.len()).push(':')) + b,
        int_code(n as int) == word(seq!['i'] + decimal(n).push('e')),
        n > 0 ==> int_code(-(n as int)) == word(seq!['i', '-'] + decimal(n).push('e')),
{
    lemma_digits(b.len());
    lemma_digits(n);
    assert(bytes_code(b) =~= word(decimal(b.len()).push(':')) + b);
    assert(int_code(n as int) =~= word(seq!['i'] + decimal(n).push('e')));
    if n > 0 {
        assert(int_code(-(n as int)) =~= word(seq!['i', '-'] + decimal(n).push('e')));
    }
}

// ---- what is written is read back ----

/// A byte string is read back wherever it stands, and every scan goes on directly behind it.
pub proof fn law_strings_are_read_back(before: Seq<u8>, b: Seq<u8>, rest: Seq<u8>, depth: nat, max: nat)
    requires
        before.len() + bytes_code(b).len() <= usize::MAX,
    ensures
        ({
            let data = before + bytes_code(b) + rest;
            let at = before.len() as int;
            let end = at + bytes_code(b).len();
            &&& string_at(data, at) == Some((b, end))
            &&& depth <= MAX_KRPC_DEPTH ==> value_at(data, at, depth) == Some((Tree::Bytes(b), end))
            &&& string_end(data, at) == Ok::<int, TorrentFault>(end)
            &&& value_end(data, at) == Ok::<int, TorrentFault>(end)
            &&& scan_from(data, at, depth, max) == scan_from(data, end, depth, max)
            &&& dict_end(data, at, depth as int) == dict_end(data, end, depth as int)
        }),
{
    lemma_string_code(before, b, rest);
    let data = before + bytes_code(b) + rest;
    let at = before.len() as int;
    assert(b.len() <= usize::MAX);
    assert(data[at] != 0x64 && data[at] != 0x6c && data[at] != 0x65 && data[at] != 0x69);
}

/// A number is read back wherever it stands, and every scan goes on directly behind it.
pub proof fn law_numbers_are_read_back(before: Seq<u8>, n: i64, rest: Seq<u8>, depth: nat, max: nat)
    ensures
        ({
            let data = before + int_code(n as int) + rest;
            let at = before.len() as int;
            let end = at + int_code(n as int).len();
            &&& int_at(data, at + 1) == Some((n, end))
            &&& depth <= MAX_KRPC_DEPTH ==> value_at(data, at, depth) == Some((Tree::Int(n), end))
            &&& value_end(data, at) == Ok::<int, TorrentFault>(end)
            &&& scan_from(data, at, depth, max) == scan_from(data, end, depth, max)
            &&& dict_end(data, at, depth as int) == dict_end(data, end, depth as int)
        }),
{
    lemma_number_code(before, n as int, rest);
}

/// Lists and dictionaries open a level with `l` or `d` and close it with `e`. A scan refuses one more
/// level than are allowed, a level that is closed twice and one that is not closed.
pub proof fn law_levels_are_counted(data: Seq<u8>, i: int, depth: nat, max: nat)
    requires
        0 <= i < data.len(),
    ensures
        (data[i] == 'l' as u8 || data[i] == 'd' as u8) && depth == max ==> scan_from(
            data,
            i,
            depth,
            max,
        ) == Scan::TooDeep,
        (data[i] == 'l' as u8 || data[i] == 'd' as u8) && depth < max ==> scan_from(
            data,
            i,
            depth,
            max,
        ) == scan_from(data, i + 1, depth + 1, max),
        data[i] == 'e' as u8 && depth == 0 ==> scan_from(data, i, depth, max) == Scan::Malformed,
        data[i] == 'e' as u8 && depth > 0 ==> scan_from(data, i, depth, max) == scan_from(
            data,
            i + 1,
            (depth - 1) as nat,
            max,
        ),
        scan_from(data, data.len() as int, depth, max) == (if depth == 0 {
            Scan::Balanced
        } else {
            Scan::Malformed
        }),
        data[i] == 'l' as u8 || data[i] == 'd' as u8 ==> dict_end(data, i, depth as int) == dict_end(
            data,
            i + 1,
            (depth + 1) as int,
        ),
        data[i] == 'e' as u8 && depth == 1 ==> dict_end(data, i, depth as int) == Some(i + 1),
        data[i] == 'e' as u8 && depth > 1 ==> dict_end(data, i, depth as int) == dict_end(
            data,
            i + 1,
            depth - 1,
        ),
        dict_end(data, data.len() as int, depth as int) is None,
{
}

/// What is parsed may have 32 levels, a reply in a lookup as many below its own.
pub proof fn law_levels_that_are_allowed()
    ensures
        MAX_BENCODE_DEPTH == 32,
        MAX_KRPC_DEPTH == 32,
{
}

/// A list is its items in their order, a dictionary the values under its keys, up to the `e` that
/// closes it. The first value under a key counts.
pub proof fn law_lists_and_dictionaries(
    data: Seq<u8>,
    pos: int,
    depth: nat,
    items: Seq<Tree>,
    entries: Map<Seq<u8>, Tree>,
    key: Seq<u8>,
    t: Tree,
    mid: int,
    end: int,
)
    requires
        0 <= pos < data.len(),
    ensures
        data[pos] == 'e' as u8 ==> list_at(data, pos, depth, items) == Some((items, pos + 1))
            && dict_at(data, pos, depth, entries) == Some((entries, pos + 1)),
        data[pos] != 'e' as u8 && pos < end <= data.len() && value_at(data, pos, depth + 1) == Some(
            (t, end),
        ) ==> list_at(data, pos, depth, items) == list_at(data, end, depth, items.push(t)),
        data[pos] != 'e' as u8 && pos < mid < end <= data.len() && value_at(data, pos, depth + 1)
            == Some((Tree::Bytes(key), mid)) && value_at(data, mid, depth + 1) == Some((t, end))
            ==> dict_at(data, pos, depth, entries) == dict_at(
            data,
            end,
            depth,
            with_entry(entries, key, t),
        ),
        depth <= 32 && data[pos] == 'l' as u8 && list_at(data, pos + 1, depth, Seq::empty()) == Some(
            (items, end),
        ) ==> value_at(data, pos, depth) == Some((Tree::List(items), end)),
        depth <= 32 && data[pos] == 'd' as u8 && dict_at(data, pos + 1, depth, Map::empty()) == Some(
            (entries, end),
        ) ==> value_at(data, pos, depth) == Some((Tree::Dict(entries), end)),
        depth > 32 ==> value_at(data, pos, depth) is None,
        with_entry(entries, key, t).get(key) == (match entries.get(key) {
            Some(old) => Some(old),
            None => Some(t),
        }),
{
}

/// A value ends where its code ends, also inside lists and dictionaries.
pub proof fn law_where_values_end(data: Seq<u8>, pos: int, key_end: int, end: int)
    requires
        0 <= pos < data.len(),
    ensures
        data[pos] == 'l' as u8 ==> value_end(data, pos) == items_end(data, pos + 1, false),
        data[pos] == 'd' as u8 ==> value_end(data, pos) == items_end(data, pos + 1, true),
        data[pos] == 'e' as u8 ==> items_end(data, pos, false) == Ok::<int, TorrentFault>(pos + 1)
            && items_end(data, pos, true) == Ok::<int, TorrentFault>(pos + 1),
        data[pos] != 'e' as u8 && pos < end <= data.len() && value_end(data, pos) == Ok::<
            int,
            TorrentFault,
        >(end) ==> items_end(data, pos, false) == items_end(data, end, false),
        data[pos] != 'e' as u8 && pos < key_end < end <= data.len() && string_end(data, pos) == Ok::<
            int,
            TorrentFault,
        >(key_end) && value_end(data, key_end) == Ok::<int, TorrentFault>(end) ==> items_end(
            data,
            pos,
            true,
        ) == items_end(data, end, true),
{
}

/// The description of a torrent is the value under `info` in the outermost dictionary, from its first
/// byte to its last. A second one is refused.
pub proof fn law_description_is_found(
    before: Seq<u8>,
    key: Seq<u8>,
    rest: Seq<u8>,
    end: int,
    found: Option<(int, int)>,
)
    requires
        before.len() + bytes_code(key).len() <= usize::MAX,
        ({
            let data = before + bytes_code(key) + rest;
            let start = before.len() + bytes_code(key).len();
            start < end <= data.len() && value_end(data, start as int) == Ok::<int, TorrentFault>(end)
        }),
    ensures
        ({
            let data = before + bytes_code(key) + rest;
            let at = before.len() as int;
            let start = at + bytes_code(key).len();
            &&& key == word("info"@) && found is None ==> span_from(data, at, found) == span_from(
                data,
                end,
                Some((start, end)),
            )
            &&& key == word("info"@) && found is Some ==> span_from(data, at, found) is Err
            &&& key != word("info"@) ==> span_from(data, at, found) == span_from(data, end, found)
        }),
{
    lemma_string_code(before, key, rest);
    law_strings_are_read_back(before, key, rest, 0, 0);
    reveal_strlit("info");
    assert(is_ascii_chars("info"@));
    lemma_word("info"@);
    let data = before + bytes_code(key) + rest;
    let at = before.len() as int;
    assert(data[at] != 0x65);
}

/// What was found counts once the dictionary is closed; without it the file is refused.
pub proof fn law_description_is_needed(data: Seq<u8>, pos: int, found: Option<(int, int)>)
    requires
        0 <= pos < data.len(),
        data[pos] == 'e' as u8,
    ensures
        found matches Some(s) ==> span_from(data, pos, found) == Ok::<(int, int), TorrentFault>(s),
        found is None ==> span_from(data, pos, found) is Err,
{
}

// ---- messages in this code ----

/// The code of a dictionary: keys and values between `d` and `e`.
pub open spec fn between(s: Seq<u8>) -> Seq<u8> {
    seq!['d' as u8] + s + seq!['e' as u8]
}

/// An entry of a dictionary.
pub open spec fn keyed(key: Seq<char>, value: Seq<u8>) -> Seq<u8> {
    bytes_code(word(key)) + value
}

proof fn lemma_short_word(t: Seq<char>)
    requires
        is_ascii_chars(t),
        t.len() < 100,
    ensures
        encode_utf8(t) == word(t),
        t.len() < 10 ==> bytes_code(word(t)) == word(seq![crate::text::digit_char(t.len()), ':'] + t),
        t.len() >= 10 ==> bytes_code(word(t)) == word(
            seq![crate::text::digit_char(t.len() / 10), crate::text::digit_char(t.len() % 10), ':'] + t,
        ),
{
    lemma_word(t);
    lemma_digits(t.len());
    reveal_with_fuel(decimal, 3);
    if t.len() < 10 {
        assert(bytes_code(word(t)) =~= word(seq![crate::text::digit_char(t.len()), ':'] + t));
    } else {
        assert(bytes_code(word(t)) =~= word(
            seq![crate::text::digit_char(t.len() / 10), crate::text::digit_char(t.len() % 10), ':'] + t,
        ));
    }
}

proof fn lemma_twenty(id: Seq<u8>)
    requires
        id.len() == 20,
    ensures
        bytes_code(id) == seq![0x32u8, 0x30, 0x3a] + id,
{
    lemma_digits(20);
    reveal_with_fuel(decimal, 3);
    assert(bytes_code(id) =~= seq![0x32u8, 0x30, 0x3a] + id);
}

proof fn lemma_two(id: Seq<u8>)
    requires
        id.len() == 2,
    ensures
        bytes_code(id) == seq![0x32u8, 0x3a] + id,
{
    lemma_digits(2);
    assert(bytes_code(id) =~= seq![0x32u8, 0x3a] + id);
}

proof fn lemma_query_start(id: Seq<u8>)
    requires
        id.len() == 20,
    ensures
        encode_utf8("d1:ad2:id20:"@) + id == seq!['d' as u8] + bytes_code(word("a"@)) + seq!['d' as u8]
            + keyed("id"@, bytes_code(id)),
{
    reveal_strlit("d1:ad2:id20:");
    reveal_strlit("a");
    reveal_strlit("id");
    lemma_word("d1:ad2:id20:"@);
    lemma_short_word("a"@);
    lemma_short_word("id"@);
    lemma_twenty(id);
    assert(encode_utf8("d1:ad2:id20:"@) + id =~= seq!['d' as u8] + bytes_code(word("a"@))
        + seq!['d' as u8] + keyed("id"@, bytes_code(id)));
}

proof fn lemma_query_end(tid: Seq<u8>)
    requires
        tid.len() == 2,
    ensures
        encode_utf8("1:y1:qe"@) == keyed("y"@, bytes_code(word("q"@))) + seq!['e' as u8],
        encode_utf8("e1:q9:get_peers1:t2:"@) + tid == seq!['e' as u8] + keyed(
            "q"@,
            bytes_code(word("get_peers"@)),
        ) + keyed("t"@, bytes_code(tid)),
        encode_utf8("e1:q9:find_node1:t2:"@) + tid == seq!['e' as u8] + keyed(
            "q"@,
            bytes_code(word("find_node"@)),
        ) + keyed("t"@, bytes_code(tid)),
        encode_utf8("e1:q13:announce_peer1:t2:"@) + tid == seq!['e' as u8] + keyed(
            "q"@,
            bytes_code(word("announce_peer"@)),
        ) + keyed("t"@, bytes_code(tid)),
{
    lemma_two(tid);
    reveal_strlit("y");
    reveal_strlit("q");
    reveal_strlit("t");
    lemma_short_word("y"@);
    lemma_short_word("q"@);
    lemma_short_word("t"@);
    assert(encode_utf8("1:y1:qe"@) =~= keyed("y"@, bytes_code(word("q"@))) + seq!['e' as u8]) by {
        reveal_strlit("1:y1:qe");
        lemma_word("1:y1:qe"@);
    }
    assert(encode_utf8("e1:q9:get_peers1:t2:"@) + tid =~= seq!['e' as u8] + keyed(
        "q"@,
        bytes_code(word("get_peers"@)),
    ) + keyed("t"@, bytes_code(tid))) by {
        reveal_strlit("e1:q9:get_peers1:t2:");
        reveal_strlit("get_peers");
        lemma_word("e1:q9:get_peers1:t2:"@);
        lemma_short_word("get_peers"@);
    }
    assert(encode_utf8("e1:q9:find_node1:t2:"@) + tid =~= seq!['e' as u8] + keyed(
        "q"@,
        bytes_code(word("find_node"@)),
    ) + keyed("t"@, bytes_code(tid))) by {
        reveal_strlit("e1:q9:find_node1:t2:");
        reveal_strlit("find_node");
        lemma_word("e1:q9:find_node1:t2:"@);
        lemma_short_word("find_node"@);
    }
    assert(encode_utf8("e1:q13:announce_peer1:t2:"@) + tid =~= seq!['e' as u8] + keyed(
        "q"@,
        bytes_code(word("announce_peer"@)),
    ) + keyed("t"@, bytes_code(tid))) by {
        reveal_strlit("e1:q13:announce_peer1:t2:");
        reveal_strlit("announce_peer");
        lemma_word("e1:q13:announce_peer1:t2:"@);
        lemma_short_word("announce_peer"@);
    }
}

proof fn lemma_query_names(h: Seq<u8>)
    requires
        h.len() == 20,
    ensures
        encode_utf8("9:info_hash20:"@) + h == keyed("info_hash"@, bytes_code(h)),
        encode_utf8("6:target20:"@) + h == keyed("target"@, bytes_code(h)),
        encode_utf8("12:implied_porti1e9:info_hash20:"@) + h == keyed("implied_port"@, int_code(1))
            + keyed("info_hash"@, bytes_code(h)),
{
    lemma_twenty(h);
    reveal_strlit("info_hash");
    lemma_short_word("info_hash"@);
    assert(encode_utf8("9:info_hash20:"@) + h =~= keyed("info_hash"@, bytes_code(h))) by {
        reveal_strlit("9:info_hash20:");
        lemma_word("9:info_hash20:"@);
    }
    assert(encode_utf8("6:target20:"@) + h =~= keyed("target"@, bytes_code(h))) by {
        reveal_strlit("6:target20:");
        reveal_strlit("target");
        lemma_word("6:target20:"@);
        lemma_short_word("target"@);
    }
    assert(encode_utf8("12:implied_porti1e9:info_hash20:"@) + h =~= keyed("implied_port"@, int_code(1))
        + keyed("info_hash"@, bytes_code(h))) by {
        reveal_strlit("12:implied_porti1e9:info_hash20:");
        reveal_strlit("implied_port");
        lemma_word("12:implied_porti1e9:info_hash20:"@);
        lemma_short_word("implied_port"@);
        lemma_digits(1);
        assert(decimal(1) =~= seq!['1']);
        assert(int_code(1) =~= seq![0x69u8, 0x31, 0x65]);
    }
}

/// A query is a dictionary with its arguments under `a`, its name under `q`, its number under `t` and
/// the letter `q` under `y`.
pub open spec fn query(name: Seq<char>, arguments: Seq<u8>, tid: Seq<u8>) -> Seq<u8> {
    between(
        keyed("a"@, between(arguments)) + keyed("q"@, bytes_code(word(name))) + keyed(
            "t"@,
            bytes_code(tid),
        ) + keyed("y"@, bytes_code(word("q"@))),
    )
}

proof fn lemma_join(a: Seq<u8>, b: Seq<u8>, c: Seq<u8>)
    ensures
        a + b + c == a + (b + c),
{
    assert(a + b + c =~= a + (b + c));
}

proof fn lemma_put_together(
    a: Seq<u8>,
    arguments: Seq<u8>,
    more: Seq<u8>,
    q: Seq<u8>,
    t: Seq<u8>,
    y: Seq<u8>,
)
    ensures
        (seq!['d' as u8] + a + seq!['d' as u8] + arguments) + more + (seq!['e' as u8] + q + t) + (y
            + seq!['e' as u8]) == between((a + between(arguments + more)) + q + t + y),
{
    let d = seq!['d' as u8];
    let e = seq!['e' as u8];
    let inner = arguments + more;
    assert((d + a + d + arguments) + more =~= d + a + d + inner);
    assert(d + a + d + inner + (e + q + t) =~= d + a + (d + inner + e) + q + t);
    assert(d + a + (d + inner + e) =~= d + (a + between(inner)));
    let front = a + between(inner);
    assert(d + front + q + t + (y + e) =~= d + (front + q + t + y) + e);
}

/// The queries for peers and for nodes name the node that asks and what is looked for.
pub proof fn law_lookup_queries(id: Seq<u8>, wanted: Seq<u8>, tid: Seq<u8>)
    requires
        id.len() == 20,
        wanted.len() == 20,
        tid.len() == 2,
    ensures
        get_peers_bytes(id, wanted, tid) == query(
            "get_peers"@,
            keyed("id"@, bytes_code(id)) + keyed("info_hash"@, bytes_code(wanted)),
            tid,
        ),
        find_node_bytes(id, wanted, tid) == query(
            "find_node"@,
            keyed("id"@, bytes_code(id)) + keyed("target"@, bytes_code(wanted)),
            tid,
        ),
{
    lemma_query_start(id);
    lemma_query_end(tid);
    lemma_query_names(wanted);
    let start = encode_utf8("d1:ad2:id20:"@) + id;
    let p = encode_utf8("9:info_hash20:"@);
    let n = encode_utf8("6:target20:"@);
    let qp = encode_utf8("e1:q9:get_peers1:t2:"@);
    let qn = encode_utf8("e1:q9:find_node1:t2:"@);
    lemma_join(start, p, wanted);
    lemma_join(start + (p + wanted), qp, tid);
    lemma_join(start, n, wanted);
    lemma_join(start + (n + wanted), qn, tid);
    lemma_put_together(
        bytes_code(word("a"@)),
        keyed("id"@, bytes_code(id)),
        p + wanted,
        keyed("q"@, bytes_code(word("get_peers"@))),
        keyed("t"@, bytes_code(tid)),
        keyed("y"@, bytes_code(word("q"@))),
    );
    lemma_put_together(
        bytes_code(word("a"@)),
        keyed("id"@, bytes_code(id)),
        n + wanted,
        keyed("q"@, bytes_code(word("find_node"@))),
        keyed("t"@, bytes_code(tid)),
        keyed("y"@, bytes_code(word("q"@))),
    );
}

proof fn lemma_port_and_token(port: u16, token: Seq<u8>)
    ensures
        encode_utf8("4:porti"@) + encode_utf8(decimal(port as nat)) + encode_utf8("e5:token"@)
            + encode_utf8(decimal(token.len())) + encode_utf8(":"@) + token == keyed(
            "port"@,
            int_code(port as int),
        ) + keyed("token"@, bytes_code(token)),
{
    reveal_strlit("4:porti");
    reveal_strlit("port");
    reveal_strlit("e5:token");
    reveal_strlit("token");
    reveal_strlit(":");
    lemma_word("4:porti"@);
    lemma_word("e5:token"@);
    lemma_word(":"@);
    lemma_short_word("port"@);
    lemma_short_word("token"@);
    let p = encode_utf8(decimal(port as nat));
    let d = encode_utf8(decimal(token.len()));
    assert(encode_utf8(":"@) =~= seq![0x3au8]);
    assert(d + encode_utf8(":"@) + token =~= bytes_code(token));
    assert(encode_utf8("4:porti"@) =~= bytes_code(word("port"@)) + seq![0x69u8]);
    assert(encode_utf8("e5:token"@) =~= seq![0x65u8] + bytes_code(word("token"@)));
    assert(int_code(port as int) =~= seq![0x69u8] + p + seq![0x65u8]);
    assert(encode_utf8("4:porti"@) + p + encode_utf8("e5:token"@) + d + encode_utf8(":"@) + token
        =~= (bytes_code(word("port"@)) + (seq![0x69u8] + p + seq![0x65u8])) + (bytes_code(
        word("token"@),
    ) + (d + encode_utf8(":"@) + token)));
}

/// The announcement names the node, the torrent, the client's port and the token, and asks to take the
/// port that the message comes from.
pub proof fn law_announcements(id: Seq<u8>, info_hash: Seq<u8>, port: u16, token: Seq<u8>, tid: Seq<u8>)
    requires
        id.len() == 20,
        info_hash.len() == 20,
        tid.len() == 2,
    ensures
        announce_peer_bytes(id, info_hash, port, token, tid) == query(
            "announce_peer"@,
            keyed("id"@, bytes_code(id)) + keyed("implied_port"@, int_code(1)) + keyed(
                "info_hash"@,
                bytes_code(info_hash),
            ) + keyed("port"@, int_code(port as int)) + keyed("token"@, bytes_code(token)),
            tid,
        ),
{
    lemma_query_start(id);
    lemma_query_end(tid);
    lemma_query_names(info_hash);
    lemma_port_and_token(port, token);
    let start = encode_utf8("d1:ad2:id20:"@) + id;
    let h = encode_utf8("12:implied_porti1e9:info_hash20:"@);
    let c1 = encode_utf8("4:porti"@);
    let c2 = encode_utf8(decimal(port as nat));
    let c3 = encode_utf8("e5:token"@);
    let c4 = encode_utf8(decimal(token.len()));
    let c5 = encode_utf8(":"@);
    let q = encode_utf8("e1:q13:announce_peer1:t2:"@);
    lemma_join(start, h, info_hash);
    let front = start + (h + info_hash);
    lemma_join(front, c1, c2);
    lemma_join(front, c1 + c2, c3);
    lemma_join(front, c1 + c2 + c3, c4);
    lemma_join(front, c1 + c2 + c3 + c4, c5);
    lemma_join(front, c1 + c2 + c3 + c4 + c5, token);
    let pt = c1 + c2 + c3 + c4 + c5 + token;
    lemma_join(front + pt, q, tid);
    lemma_join(start, h + info_hash, pt);
    let ik = keyed("id"@, bytes_code(id));
    let pk = keyed("implied_port"@, int_code(1));
    let hk = keyed("info_hash"@, bytes_code(info_hash));
    let ok = keyed("port"@, int_code(port as int));
    let tk = keyed("token"@, bytes_code(token));
    lemma_join(ik, pk, hk);
    lemma_join(ik, pk + hk, ok);
    lemma_join(pk + hk, ok, tk);
    lemma_join(ik, pk + hk + ok, tk);
    lemma_put_together(
        bytes_code(word("a"@)),
        ik,
        (h + info_hash) + pt,
        keyed("q"@, bytes_code(word("announce_peer"@))),
        keyed("t"@, bytes_code(tid)),
        keyed("y"@, bytes_code(word("q"@))),
    );
}

/// Dictionaries of one and two entries.
pub proof fn law_small_dictionaries(k: Seq<char>, v: Seq<u8>, l: Seq<char>, w: Seq<u8>)
    requires
        is_ascii_chars(k),
        is_ascii_chars(l),
    ensures
        dict_of_one(k, v) == between(keyed(k, v)),
        dict_of_two(k, v, l, w) == between(keyed(k, v) + keyed(l, w)),
{
    lemma_word(k);
    lemma_word(l);
    assert(dict_of_one(k, v) =~= between(keyed(k, v)));
    assert(dict_of_two(k, v, l, w) =~= between(keyed(k, v) + keyed(l, w)));
}

/// The greeting of the extension names its number under `ut_metadata` and the size of the description;
/// a request is the number of the extension, then type zero and the number of the part.
pub proof fn law_extension_messages(id: u8, size: u64, piece: u32)
    requires
        size <= i64::MAX,
    ensures
        extension_handshake(id, size) == between(
            keyed("m"@, between(keyed("ut_metadata"@, int_code(id as int)))) + keyed(
                "metadata_size"@,
                int_code(size as int),
            ),
        ),
        request_for(id, piece) == seq![id] + between(
            keyed("msg_type"@, int_code(0)) + keyed("piece"@, int_code(piece as int)),
        ),
{
    reveal_strlit("m");
    reveal_strlit("ut_metadata");
    reveal_strlit("metadata_size");
    reveal_strlit("msg_type");
    reveal_strlit("piece");
    law_small_dictionaries("ut_metadata"@, int_code(id as int), "m"@, Seq::empty());
    law_small_dictionaries(
        "m"@,
        dict_of_one("ut_metadata"@, int_code(id as int)),
        "metadata_size"@,
        int_code(size as int),
    );
    law_small_dictionaries("msg_type"@, int_code(0), "piece"@, int_code(piece as int));
}

// ---- values as trees ----

/// The value under a key is that of the first entry with the key; without such an entry there is none.
pub proof fn law_first_entry_counts(d: Vec<(Vec<u8>, Bencode)>, key: Seq<u8>, i: int)
    requires
        0 <= i <= d@.len(),
        forall|j: int| 0 <= j < i ==> (#[trigger] d@[j]).0@ != key,
        i < d@.len() ==> d@[i].0@ == key,
    ensures
        i < d@.len() ==> tree_get(tree_of(Bencode::Dict(d)), key) == Some(tree_of(d@[i].1)),
        i == d@.len() ==> tree_get(tree_of(Bencode::Dict(d)), key) is None,
{
    lemma_entry_place(d@, key, 0, i);
}

proof fn lemma_entry_place(d: Seq<(Vec<u8>, Bencode)>, key: Seq<u8>, from: int, i: int)
    requires
        0 <= from <= i <= d.len(),
        forall|j: int| 0 <= j < i ==> (#[trigger] d[j]).0@ != key,
        i < d.len() ==> d[i].0@ == key,
    ensures
        key_position(d, key, from) == i,
    decreases i - from,
{
    if from < i {
        assert(d[from].0@ != key);
        lemma_entry_place(d, key, from + 1, i);
    }
}

/// A list is its items in their order; numbers and byte strings stand for themselves.
pub proof fn law_trees_of_values(v: Vec<Bencode>, b: Vec<u8>, n: i64, i: int)
    requires
        0 <= i < v@.len(),
    ensures
        tree_of(Bencode::Int(n)) == Tree::Int(n),
        tree_of(Bencode::Bytes(b)) == Tree::Bytes(b@),
        tree_of(Bencode::List(v)) matches Tree::List(s) && s.len() == v@.len() && s[i] == tree_of(v@[i]),
{
}

// ---- parts of a description ----

proof fn lemma_found_before(data: Seq<u8>, rest: Seq<u8>, i: int, b: u8)
    requires
        find_from(data, i, b) is Some,
        0 <= i,
    ensures
        find_from(data + rest, i, b) == find_from(data, i, b),
    decreases data.len() - i,
{
    assert((data + rest)[i] == data[i]);
    if data[i] != b {
        lemma_found_before(data, rest, i + 1, b);
    }
}

proof fn lemma_digits_before(data: Seq<u8>, rest: Seq<u8>, i: int)
    requires
        0 <= i,
        digits_end(data, i) < data.len(),
    ensures
        digits_end(data + rest, i) == digits_end(data, i),
    decreases data.len() - i,
{
    if i < data.len() {
        assert((data + rest)[i] == data[i]);
        if is_digit(data[i]) {
            lemma_digits_before(data, rest, i + 1);
        }
    }
}

proof fn lemma_end_stays(data: Seq<u8>, rest: Seq<u8>, i: int, depth: int)
    requires
        0 <= i,
        dict_end(data, i, depth) is Some,
    ensures
        dict_end(data + rest, i, depth) == dict_end(data, i, depth),
    decreases data.len() - i,
{
    let all = data + rest;
    assert(all[i] == data[i]);
    if data[i] == 0x64 || data[i] == 0x6c {
        lemma_end_stays(data, rest, i + 1, depth + 1);
    } else if data[i] == 0x65 {
        if depth != 1 {
            lemma_end_stays(data, rest, i + 1, depth - 1);
        }
    } else if data[i] == 0x69 {
        lemma_found_before(data, rest, i + 1, 0x65);
        let p = find_from(data, i + 1, 0x65)->0;
        lemma_end_stays(data, rest, p + 1, depth);
    } else {
        let j = digits_end(data, i);
        lemma_digits_before(data, rest, i);
        assert(all[j] == data[j]);
        assert(all.subrange(i, j) =~= data.subrange(i, j));
        let next = j + 1 + digits_value(data.subrange(i, j));
        lemma_end_stays(data, rest, next, depth);
    }
}

/// A message with a part of the description is the number of the extension, a dictionary with the
/// numbers of the part, and then the part.
pub proof fn law_parts_are_read_back(id: u8, header: Seq<u8>, part: Seq<u8>, t: Tree, index: u32, total: u64)
    requires
        dict_end(header, 0, 0) == Some(header.len() as int),
        peer_tree(header) == Ok::<Tree, TorrentFault>(t),
        piece_of(t) == Ok::<(u32, u64), TorrentFault>((index, total)),
    ensures
        data_in(seq![id] + header + part) == Ok::<(u32, u64, Seq<u8>), TorrentFault>((index, total, part)),
{
    let payload = seq![id] + header + part;
    assert(payload.skip(1) =~= header + part);
    lemma_end_stays(header, part, 0, 0);
    let e = header.len() as int;
    assert(payload.subrange(1, e + 1) =~= header);
    assert(payload.skip(e + 1) =~= part);
}

/// What nests too deep is not parsed.
pub proof fn law_deep_messages_are_refused(data: Seq<u8>)
    requires
        scan_from(data, 0, 0, 32) == Scan::TooDeep,
    ensures
        peer_tree(data) == Err::<Tree, TorrentFault>(
            TorrentFault::PeerWireError("bencode nesting too deep"@),
        ),
{
}

} // verus!
