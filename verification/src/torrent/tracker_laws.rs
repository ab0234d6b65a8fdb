//! What holds of the requests to trackers, of their answers, and of where trackers may be asked.
use crate::bytes::be_value;
use crate::bytes::find_from;
use crate::bytes::lemma_find_from;
use crate::text::decimal;
use crate::text::hex_value;
use crate::text::lossy_text;
use crate::torrent::bencode::Tree;
use crate::torrent::error::TorrentFault;
use crate::torrent::magnet::percent_decoded;
use crate::torrent::metainfo::entry;
use crate::torrent::metainfo::percent_text;
use crate::torrent::metainfo::upper_digit;
use crate::torrent::tracker::answer_of;
use crate::torrent::tracker::compact_peers;
use crate::torrent::tracker::dict_peer;
use crate::torrent::tracker::dict_peers;
use crate::torrent::tracker::dotted;
use crate::torrent::tracker::event_name;
use crate::torrent::tracker::is_host_of;
use crate::torrent::tracker::non_public;
use crate::torrent::tracker::request_text;
use crate::torrent::tracker::resolved_fault;
use crate::torrent::tracker::signed_decimal;
use crate::torrent::tracker::url_fault;
use crate::torrent::tracker::url_text;
use crate::torrent::tracker::v4_non_public;
use crate::torrent::tracker::v6_non_public;
use crate::torrent::tracker::AnnounceEvent;
use crate::torrent::tracker::AnnounceRequest;
use crate::torrent::tracker::Answer;
use crate::torrent::tracker::Peer;
use crate::torrent::tracker::ResolvedAddress;
use crate::torrent::tracker::TrackerHost;
use crate::torrent::tracker::Url;
use crate::torrent::tracker::DEFAULT_INTERVAL;
use crate::torrent::tracker::MAX_TRACKER_RESPONSE;
use vstd::prelude::*;
use vstd::string::*;
use vstd::utf8::decode_utf8;
use vstd::utf8::encode_utf8;
use vstd::utf8::is_ascii_chars;
use vstd::utf8::valid_utf8;

verus! {

// ---- addresses ----

/// Whether a number is within a block of addresses: a first address, and how many follow it.
pub open spec fn in_block(n: int, first: int, size: int) -> bool {
    first <= n < first + size
}

/// An address of four bytes is not public exactly if it lies, as a number, in one of these blocks.
pub proof fn law_blocks_that_are_not_public(a: Seq<u8>)
    requires
        a.len() == 4,
    ensures
        ({
            let n = 0x100_0000 * a[0] + 0x1_0000 * a[1] + 0x100 * a[2] + a[3];
            v4_non_public(a) <==> {
                ||| n == 0
                ||| in_block(n, 0x0a00_0000, 0x100_0000)
                ||| in_block(n, 0x6440_0000, 0x40_0000)
                ||| in_block(n, 0x7f00_0000, 0x100_0000)
                ||| in_block(n, 0xa9fe_0000, 0x1_0000)
                ||| in_block(n, 0xac10_0000, 0x10_0000)
                ||| in_block(n, 0xc000_0000, 0x100)
                ||| in_block(n, 0xc000_0200, 0x100)
                ||| in_block(n, 0xc0a8_0000, 0x1_0000)
                ||| in_block(n, 0xc612_0000, 0x2_0000)
                ||| in_block(n, 0xc633_6400, 0x100)
                ||| in_block(n, 0xcb00_7100, 0x100)
                ||| in_block(n, 0xe000_0000, 0x2000_0000)
            }
        }),
{
}

/// An address of eight groups that stands for one of four bytes is judged as that one is.
pub proof fn law_mapped_addresses(s: Seq<u16>, a: Seq<u8>)
    requires
        s.len() == 8,
        a.len() == 4,
        forall|i: int| 0 <= i < 5 ==> #[trigger] s[i] == 0,
        s[5] == 0xffff,
        s[6] == 256 * a[0] + a[1],
        s[7] == 256 * a[2] + a[3],
    ensures
        v6_non_public(s) == v4_non_public(a),
{
    assert(s[0] == 0 && s[1] == 0 && s[2] == 0 && s[3] == 0 && s[4] == 0);
    assert(a =~= seq![
        (s[6] / 256) as u8,
        (s[6] % 256) as u8,
        (s[7] / 256) as u8,
        (s[7] % 256) as u8,
    ]);
}

/// Other addresses of eight groups are not public exactly if they are nowhere or this machine, or if
/// their first bits are those of unique local, link-local or multicast addresses.
pub proof fn law_prefixes_that_are_not_public(s: Seq<u16>)
    requires
        s.len() == 8,
        s[5] != 0xffff || s[0] != 0,
    ensures
        v6_non_public(s) <==> {
            ||| forall|i: int| 0 <= i < 8 ==> #[trigger] s[i] == 0
            ||| s[7] == 1 && forall|i: int| 0 <= i < 7 ==> #[trigger] s[i] == 0
            ||| s[0] / 0x200 == 0x7e
            ||| s[0] / 0x40 == 0x3fa
            ||| s[0] / 0x100 == 0xff
        },
{
    if s[0] == 0 && s[1] == 0 && s[2] == 0 && s[3] == 0 && s[4] == 0 && s[5] == 0 && s[6] == 0 && s[7]
        <= 1 {
        if s[7] == 0 {
            assert(forall|i: int| 0 <= i < 8 ==> #[trigger] s[i] == 0);
        } else {
            assert(forall|i: int| 0 <= i < 7 ==> #[trigger] s[i] == 0);
        }
    }
}

/// The address of a tracker is in order exactly if it is one of HTTP with a host that is not written
/// as an address that is not public; the last does not count where private ones are allowed.
pub proof fn law_trackers_that_may_be_asked(
    parsed: Result<Url, Seq<char>>,
    allow_private: bool,
)
    ensures
        url_fault(parsed, allow_private) is None <==> (parsed matches Ok(u) && (u.scheme == "http"@
            || u.scheme == "https"@) && (u.host matches Some(h) && h.len() > 0) && (allow_private
            || !(u.literal matches Some(ip) && non_public(ip)))),
        parsed matches Err(m) ==> url_fault(parsed, allow_private) == Some(
            TorrentFault::TrackerError("Invalid tracker URL: "@ + m),
        ),
{
}

/// A tracker is reached at its host, at the port that is named or else at 80. Its host is resolved
/// unless it is an address.
pub proof fn law_where_a_tracker_is_reached(h: TrackerHost, u: Url)
    requires
        is_host_of(h, u),
    ensures
        u.host == Some(h.host@),
        u.port matches Some(p) ==> h.port == p,
        u.port is None ==> h.port == 80,
        h.resolve <==> u.literal is None,
{
}

/// Among addresses that a host was resolved to, none is refused where all are public, and otherwise
/// the first that is not public is named.
pub proof fn law_first_private_address_is_named(
    host: Seq<char>,
    addrs: Seq<ResolvedAddress>,
    from: int,
    bad: int,
)
    requires
        0 <= from <= bad <= addrs.len(),
        forall|i: int| from <= i < bad ==> !non_public((#[trigger] addrs[i]).ip),
        bad < addrs.len() ==> non_public(addrs[bad].ip),
    ensures
        bad == addrs.len() ==> resolved_fault(host, addrs, from) is None,
        bad < addrs.len() ==> resolved_fault(host, addrs, from) == Some(
            TorrentFault::TrackerError(
                "Tracker host "@ + host + " resolves to non-public address "@ + addrs[bad].text@,
            ),
        ),
    decreases bad - from,
{
    if from < bad {
        assert(!non_public(addrs[from].ip));
        law_first_private_address_is_named(host, addrs, from + 1, bad);
    }
}

// ---- requests ----

/// The hexadecimal digits of a request are those of upper case.
pub proof fn law_upper_digits(d: nat)
    requires
        d < 16,
    ensures
        upper_digit(d) == "0123456789ABCDEF"@[d as int],
        hex_value(upper_digit(d) as u8) == Some(d),
{
    reveal_strlit("0123456789ABCDEF");
}

/// Whether a character stands for itself in a request: a letter, a digit or one of four others.
pub open spec fn stands_for_itself(c: char) -> bool {
    ||| 'a' <= c <= 'z'
    ||| 'A' <= c <= 'Z'
    ||| '0' <= c <= '9'
    ||| c == '-'
    ||| c == '_'
    ||| c == '.'
    ||| c == '~'
}

/// One byte in a request.
pub open spec fn url_unit(b: u8) -> Seq<char> {
    if stands_for_itself(b as char) {
        seq![b as char]
    } else {
        percent_unit(b)
    }
}

/// A percent sign and two hexadecimal digits.
pub open spec fn percent_unit(b: u8) -> Seq<char> {
    seq!['%', upper_digit(b as nat / 16), upper_digit(b as nat % 16)]
}

proof fn lemma_url_front(b: Seq<u8>)
    requires
        b.len() > 0,
    ensures
        url_text(b) == url_unit(b[0]) + url_text(b.skip(1)),
    decreases b.len(),
{
    if b.len() == 1 {
        assert(b.drop_last() =~= Seq::empty());
        assert(b.skip(1) =~= Seq::empty());
        assert(url_text(b.drop_last()) =~= Seq::empty());
        assert(url_text(b) =~= url_unit(b[0]));
    } else {
        let s = b.drop_last();
        lemma_url_front(s);
        assert(s.skip(1) =~= b.skip(1).drop_last());
        assert(b.skip(1).last() == b.last());
        assert(url_text(b) =~= url_unit(b[0]) + url_text(b.skip(1)));
    }
}

proof fn lemma_percent_front(b: Seq<u8>)
    requires
        b.len() > 0,
    ensures
        percent_text(b) == percent_unit(b[0]) + percent_text(b.skip(1)),
    decreases b.len(),
{
    if b.len() == 1 {
        assert(b.drop_last() =~= Seq::empty());
        assert(b.skip(1) =~= Seq::empty());
        assert(percent_text(b.drop_last()) =~= Seq::empty());
        assert(percent_text(b) =~= percent_unit(b[0]));
    } else {
        let s = b.drop_last();
        lemma_percent_front(s);
        assert(s.skip(1) =~= b.skip(1).drop_last());
        assert(b.skip(1).last() == b.last());
        assert(percent_text(b) =~= percent_unit(b[0]) + percent_text(b.skip(1)));
    }
}

/// The characters of an ASCII text as bytes.
spec fn as_bytes_of(t: Seq<char>) -> Seq<u8> {
    Seq::new(t.len(), |i: int| t[i] as u8)
}

proof fn lemma_unit_read(b: u8, t: Seq<char>)
    requires
        is_ascii_chars(t),
    ensures
        is_ascii_chars(url_unit(b) + t),
        is_ascii_chars(percent_unit(b) + t),
        percent_decoded(as_bytes_of(url_unit(b) + t)) == seq![b] + percent_decoded(as_bytes_of(t)),
        percent_decoded(as_bytes_of(percent_unit(b) + t)) == seq![b] + percent_decoded(
            as_bytes_of(t),
        ),
{
    law_upper_digits(b as nat / 16);
    law_upper_digits(b as nat % 16);
    let p = percent_unit(b) + t;
    assert(as_bytes_of(p).skip(3) =~= as_bytes_of(t));
    assert(as_bytes_of(p)[0] == 0x25);
    assert(as_bytes_of(p)[1] == upper_digit(b as nat / 16) as u8);
    assert(as_bytes_of(p)[2] == upper_digit(b as nat % 16) as u8);
    assert(16 * (b as nat / 16) + b as nat % 16 == b);
    assert forall|i: int| 0 <= i < p.len() implies '\0' <= #[trigger] p[i] <= '\u{7f}' by {
        if i >= 3 {
            assert(p[i] == t[i - 3]);
        }
    }
    if stands_for_itself(b as char) {
        let u = url_unit(b) + t;
        assert(as_bytes_of(u).skip(1) =~= as_bytes_of(t));
        assert(as_bytes_of(u)[0] == b);
        assert(b != 0x25);
        assert forall|i: int| 0 <= i < u.len() implies '\0' <= #[trigger] u[i] <= '\u{7f}' by {
            if i >= 1 {
                assert(u[i] == t[i - 1]);
            }
        }
    }
}

proof fn lemma_reads_back(b: Seq<u8>)
    ensures
        is_ascii_chars(url_text(b)),
        is_ascii_chars(percent_text(b)),
        percent_decoded(as_bytes_of(url_text(b))) == b,
        percent_decoded(as_bytes_of(percent_text(b))) == b,
    decreases b.len(),
{
    if b.len() == 0 {
        assert(as_bytes_of(url_text(b)) =~= Seq::empty());
        assert(as_bytes_of(percent_text(b)) =~= Seq::empty());
        assert(b =~= Seq::empty());
    } else {
        lemma_reads_back(b.skip(1));
        lemma_url_front(b);
        lemma_percent_front(b);
        lemma_unit_read(b[0], url_text(b.skip(1)));
        lemma_unit_read(b[0], percent_text(b.skip(1)));
        assert(seq![b[0]] + b.skip(1) =~= b);
    }
}

/// Bytes in a request are read back as they were, in either form.
pub proof fn law_encoded_bytes_read_back(b: Seq<u8>)
    ensures
        percent_decoded(encode_utf8(url_text(b))) == b,
        percent_decoded(encode_utf8(percent_text(b))) == b,
{
    lemma_reads_back(b);
    vstd::utf8::is_ascii_chars_encode_utf8(url_text(b));
    vstd::utf8::is_ascii_chars_encode_utf8(percent_text(b));
    assert(encode_utf8(url_text(b)) =~= as_bytes_of(url_text(b)));
    assert(encode_utf8(percent_text(b)) =~= as_bytes_of(percent_text(b)));
}

/// Texts of bytes follow one another as the bytes do. Letters, digits and `-_.~` stand for
/// themselves; any other byte is a percent sign and two digits. In the longer form every byte is.
pub proof fn law_encoding_is_byte_by_byte(b: Seq<u8>, c: u8)
    ensures
        url_text(Seq::empty()) == Seq::<char>::empty(),
        url_text(b.push(c)) == url_text(b) + url_unit(c),
        percent_text(Seq::empty()) == Seq::<char>::empty(),
        percent_text(b.push(c)) == percent_text(b) + percent_unit(c),
{
    assert(b.push(c).drop_last() =~= b);
    assert(url_text(b.push(c)) =~= url_text(b) + url_unit(c));
}

/// A parameter of a request.
pub open spec fn parameter(name: Seq<char>, value: Seq<char>) -> Seq<char> {
    name.push('=') + value
}

/// The parameters of an announcement, in their order.
pub open spec fn announced(q: AnnounceRequest) -> Seq<Seq<char>> {
    let always = seq![
        parameter("info_hash"@, url_text(q.info_hash@)),
        parameter("peer_id"@, url_text(q.peer_id@)),
        parameter("port"@, decimal(q.port as nat)),
        parameter("uploaded"@, decimal(q.uploaded as nat)),
        parameter("downloaded"@, decimal(q.downloaded as nat)),
        parameter("left"@, decimal(q.left as nat)),
        parameter("compact"@, "1"@),
        parameter("numwant"@, signed_decimal(q.num_want as int)),
    ];
    match q.event {
        AnnounceEvent::Started => always.push(parameter("event"@, "started"@)),
        AnnounceEvent::Completed => always.push(parameter("event"@, "completed"@)),
        AnnounceEvent::Stopped => always.push(parameter("event"@, "stopped"@)),
        AnnounceEvent::Regular => always,
    }
}

/// Texts with `&` before each but the first.
pub open spec fn ampersands(s: Seq<Seq<char>>) -> Seq<char>
    decreases s.len(),
{
    if s.len() == 0 {
        Seq::empty()
    } else if s.len() == 1 {
        s[0]
    } else {
        ampersands(s.drop_last()).push('&') + s.last()
    }
}

proof fn lemma_parameter_names()
    ensures
        "info_hash="@ == "info_hash"@.push('='),
        "&peer_id="@ == seq!['&'] + "peer_id"@.push('='),
        "&port="@ == seq!['&'] + "port"@.push('='),
        "&uploaded="@ == seq!['&'] + "uploaded"@.push('='),
        "&downloaded="@ == seq!['&'] + "downloaded"@.push('='),
        "&left="@ == seq!['&'] + "left"@.push('='),
        "&compact=1&numwant="@ == seq!['&'] + ("compact"@.push('=') + "1"@) + seq!['&']
            + "numwant"@.push('='),
        "&event="@ == seq!['&'] + "event"@.push('='),
{
    reveal_strlit("info_hash=");
    reveal_strlit("info_hash");
    reveal_strlit("&peer_id=");
    reveal_strlit("peer_id");
    reveal_strlit("&port=");
    reveal_strlit("port");
    reveal_strlit("&uploaded=");
    reveal_strlit("uploaded");
    reveal_strlit("&downloaded=");
    reveal_strlit("downloaded");
    reveal_strlit("&left=");
    reveal_strlit("left");
    reveal_strlit("&compact=1&numwant=");
    reveal_strlit("compact");
    reveal_strlit("1");
    reveal_strlit("numwant");
    reveal_strlit("&event=");
    reveal_strlit("event");
    assert("info_hash="@ =~= "info_hash"@.push('='));
    assert("&peer_id="@ =~= seq!['&'] + "peer_id"@.push('='));
    assert("&port="@ =~= seq!['&'] + "port"@.push('='));
    assert("&uploaded="@ =~= seq!['&'] + "uploaded"@.push('='));
    assert("&downloaded="@ =~= seq!['&'] + "downloaded"@.push('='));
    assert("&left="@ =~= seq!['&'] + "left"@.push('='));
    assert("&compact=1&numwant="@ =~= seq!['&'] + ("compact"@.push('=') + "1"@) + seq!['&']
        + "numwant"@.push('='));
    assert("&event="@ =~= seq!['&'] + "event"@.push('='));
}

proof fn lemma_glue(before: Seq<char>, sign: Seq<char>, name: Seq<char>, value: Seq<char>)
    requires
        sign == seq!['&'] + name.push('='),
    ensures
        before + sign + value == before + seq!['&'] + parameter(name, value),
{
    assert(before + sign + value =~= before + seq!['&'] + parameter(name, value));
}

proof fn lemma_one_more_parameter(before: Seq<char>, s: Seq<Seq<char>>, k: int)
    requires
        2 <= k <= s.len(),
    ensures
        before + ampersands(s.take(k)) == (before + ampersands(s.take(k - 1))) + seq!['&'] + s[k - 1],
{
    assert(s.take(k).drop_last() =~= s.take(k - 1));
    assert(before + ampersands(s.take(k)) =~= (before + ampersands(s.take(k - 1))) + seq!['&'] + s[k
        - 1]);
}

proof fn lemma_request_body(q: AnnounceRequest, start: Seq<char>)
    ensures
        start + "info_hash="@ + url_text(q.info_hash@) + "&peer_id="@ + url_text(q.peer_id@)
            + "&port="@ + decimal(q.port as nat) + "&uploaded="@ + decimal(q.uploaded as nat)
            + "&downloaded="@ + decimal(q.downloaded as nat) + "&left="@ + decimal(q.left as nat)
            + "&compact=1&numwant="@ + signed_decimal(q.num_want as int) == start + ampersands(
            announced(q).take(8),
        ),
{
    lemma_parameter_names();
    let p = announced(q);
    assert(p.len() >= 8);
    let c1 = start + "info_hash="@ + url_text(q.info_hash@);
    assert(p.take(1)[0] == p[0]);
    assert(c1 =~= start + ampersands(p.take(1)));
    lemma_glue(c1, "&peer_id="@, "peer_id"@, url_text(q.peer_id@));
    lemma_one_more_parameter(start, p, 2);
    let c2 = c1 + "&peer_id="@ + url_text(q.peer_id@);
    assert(c2 == start + ampersands(p.take(2)));
    lemma_glue(c2, "&port="@, "port"@, decimal(q.port as nat));
    lemma_one_more_parameter(start, p, 3);
    let c3 = c2 + "&port="@ + decimal(q.port as nat);
    assert(c3 == start + ampersands(p.take(3)));
    lemma_glue(c3, "&uploaded="@, "uploaded"@, decimal(q.uploaded as nat));
    lemma_one_more_parameter(start, p, 4);
    let c4 = c3 + "&uploaded="@ + decimal(q.uploaded as nat);
    assert(c4 == start + ampersands(p.take(4)));
    lemma_glue(c4, "&downloaded="@, "downloaded"@, decimal(q.downloaded as nat));
    lemma_one_more_parameter(start, p, 5);
    let c5 = c4 + "&downloaded="@ + decimal(q.downloaded as nat);
    assert(c5 == start + ampersands(p.take(5)));
    lemma_glue(c5, "&left="@, "left"@, decimal(q.left as nat));
    lemma_one_more_parameter(start, p, 6);
    let c6 = c5 + "&left="@ + decimal(q.left as nat);
    assert(c6 == start + ampersands(p.take(6)));
    lemma_one_more_parameter(start, p, 7);
    lemma_one_more_parameter(start, p, 8);
    let n = signed_decimal(q.num_want as int);
    assert(c6 + "&compact=1&numwant="@ + n =~= c6 + seq!['&'] + p[6] + seq!['&'] + p[7]);
}

/// What a tracker is asked is its address and the parameters of the announcement, behind a `?`, or
/// behind a `&` where the address has parameters of its own.
pub proof fn law_request_lists_its_parameters(q: AnnounceRequest)
    ensures
        (exists|i: int|
            0 <= i < encode_utf8(q.tracker_url@).len() && #[trigger] encode_utf8(q.tracker_url@)[i]
                == 0x3f) ==> request_text(q) == q.tracker_url@.push('&') + ampersands(announced(q)),
        !(exists|i: int|
            0 <= i < encode_utf8(q.tracker_url@).len() && #[trigger] encode_utf8(q.tracker_url@)[i]
                == 0x3f) ==> request_text(q) == q.tracker_url@.push('?') + ampersands(announced(q)),
{
    let raw = encode_utf8(q.tracker_url@);
    lemma_find_from(raw, 0, 0x3f);
    reveal_strlit("&");
    reveal_strlit("?");
    let p = announced(q);
    let start = if find_from(raw, 0, 0x3f) is Some {
        q.tracker_url@ + "&"@
    } else {
        q.tracker_url@ + "?"@
    };
    assert(q.tracker_url@ + "&"@ =~= q.tracker_url@.push('&'));
    assert(q.tracker_url@ + "?"@ =~= q.tracker_url@.push('?'));
    lemma_request_body(q, start);
    let front = start + ampersands(p.take(8));
    match event_name(q.event) {
        Some(e) => {
            lemma_parameter_names();
            lemma_one_more_parameter(start, p, 9);
            lemma_glue(front, "&event="@, "event"@, e);
            assert(p.take(9) =~= p);
            assert(front + ("&event="@ + e) =~= front + "&event="@ + e);
        },
        None => {
            assert(p.take(8) =~= p);
            assert(front + Seq::<char>::empty() =~= front);
        },
    }
}

/// A number has a minus sign exactly if it is negative, and its magnitude follows.
pub proof fn law_signed_numbers(n: nat)
    ensures
        signed_decimal(n as int) == decimal(n),
        n > 0 ==> signed_decimal(-(n as int)) == seq!['-'] + decimal(n),
{
    reveal_strlit("-");
    assert("-"@ =~= seq!['-']);
}

/// Answers up to four mebibytes are read, and a tracker that names no pause is asked every half
/// hour.
pub proof fn law_limits_of_answers()
    ensures
        MAX_TRACKER_RESPONSE == 4 * 1024 * 1024,
        DEFAULT_INTERVAL == 30 * 60,
{
}

// ---- answers ----

/// The text of an address is its four numbers with points between them.
pub proof fn law_dotted(a: u8, b: u8, c: u8, d: u8)
    ensures
        dotted(a, b, c, d) == decimal(a as nat).push('.') + decimal(b as nat).push('.') + decimal(
            c as nat,
        ).push('.') + decimal(d as nat),
{
    reveal_strlit(".");
    assert("."@ =~= seq!['.']);
    assert(dotted(a, b, c, d) =~= decimal(a as nat).push('.') + decimal(b as nat).push('.')
        + decimal(c as nat).push('.') + decimal(d as nat));
}

/// Six bytes more are one peer more: four bytes of address and a port whose high byte comes first.
/// Fewer than six more bytes are none.
pub proof fn law_peers_in_six_bytes(s: Seq<u8>, p: Seq<u8>)
    requires
        s.len() % 6 == 0,
        p.len() <= 6,
    ensures
        p.len() < 6 ==> compact_peers(s + p) == compact_peers(s),
        p.len() == 6 ==> compact_peers(s + p) == compact_peers(s).push(
            Peer {
                ip: dotted(p[0], p[1], p[2], p[3]),
                port: (256 * p[4] + p[5]) as u16,
                peer_id: None,
            },
        ),
{
    let t = s + p;
    let n: int = (s.len() / 6) as int;
    assert forall|i: int| 0 <= i < n implies #[trigger] compact_peers(t)[i] == compact_peers(s)[i] by {
        assert(t.subrange(6 * i + 4, 6 * i + 6) =~= s.subrange(6 * i + 4, 6 * i + 6));
        assert(t[6 * i] == s[6 * i] && t[6 * i + 1] == s[6 * i + 1] && t[6 * i + 2] == s[6 * i + 2]
            && t[6 * i + 3] == s[6 * i + 3]);
    }
    if p.len() == 6 {
        let w = t.subrange(6 * n + 4, 6 * n + 6);
        assert(6 * n == s.len());
        assert(w =~= seq![p[4], p[5]]);
        assert(be_value(w) == 256 * p[4] + p[5]) by {
            reveal_with_fuel(be_value, 3);
            assert(w.drop_last() =~= seq![p[4]]);
            assert(w.drop_last().drop_last() =~= Seq::empty());
        }
        assert(compact_peers(t)[n] == (Peer {
            ip: dotted(p[0], p[1], p[2], p[3]),
            port: (256 * p[4] + p[5]) as u16,
            peer_id: None,
        }));
        assert(compact_peers(t) =~= compact_peers(s).push(
            Peer {
                ip: dotted(p[0], p[1], p[2], p[3]),
                port: (256 * p[4] + p[5]) as u16,
                peer_id: None,
            },
        ));
    } else {
        assert(t.len() / 6 == n);
        assert(compact_peers(t) =~= compact_peers(s));
    }
}

/// A dictionary names a peer exactly if it has an address in bytes and a port from 1 to 65,535. The
/// peer is at that address and port.
pub proof fn law_peers_in_dictionaries(t: Tree)
    ensures
        dict_peer(t) is Some <==> (entry(t, "ip"@) matches Some(Tree::Bytes(_)) && (entry(t, "port"@)
            matches Some(Tree::Int(p)) && 1 <= p <= 65_535)),
        dict_peer(t) matches Some(peer) ==> entry(t, "port"@) == Some(Tree::Int(peer.port as i64))
            && peer.peer_id is None && (entry(t, "ip"@) matches Some(Tree::Bytes(b)) && (valid_utf8(b)
            ==> peer.ip == decode_utf8(b))),
{
}

proof fn lemma_dict_prefix(s: Seq<Tree>, t: Tree, n: nat)
    requires
        n <= s.len(),
    ensures
        dict_peers(s.push(t), n) == dict_peers(s, n),
    decreases n,
{
    if n > 0 {
        lemma_dict_prefix(s, t, (n - 1) as nat);
    }
}

/// One more dictionary adds the peer that it names behind the others, or nothing.
pub proof fn law_peers_of_a_list(s: Seq<Tree>, t: Tree)
    ensures
        dict_peers(Seq::empty(), 0) == Seq::<Peer>::empty(),
        dict_peers(s.push(t), s.len() + 1) == dict_peers(s, s.len()) + (match dict_peer(t) {
            Some(p) => seq![p],
            None => Seq::empty(),
        }),
{
    lemma_dict_prefix(s, t, s.len());
    assert(dict_peers(s.push(t), s.len() + 1) =~= dict_peers(s, s.len()) + (match dict_peer(t) {
        Some(p) => seq![p],
        None => Seq::empty(),
    }));
}

/// An answer with a reason for failure is that failure; what is no dictionary is refused; any other
/// answer is taken.
pub proof fn law_which_answers_are_taken(t: Tree)
    ensures
        t !is Dict ==> answer_of(t) is Err,
        t is Dict && (entry(t, "failure reason"@) matches Some(Tree::Bytes(_))) ==> answer_of(t)
            == Err::<Answer, TorrentFault>(
            TorrentFault::TrackerError(lossy_text(entry(t, "failure reason"@)->0->Bytes_0)),
        ),
        answer_of(t) is Ok <==> t is Dict && !(entry(t, "failure reason"@) matches Some(
            Tree::Bytes(_),
        )),
{
}

/// What an answer says: positive pauses count, and counts of peers that are not negative.
pub proof fn law_what_an_answer_says(t: Tree, n: i64)
    requires
        answer_of(t) is Ok,
        -0x8000_0000 <= n <= 0xffff_ffff,
    ensures
        ({
            let a = answer_of(t)->Ok_0;
            &&& entry(t, "interval"@) == Some(Tree::Int(n)) && n > 0 ==> a.interval == n
            &&& entry(t, "interval"@) == Some(Tree::Int(n)) && n <= 0 ==> a.interval == 1800
            &&& entry(t, "interval"@) is None ==> a.interval == 1800
            &&& entry(t, "min interval"@) == Some(Tree::Int(n)) && n > 0 ==> a.min_interval == Some(
                n as u32,
            )
            &&& entry(t, "min interval"@) == Some(Tree::Int(n)) && n <= 0 ==> a.min_interval is None
            &&& entry(t, "min interval"@) is None ==> a.min_interval is None
            &&& entry(t, "complete"@) == Some(Tree::Int(n)) && n >= 0 ==> a.complete == n
            &&& entry(t, "complete"@) == Some(Tree::Int(n)) && n < 0 ==> a.complete == 0
            &&& entry(t, "complete"@) is None ==> a.complete == 0
            &&& entry(t, "incomplete"@) == Some(Tree::Int(n)) && n >= 0 ==> a.incomplete == n
            &&& entry(t, "incomplete"@) == Some(Tree::Int(n)) && n < 0 ==> a.incomplete == 0
            &&& entry(t, "incomplete"@) is None ==> a.incomplete == 0
            &&& entry(t, "peers"@) matches Some(Tree::Bytes(b)) ==> a.peers == compact_peers(b)
            &&& entry(t, "peers"@) matches Some(Tree::List(s)) ==> a.peers == dict_peers(s, s.len())
            &&& entry(t, "peers"@) is None ==> a.peers.len() == 0
            &&& entry(t, "warning message"@) matches Some(Tree::Bytes(b)) ==> valid_utf8(b)
                ==> a.warning == Some(decode_utf8(b))
            &&& entry(t, "warning message"@) is None ==> a.warning is None
        }),
{
}

} // verus!
