//! Magnet links.
use crate::bytes::array20;
use crate::bytes::be_digits;
use crate::bytes::be_value;
use crate::bytes::find_byte;
use crate::bytes::find_from;
use crate::bytes::same_bytes;
use crate::text::decimal;
use crate::text::decode_text;
use crate::text::hex_bytes;
use crate::text::hex_decode;
use crate::text::hex_encode;
use crate::text::hex_error_text;
use crate::text::hex_text;
use crate::text::hex_value;
use crate::text::parse_unsigned;
use crate::text::push_decimal;
use crate::text::unsigned_number;
use crate::text::utf8_error_text;
use crate::torrent::error::bad_magnet;
use crate::torrent::error::TorrentError;
use crate::torrent::error::TorrentFault;
use crate::torrent::metainfo::text_option;
use crate::torrent::metainfo::texts;
use crate::torrent::metainfo::tiers;
use crate::torrent::metainfo::file_views;
use crate::torrent::metainfo::digests;
use crate::torrent::metainfo::File;
use crate::torrent::metainfo::Meta;
use crate::torrent::metainfo::Metainfo;
use vstd::arithmetic::power2::pow2;
use vstd::prelude::*;
use vstd::string::*;
use vstd::utf8::decode_utf8;
use vstd::utf8::encode_utf8;
use vstd::utf8::is_ascii_chars;
use vstd::utf8::valid_utf8;

verus! {

/// A magnet link.
#[derive(Debug, Clone)]
pub struct MagnetLink {
    /// The digest that names the torrent.
    pub info_hash: [u8; 20],
    /// The name to show.
    pub display_name: Option<String>,
    /// The trackers.
    pub trackers: Vec<String>,
    /// The size of all files.
    pub size_hint: Option<u64>,
}

/// What a magnet link, or the part of it that was read, says.
#[verifier::ext_equal]
pub struct Link {
    pub info_hash: Option<Seq<u8>>,
    pub display_name: Option<Seq<char>>,
    pub trackers: Seq<Seq<char>>,
    pub size_hint: Option<u64>,
}

impl View for MagnetLink {
    type V = Link;

    open spec fn view(&self) -> Link {
        Link {
            info_hash: Some(self.info_hash@),
            display_name: text_option(self.display_name),
            trackers: texts(self.trackers@),
            size_hint: self.size_hint,
        }
    }
}

/// A fault of a magnet link.
pub open spec fn bad_link(text: Seq<char>) -> TorrentFault {
    TorrentFault::MagnetError(text)
}

// ---- percent encoding ----

/// Bytes with each percent sign before two hexadecimal digits replaced by the byte that they
/// stand for. Everything else stays.
pub open spec fn percent_decoded(s: Seq<u8>) -> Seq<u8>
    decreases s.len(),
{
    if s.len() == 0 {
        Seq::empty()
    } else if s[0] == 0x25 && s.len() >= 3 && hex_value(s[1]) is Some && hex_value(s[2]) is Some {
        seq![(16 * hex_value(s[1])->0 + hex_value(s[2])->0) as u8] + percent_decoded(s.skip(3))
    } else {
        seq![s[0]] + percent_decoded(s.skip(1))
    }
}

/// `urlencoding::decode_binary`: a percent sign before two hexadecimal digits of either case
/// becomes the byte that they stand for, and all other bytes stay as they are.
#[verifier::external_body]
pub(crate) fn percent_decode(data: &[u8]) -> (r: Vec<u8>)
    ensures
        r@ == percent_decoded(data@),
{
    urlencoding::decode_binary(data).into_owned()
}

// ---- base 32 ----

/// An ASCII character in upper case.
pub open spec fn upper_char(c: char) -> char {
    if 'a' <= c <= 'z' {
        (c as u32 - 32) as char
    } else {
        c
    }
}

/// A text in upper case, where one of its characters is not ASCII.
pub uninterp spec fn upper_text(s: Seq<char>) -> Seq<char>;

/// A text in upper case.
pub open spec fn upper_case(s: Seq<char>) -> Seq<char> {
    if is_ascii_chars(s) {
        s.map_values(|c: char| upper_char(c))
    } else {
        upper_text(s)
    }
}

/// `str::to_uppercase`: each lower-case letter of an ASCII text becomes its upper-case letter and
/// its other characters stay; another text gives a text that depends on it alone.
#[verifier::external_body]
fn to_upper(s: &str) -> (r: String)
    ensures
        r@ == if is_ascii_chars(s@) {
            s@.map_values(|c: char| upper_char(c))
        } else {
            upper_text(s@)
        },
{
    s.to_uppercase()
}

/// The value of a base-32 digit.
pub open spec fn base32_digit(c: u8) -> Option<nat> {
    if 0x41 <= c <= 0x5a {
        Some((c - 0x41) as nat)
    } else if 0x32 <= c <= 0x37 {
        Some((c - 0x32 + 26) as nat)
    } else {
        None
    }
}

/// The number that base-32 digits make.
pub open spec fn base32_value(s: Seq<u8>) -> nat
    decreases s.len(),
{
    if s.len() == 0 {
        0
    } else {
        32 * base32_value(s.drop_last()) + base32_digit(s.last())->0
    }
}

/// The first position from `i` on that holds no base-32 digit; the length where all do.
pub open spec fn first_stranger(s: Seq<u8>, i: int) -> int
    decreases s.len() - i,
{
    if i < 0 || i >= s.len() || base32_digit(s[i]) is None {
        i
    } else {
        first_stranger(s, i + 1)
    }
}

/// The bytes that base-32 digits stand for, without the bits that make no whole byte.
pub open spec fn base32_bytes(s: Seq<u8>) -> Result<Seq<u8>, TorrentFault> {
    let at = first_stranger(s, 0);
    if at < s.len() {
        Err(bad_link("Invalid base32 char: "@.push(s[at] as char)))
    } else {
        Ok(
            be_digits(
                base32_value(s) / pow2((5 * s.len()) % 8),
                (5 * s.len()) / 8,
            ),
        )
    }
}

proof fn lemma_be_value_digits(s: Seq<u8>)
    ensures
        be_digits(be_value(s), s.len()) == s,
    decreases s.len(),
{
    if s.len() > 0 {
        lemma_be_value_digits(s.drop_last());
        assert((256 * be_value(s.drop_last()) + s.last()) / 256 == be_value(s.drop_last()));
        assert(be_digits(be_value(s), s.len()) =~= s);
    } else {
        assert(be_digits(be_value(s), 0) =~= s);
    }
}

proof fn lemma_small_powers()
    ensures
        pow2(0) == 1,
        pow2(1) == 2,
        pow2(2) == 4,
        pow2(3) == 8,
        pow2(4) == 16,
        pow2(5) == 32,
        pow2(6) == 64,
        pow2(7) == 128,
{
    vstd::arithmetic::power2::lemma2_to64();
}

proof fn lemma_regroup(v: nat, unit: nat, bits: nat, d: nat)
    requires
        unit == 1 || unit == 2 || unit == 4 || unit == 8 || unit == 16 || unit == 32 || unit == 64
            || unit == 128,
        bits < unit,
        d < 32,
    ensures
        32 * (v * unit + bits) + d == v * (32 * unit) + (32 * bits + d),
        32 * bits + d < 32 * unit,
        unit >= 8 ==> ({
            let w = unit / 8;
            let x = 32 * bits + d;
            &&& x / w < 256
            &&& v * (32 * unit) + x == (256 * v + x / w) * w + x % w
            &&& x % w < w
        }),
{
    assert(32 * (v * unit) == v * (32 * unit)) by (nonlinear_arith);
    if unit >= 8 {
        let w = (unit / 8) as int;
        let x = (32 * bits + d) as int;
        assert(unit == 8 * w);
        assert(x < 256 * w);
        vstd::arithmetic::div_mod::lemma_fundamental_div_mod(x, w);
        assert(x / w < 256) by (nonlinear_arith)
            requires
                x < 256 * w,
                w > 0,
        ;
        assert(v * (256 * w) + (w * (x / w) + x % w) == (256 * v + x / w) * w + x % w)
            by (nonlinear_arith);
        assert(v * (32 * (8 * w)) == v * (256 * w)) by (nonlinear_arith);
    }
}

fn digit_of(c: u8) -> (r: Option<u64>)
    ensures
        match r {
            Some(d) => base32_digit(c) == Some(d as nat) && d < 32,
            None => base32_digit(c) is None,
        },
{
    if c >= 0x41 && c <= 0x5a {
        Some((c - 0x41) as u64)
    } else if c >= 0x32 && c <= 0x37 {
        Some((c - 0x32) as u64 + 26)
    } else {
        None
    }
}

/// Decodes base 32 in upper case.
pub fn base32_upper(s: &[u8]) -> (r: Result<Vec<u8>, TorrentError>)
    ensures
        match base32_bytes(s@) {
            Ok(b) => r matches Ok(v) && v@ == b,
            Err(f) => r matches Err(e) && e@ == f,
        },
{
    let mut out: Vec<u8> = Vec::new();
    let mut bits: u64 = 0;
    let mut unit: u64 = 1;
    let mut i: usize = 0;
    let ghost mut count: nat = 0;
    proof {
        lemma_small_powers();
        assert(s@.take(0) =~= Seq::<u8>::empty());
    }
    while i < s.len()
        invariant
            i <= s@.len(),
            count < 8,
            8 * out@.len() + count == 5 * i,
            unit == pow2(count),
            unit == 1 || unit == 2 || unit == 4 || unit == 8 || unit == 16 || unit == 32 || unit
                == 64 || unit == 128,
            bits < unit,
            be_value(out@) * unit + bits == base32_value(s@.take(i as int)),
            first_stranger(s@, 0) == first_stranger(s@, i as int),
        decreases s@.len() - i,
    {
        let d: u64 = match digit_of(s[i]) {
            Some(d) => d,
            None => {
                let mut m: String = "Invalid base32 char: ".to_owned();
                m.push(s[i] as char);
                return Err(TorrentError::MagnetError(m));
            },
        };
        let ghost v = be_value(out@);
        let ghost before = out@;
        proof {
            let t = s@.take(i + 1);
            assert(t.drop_last() =~= s@.take(i as int));
            assert(t.last() == s@[i as int]);
            lemma_regroup(v, unit as nat, bits as nat, d as nat);
            lemma_small_powers();
        }
        bits = 32 * bits + d;
        if unit >= 8 {
            unit = unit / 8;
            let b: u8 = (bits / unit) as u8;
            out.push(b);
            bits = bits % unit;
            proof {
                assert(out@.drop_last() =~= before);
                count = (count - 3) as nat;
            }
        } else {
            unit = 32 * unit;
            proof {
                count = count + 5;
            }
        }
        i = i + 1;
    }
    proof {
        assert(s@.take(i as int) =~= s@);
        let n = s@.len();
        assert(out@.len() == (5 * n) / 8 && count == (5 * n) % 8);
        let v = be_value(out@);
        assert(base32_value(s@) / (unit as nat) == v) by (nonlinear_arith)
            requires
                v * unit + bits == base32_value(s@),
                bits < unit,
                unit > 0,
        ;
        lemma_be_value_digits(out@);
        lemma_all_digits(s@, 0);
    }
    Ok(out)
}

proof fn lemma_all_digits(s: Seq<u8>, i: int)
    requires
        0 <= i <= s.len(),
    ensures
        i <= first_stranger(s, i) <= s.len(),
    decreases s.len() - i,
{
    if i < s.len() && base32_digit(s[i]) is Some {
        lemma_all_digits(s, i + 1);
    }
}

/// The bytes that base-32 digits of either case stand for.
pub open spec fn base32_of(s: Seq<char>) -> Result<Seq<u8>, TorrentFault> {
    base32_bytes(encode_utf8(upper_case(s)))
}

/// ASCII texts that differ in the case of letters alone stand for the same bytes.
pub proof fn law_base32_ignores_case(s: Seq<char>, t: Seq<char>)
    requires
        is_ascii_chars(s),
        is_ascii_chars(t),
        s.len() == t.len(),
        forall|i: int|
            0 <= i < s.len() ==> upper_char(#[trigger] s[i]) == upper_char(#[trigger] t[i]),
    ensures
        base32_of(s) == base32_of(t),
{
    assert(upper_case(s) =~= upper_case(t));
}

/// Decodes base 32.
pub fn base32_decode(s: &str) -> (r: Result<Vec<u8>, TorrentError>)
    ensures
        match base32_of(s@) {
            Ok(b) => r matches Ok(v) && v@ == b,
            Err(f) => r matches Err(e) && e@ == f,
        },
{
    let upper: String = to_upper(s);
    base32_upper(upper.as_str().as_bytes())
}

// ---- the parameters ----

/// What comes before the digest in a topic.
pub open spec fn topic_prefix() -> Seq<u8> {
    encode_utf8("urn:btih:"@)
}

/// Whether bytes start with others.
pub open spec fn starts_with(s: Seq<u8>, p: Seq<u8>) -> bool {
    p.len() <= s.len() && s.take(p.len() as int) == p
}

/// The bytes of a digest, in hexadecimal or base 32.
pub open spec fn digest_bytes(s: Seq<u8>) -> Result<Seq<u8>, TorrentFault> {
    if s.len() == 40 {
        match hex_bytes(s) {
            Some(b) => Ok(b),
            None => Err(bad_link(hex_error_text(s))),
        }
    } else if s.len() == 32 {
        base32_of(decode_utf8(s))
    } else {
        Err(bad_link("Invalid info hash length: "@ + decimal(s.len())))
    }
}

/// The digest that names a torrent.
pub open spec fn digest_in(s: Seq<u8>) -> Result<Seq<u8>, TorrentFault> {
    match digest_bytes(s) {
        Err(f) => Err(f),
        Ok(b) => if b.len() != 20 {
            Err(bad_link("Info hash must be 20 bytes"@))
        } else {
            Ok(b)
        },
    }
}

/// A number that fits 64 bits.
pub open spec fn size_in(s: Seq<u8>) -> Option<u64> {
    match unsigned_number(s) {
        Some(n) => if n <= u64::MAX {
            Some(n as u64)
        } else {
            None
        },
        None => None,
    }
}

/// What a link says once one more parameter is read.
pub open spec fn with_parameter(l: Link, part: Seq<u8>) -> Result<Link, TorrentFault> {
    match find_from(part, 0, 0x3d) {
        None => Ok(l),
        Some(at) => {
            let key = part.take(at);
            let value = percent_decoded(part.skip(at + 1));
            if !valid_utf8(value) {
                Err(bad_link(utf8_error_text(value)))
            } else if key == encode_utf8("xt"@) {
                if starts_with(value, topic_prefix()) {
                    match digest_in(value.skip(topic_prefix().len() as int)) {
                        Err(f) => Err(f),
                        Ok(h) => Ok(Link { info_hash: Some(h), ..l }),
                    }
                } else {
                    Ok(l)
                }
            } else if key == encode_utf8("dn"@) {
                Ok(Link { display_name: Some(decode_utf8(value)), ..l })
            } else if key == encode_utf8("tr"@) {
                Ok(Link { trackers: l.trackers.push(decode_utf8(value)), ..l })
            } else if key == encode_utf8("xl"@) {
                Ok(Link { size_hint: size_in(value), ..l })
            } else {
                Ok(l)
            }
        },
    }
}

/// What a link says once the parameters from `start` on are read.
pub open spec fn with_parameters(l: Link, q: Seq<u8>, start: int) -> Result<Link, TorrentFault>
    decreases q.len() - start,
{
    if start < 0 || start > q.len() {
        Ok(l)
    } else {
        match find_from(q, start, 0x26) {
            Some(end) => match with_parameter(l, q.subrange(start, end)) {
                Err(f) => Err(f),
                Ok(m) => if end < start || end >= q.len() {
                    Ok(m)
                } else {
                    with_parameters(m, q, end + 1)
                },
            },
            None => with_parameter(l, q.subrange(start, q.len() as int)),
        }
    }
}

/// A link that says nothing.
pub open spec fn empty_link() -> Link {
    Link { info_hash: None, display_name: None, trackers: Seq::empty(), size_hint: None }
}

/// What a magnet link says.
pub open spec fn link_in(uri: Seq<u8>) -> Result<Link, TorrentFault> {
    let prefix = encode_utf8("magnet:?"@);
    if !starts_with(uri, prefix) {
        Err(bad_link("Not a magnet URI"@))
    } else {
        match with_parameters(empty_link(), uri.skip(prefix.len() as int), 0) {
            Err(f) => Err(f),
            Ok(l) => if l.info_hash is None {
                Err(bad_link("Missing xt=urn:btih: parameter"@))
            } else {
                Ok(l)
            },
        }
    }
}

/// The part of a link that was read.
struct Draft {
    info_hash: Option<[u8; 20]>,
    display_name: Option<String>,
    trackers: Vec<String>,
    size_hint: Option<u64>,
}

impl View for Draft {
    type V = Link;

    closed spec fn view(&self) -> Link {
        Link {
            info_hash: match self.info_hash {
                Some(h) => Some(h@),
                None => None,
            },
            display_name: text_option(self.display_name),
            trackers: texts(self.trackers@),
            size_hint: self.size_hint,
        }
    }
}

/// Whether bytes start with others, and where they do what follows.
pub(crate) fn after_prefix<'a>(s: &'a [u8], p: &[u8]) -> (r: Option<&'a [u8]>)
    ensures
        match r {
            Some(t) => starts_with(s@, p@) && t@ == s@.skip(p@.len() as int),
            None => !starts_with(s@, p@),
        },
{
    if p.len() > s.len() {
        return None;
    }
    let head: &[u8] = vstd::slice::slice_subrange(s, 0, p.len());
    assert(head@ =~= s@.take(p@.len() as int));
    if !same_bytes(head, p) {
        return None;
    }
    let tail: &'a [u8] = vstd::slice::slice_subrange(s, p.len(), s.len());
    assert(tail@ =~= s@.skip(p@.len() as int));
    Some(tail)
}

proof fn lemma_skip_ascii(b: Seq<u8>, n: nat)
    requires
        valid_utf8(b),
        n <= b.len(),
        forall|i: int| 0 <= i < n ==> #[trigger] b[i] < 0x80,
    ensures
        valid_utf8(b.skip(n as int)),
    decreases n,
{
    if n == 0 {
        assert(b.skip(0) =~= b);
    } else {
        let c = b.skip(1);
        let b0 = b[0];
        assert(b0 < 0x80);
        assert(b0 & 0x80 == 0) by (bit_vector)
            requires
                b0 < 0x80,
        ;
        assert(vstd::utf8::is_leading_byte_width_1(b[0]));
        assert(vstd::utf8::pop_first_scalar(b) =~= c);
        assert(valid_utf8(c));
        assert forall|i: int| 0 <= i < n - 1 implies #[trigger] c[i] < 0x80 by {
            assert(c[i] == b[i + 1]);
        }
        lemma_skip_ascii(c, (n - 1) as nat);
        assert(c.skip(n - 1) =~= b.skip(n as int));
    }
}

proof fn lemma_topic_prefix()
    ensures
        topic_prefix().len() == 9,
        forall|i: int| 0 <= i < 9 ==> #[trigger] topic_prefix()[i] < 0x80,
{
    reveal_strlit("urn:btih:");
    let t = "urn:btih:"@;
    assert(vstd::utf8::is_ascii_chars(t)) by {
        assert forall|i: int| 0 <= i < t.len() implies '\0' <= #[trigger] t[i] <= '\u{7f}' by {}
    }
    vstd::utf8::is_ascii_chars_encode_utf8(t);
    assert(topic_prefix() =~= Seq::new(t.len(), |i: int| t[i] as u8));
}

fn read_digest(s: &[u8]) -> (r: Result<[u8; 20], TorrentError>)
    requires
        valid_utf8(s@),
    ensures
        match digest_in(s@) {
            Ok(h) => r matches Ok(v) && v@ == h,
            Err(f) => r matches Err(e) && e@ == f,
        },
{
    let bytes: Vec<u8> = if s.len() == 40 {
        match hex_decode(s) {
            Ok(b) => b,
            Err(t) => {
                return Err(TorrentError::MagnetError(t));
            },
        }
    } else if s.len() == 32 {
        match decode_text(s) {
            Ok(t) => {
                proof {
                    vstd::utf8::encode_utf8_decode_utf8(t@);
                }
                base32_decode(t.as_str())?
            },
            Err(t) => Vec::new(),
        }
    } else {
        let mut m: String = "Invalid info hash length: ".to_owned();
        push_decimal(&mut m, s.len() as u64);
        return Err(TorrentError::MagnetError(m));
    };
    if bytes.len() != 20 {
        return Err(bad_magnet("Info hash must be 20 bytes"));
    }
    let h: [u8; 20] = array20(bytes.as_slice(), 0);
    assert(h@ =~= bytes@);
    Ok(h)
}

fn read_parameter(l: &mut Draft, part: &[u8]) -> (r: Result<(), TorrentError>)
    ensures
        match with_parameter(old(l)@, part@) {
            Ok(m) => r is Ok && final(l)@ == m,
            Err(f) => r matches Err(e) && e@ == f,
        },
{
    let at: usize = match find_byte(part, 0, 0x3d) {
        None => {
            return Ok(());
        },
        Some(i) => i,
    };
    assert(at < part.len());
    let key: &[u8] = vstd::slice::slice_subrange(part, 0, at);
    let raw: &[u8] = vstd::slice::slice_subrange(part, at + 1, part.len());
    assert(key@ =~= part@.take(at as int));
    assert(raw@ =~= part@.skip(at + 1));
    let value: Vec<u8> = percent_decode(raw);
    let text: String = match decode_text(value.as_slice()) {
        Ok(t) => t,
        Err(m) => {
            return Err(TorrentError::MagnetError(m));
        },
    };
    proof {
        vstd::utf8::encode_utf8_decode_utf8(text@);
    }
    if same_bytes(key, "xt".as_bytes()) {
        match after_prefix(value.as_slice(), "urn:btih:".as_bytes()) {
            None => {},
            Some(rest) => {
                proof {
                    lemma_topic_prefix();
                    assert forall|i: int| 0 <= i < 9 implies #[trigger] value@[i] < 0x80 by {
                        assert(value@.take(9)[i] == topic_prefix()[i]);
                    }
                    lemma_skip_ascii(value@, 9);
                }
                let h: [u8; 20] = read_digest(rest)?;
                l.info_hash = Some(h);
            },
        }
    } else if same_bytes(key, "dn".as_bytes()) {
        l.display_name = Some(text);
    } else if same_bytes(key, "tr".as_bytes()) {
        let ghost before = l.trackers@;
        l.trackers.push(text);
        assert(texts(l.trackers@) =~= texts(before).push(text@));
    } else if same_bytes(key, "xl".as_bytes()) {
        l.size_hint = parse_unsigned(value.as_slice(), u64::MAX);
    }
    Ok(())
}

impl MagnetLink {
    /// Reads a magnet link.
    pub fn parse(uri: &str) -> (r: Result<MagnetLink, TorrentError>)
        ensures
            match link_in(encode_utf8(uri@)) {
                Ok(l) => r matches Ok(v) && v@ == l,
                Err(f) => r matches Err(e) && e@ == f,
            },
    {
        let query: &[u8] = match after_prefix(uri.as_bytes(), "magnet:?".as_bytes()) {
            None => {
                return Err(bad_magnet("Not a magnet URI"));
            },
            Some(q) => q,
        };
        let ghost q = query@;
        let mut l: Draft = Draft {
            info_hash: None,
            display_name: None,
            trackers: Vec::new(),
            size_hint: None,
        };
        let mut start: usize = 0;
        let mut more: bool = true;
        assert(texts(l.trackers@) =~= Seq::<Seq<char>>::empty());
        assert(l@ == empty_link());
        while more
            invariant
                q == query@,
                q == encode_utf8(uri@).skip(encode_utf8("magnet:?"@).len() as int),
                starts_with(encode_utf8(uri@), encode_utf8("magnet:?"@)),
                start <= q.len(),
                more ==> with_parameters(empty_link(), q, 0) == with_parameters(
                    l@,
                    q,
                    start as int,
                ),
                !more ==> with_parameters(empty_link(), q, 0) == Ok::<Link, TorrentFault>(l@),
            decreases (if more { 1int } else { 0int }), q.len() - start,
        {
            match find_byte(query, start, 0x26) {
                Some(end) => {
                    assert(end < query.len());
                    let part: &[u8] = vstd::slice::slice_subrange(query, start, end);
                    read_parameter(&mut l, part)?;
                    start = end + 1;
                },
                None => {
                    let part: &[u8] = vstd::slice::slice_subrange(query, start, query.len());
                    read_parameter(&mut l, part)?;
                    more = false;
                },
            }
        }
        match l.info_hash {
            None => Err(bad_magnet("Missing xt=urn:btih: parameter")),
            Some(info_hash) => Ok(
                MagnetLink {
                    info_hash,
                    display_name: l.display_name,
                    trackers: l.trackers,
                    size_hint: l.size_hint,
                },
            ),
        }
    }

    /// The digest that names the torrent, in hexadecimal.
    pub fn info_hash_hex(&self) -> (r: String)
        ensures
            r@ == hex_text(self.info_hash@),
    {
        hex_encode(self.info_hash.as_slice())
    }
}

/// The torrent that a link names, as far as the link tells.
pub open spec fn meta_of_link(l: Link) -> Meta {
    Meta {
        info_hash: l.info_hash->0,
        name: match l.display_name {
            Some(n) => n,
            None => hex_text(l.info_hash->0),
        },
        total_size: match l.size_hint {
            Some(n) => n,
            None => 0,
        },
        piece_length: 0,
        piece_count: 0,
        pieces: Seq::empty(),
        announce: if l.trackers.len() > 0 {
            Some(l.trackers[0])
        } else {
            None
        },
        announce_list: seq![l.trackers],
        files: Seq::empty(),
        created_at: None,
        comment: None,
        is_private: false,
    }
}

/// A copy of texts.
pub(crate) fn copy_texts(v: &Vec<String>) -> (r: Vec<String>)
    ensures
        texts(r@) == texts(v@),
{
    let mut r: Vec<String> = Vec::new();
    let mut i: usize = 0;
    while i < v.len()
        invariant
            i <= v@.len(),
            r@.len() == i,
            forall|k: int| 0 <= k < i ==> (#[trigger] r@[k])@ == v@[k]@,
        decreases v@.len() - i,
    {
        r.push(v[i].clone());
        i = i + 1;
    }
    assert(texts(r@) =~= texts(v@));
    r
}

impl Metainfo {
    /// The torrent that a link names, as far as the link tells: its pieces and files are fetched
    /// from peers.
    pub fn from_magnet_link(magnet: &MagnetLink) -> (m: Metainfo)
        ensures
            m@ == meta_of_link(magnet@),
    {
        let mut list: Vec<Vec<String>> = Vec::new();
        list.push(copy_texts(&magnet.trackers));
        let m: Metainfo = Metainfo {
            info_hash: magnet.info_hash,
            name: match &magnet.display_name {
                Some(n) => n.clone(),
                None => hex_encode(magnet.info_hash.as_slice()),
            },
            total_size: match magnet.size_hint {
                Some(n) => n,
                None => 0,
            },
            piece_length: 0,
            piece_count: 0,
            pieces: Vec::new(),
            announce: if magnet.trackers.len() > 0 {
                Some(magnet.trackers[0].clone())
            } else {
                None
            },
            announce_list: list,
            files: Vec::new(),
            created_at: None,
            comment: None,
            is_private: false,
        };
        assert(digests(m.pieces@) =~= Seq::<Seq<u8>>::empty());
        assert(file_views(m.files@) =~= Seq::<File>::empty());
        assert(tiers(m.announce_list@) =~= seq![texts(magnet.trackers@)]);
        m
    }
}

} // verus!
