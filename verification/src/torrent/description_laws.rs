//! What holds of torrent files, of magnet links, and of descriptions that are fetched from peers.
use crate::bytes::be_digits;
use crate::bytes::be_value;
use crate::bytes::find_from;
use crate::bytes::lemma_be_roundtrip;
use crate::bytes::pow256;
use crate::text::hex_text;
use crate::text::lossy_text;
use crate::torrent::bencode::Tree;
use crate::torrent::error::TorrentFault;
use crate::torrent::magnet::base32_bytes;
use crate::torrent::magnet::base32_digit;
use crate::torrent::magnet::base32_value;
use crate::torrent::magnet::digest_in;
use crate::torrent::magnet::empty_link;
use crate::torrent::magnet::first_stranger;
use crate::torrent::magnet::link_in;
use crate::torrent::magnet::meta_of_link;
use crate::torrent::magnet::percent_decoded;
use crate::torrent::magnet::size_in;
use crate::torrent::magnet::with_parameter;
use crate::torrent::magnet::with_parameters;
use crate::torrent::magnet::Link;
use crate::torrent::metadata::address_of;
use crate::torrent::metadata::piece_of;
use crate::torrent::metadata_fetch::ask_for_part;
use crate::torrent::metadata_fetch::fetch_after;
use crate::torrent::metadata_fetch::greeted;
use crate::torrent::metadata_fetch::greeting_facts;
use crate::torrent::metadata_fetch::part_count;
use crate::torrent::metadata_fetch::with_part;
use crate::torrent::metadata_fetch::Doing;
use crate::torrent::metadata_fetch::Fetch;
use crate::torrent::metadata_fetch::FetchStage;
use crate::torrent::metadata_fetch::GREETING_TRIES;
use crate::torrent::metadata_fetch::METADATA_PART;
use crate::torrent::metadata_fetch::PART_TRIES;
use crate::torrent::metainfo::announce_tiers;
use crate::torrent::metainfo::creation_date;
use crate::torrent::metainfo::described;
use crate::torrent::metainfo::entry;
use crate::torrent::metainfo::files_of;
use crate::torrent::metainfo::files_upto;
use crate::torrent::metainfo::groups_of_twenty;
use crate::torrent::metainfo::metainfo_of;
use crate::torrent::metainfo::natural_entry;
use crate::torrent::metainfo::path_entry;
use crate::torrent::metainfo::path_upto;
use crate::torrent::metainfo::pieces_needed;
use crate::torrent::metainfo::pieces_of;
use crate::torrent::metainfo::private_flag;
use crate::torrent::metainfo::size_sum;
use crate::torrent::metainfo::text_entry;
use crate::torrent::metainfo::texts_upto;
use crate::torrent::metainfo::tiers_upto;
use crate::torrent::metainfo::File;
use crate::torrent::peer_wire::Message;
use vstd::arithmetic::power2::pow2;
use vstd::prelude::*;
use vstd::string::*;
use vstd::utf8::decode_utf8;
use vstd::utf8::encode_utf8;
use vstd::utf8::valid_utf8;

verus! {

// ---- torrent files ----

/// A text under a name is given exactly if there are bytes and they are text; a natural number
/// exactly if there is a number that is not negative.
pub proof fn law_entries(t: Tree, name: Seq<char>, b: Seq<u8>, n: i64)
    ensures
        entry(t, name) == Some(Tree::Bytes(b)) && valid_utf8(b) ==> text_entry(t, name) == Ok::<
            Seq<char>,
            TorrentFault,
        >(decode_utf8(b)),
        entry(t, name) == Some(Tree::Bytes(b)) && !valid_utf8(b) ==> text_entry(t, name) is Err,
        entry(t, name) == Some(Tree::Int(n)) && n >= 0 ==> natural_entry(t, name) == Ok::<
            u64,
            TorrentFault,
        >(n as u64),
        entry(t, name) == Some(Tree::Int(n)) && n < 0 ==> natural_entry(t, name) is Err,
        entry(t, name) is None ==> text_entry(t, name) is Err && natural_entry(t, name) is Err
            && path_entry(t, name) is Err,
        entry(t, name) == Some(Tree::Int(n)) ==> text_entry(t, name) is Err,
        entry(t, name) == Some(Tree::Bytes(b)) ==> natural_entry(t, name) is Err,
        t !is Dict ==> entry(t, name) is None,
{
}

proof fn lemma_paths_read(s: Seq<Tree>, p: Seq<Seq<char>>, n: nat)
    requires
        n <= s.len(),
        s.len() == p.len(),
        forall|i: int| 0 <= i < s.len() ==> (#[trigger] s[i]) == Tree::Bytes(encode_utf8(p[i])),
    ensures
        path_upto(s, n) == Ok::<Seq<Seq<char>>, TorrentFault>(p.take(n as int)),
    decreases n,
{
    if n > 0 {
        lemma_paths_read(s, p, (n - 1) as nat);
        assert(s[n - 1] == Tree::Bytes(encode_utf8(p[n - 1])));
        vstd::utf8::encode_utf8_valid_utf8(p[n - 1]);
        vstd::utf8::encode_utf8_decode_utf8(p[n - 1]);
        assert(p.take(n as int) =~= p.take(n - 1).push(p[n - 1]));
    } else {
        assert(p.take(0) =~= Seq::empty());
    }
}

/// A path is read back part by part.
pub proof fn law_paths_are_read_back(s: Seq<Tree>, p: Seq<Seq<char>>)
    requires
        s.len() == p.len(),
        forall|i: int| 0 <= i < s.len() ==> (#[trigger] s[i]) == Tree::Bytes(encode_utf8(p[i])),
    ensures
        path_upto(s, s.len()) == Ok::<Seq<Seq<char>>, TorrentFault>(p),
{
    lemma_paths_read(s, p, s.len());
    assert(p.take(s.len() as int) =~= p);
}

proof fn lemma_bad_path(s: Seq<Tree>, k: int, n: nat)
    requires
        0 <= k < n <= s.len(),
        !(s[k] matches Tree::Bytes(b) && valid_utf8(b)),
    ensures
        path_upto(s, n) is Err,
    decreases n,
{
    if k < n - 1 {
        lemma_bad_path(s, k, (n - 1) as nat);
    }
}

/// A path with a part that is no text is refused.
pub proof fn law_bad_paths_are_refused(s: Seq<Tree>, k: int)
    requires
        0 <= k < s.len(),
        !(s[k] matches Tree::Bytes(b) && valid_utf8(b)),
    ensures
        path_upto(s, s.len()) is Err,
{
    lemma_bad_path(s, k, s.len());
}

/// The sum of the lengths of files.
pub open spec fn sum_of_lengths(files: Seq<File>) -> int
    decreases files.len(),
{
    if files.len() == 0 {
        0
    } else {
        sum_of_lengths(files.drop_last()) + files.last().length
    }
}

proof fn lemma_lengths(files: Seq<File>)
    ensures
        sum_of_lengths(files) >= 0,
    decreases files.len(),
{
    if files.len() > 0 {
        lemma_lengths(files.drop_last());
    }
}

proof fn lemma_files(s: Seq<Tree>, n: nat)
    requires
        n <= s.len(),
        files_upto(s, n) is Ok,
    ensures
        ({
            let (files, total) = files_upto(s, n)->Ok_0;
            &&& sum_of_lengths(files) <= u64::MAX ==> total == sum_of_lengths(files)
            &&& sum_of_lengths(files) > u64::MAX ==> total == u64::MAX
            &&& (forall|i: int| 0 <= i < n ==> (#[trigger] s[i]) is Dict) ==> files.len() == n
                && forall|i: int|
                    0 <= i < n ==> natural_entry(s[i], "length"@) == Ok::<u64, TorrentFault>(
                        (#[trigger] files[i]).length,
                    ) && path_entry(s[i], "path"@) == Ok::<Seq<Seq<char>>, TorrentFault>(files[i].path)
        }),
    decreases n,
{
    if n > 0 {
        lemma_files(s, (n - 1) as nat);
        let (before, sum) = files_upto(s, (n - 1) as nat)->Ok_0;
        let (files, total) = files_upto(s, n)->Ok_0;
        lemma_lengths(before);
        if s[n - 1] is Dict {
            assert(files.drop_last() =~= before);
            assert(sum_of_lengths(files) == sum_of_lengths(before) + files.last().length);
            if forall|i: int| 0 <= i < n ==> (#[trigger] s[i]) is Dict {
                assert forall|i: int| 0 <= i < n implies natural_entry(s[i], "length"@) == Ok::<
                    u64,
                    TorrentFault,
                >((#[trigger] files[i]).length) && path_entry(s[i], "path"@) == Ok::<
                    Seq<Seq<char>>,
                    TorrentFault,
                >(files[i].path) by {
                    if i < n - 1 {
                        assert(files[i] == before[i]);
                    }
                }
            }
        } else {
            assert(!(s[n - 1] is Dict));
        }
    }
}

/// The files of a torrent are those of its list, each with its length and path, in their order. The
/// size of the torrent is the sum of their lengths.
pub proof fn law_files_of_a_list(s: Seq<Tree>)
    requires
        files_upto(s, s.len()) is Ok,
    ensures
        ({
            let (files, total) = files_upto(s, s.len())->Ok_0;
            &&& sum_of_lengths(files) <= u64::MAX ==> total == sum_of_lengths(files)
            &&& sum_of_lengths(files) > u64::MAX ==> total == u64::MAX
            &&& (forall|i: int| 0 <= i < s.len() ==> (#[trigger] s[i]) is Dict) ==> files.len() == s.len()
                && forall|i: int|
                    0 <= i < s.len() ==> natural_entry(s[i], "length"@) == Ok::<u64, TorrentFault>(
                        (#[trigger] files[i]).length,
                    ) && path_entry(s[i], "path"@) == Ok::<Seq<Seq<char>>, TorrentFault>(files[i].path)
        }),
{
    lemma_files(s, s.len());
}

/// A torrent without a list is one file of its name and length.
pub proof fn law_torrent_of_one_file(info: Tree, name: Seq<char>, length: u64)
    requires
        entry(info, "files"@) is None,
        natural_entry(info, "length"@) == Ok::<u64, TorrentFault>(length),
    ensures
        files_of(info, name) is Ok,
        ({
            let (files, total) = files_of(info, name)->Ok_0;
            &&& total == length
            &&& files.len() == 1 && files[0].length == length && files[0].path == seq![name]
        }),
{
}

/// A torrent has as many pieces as it takes to cover its size, and not one more.
pub proof fn law_pieces_cover_the_size(total: u64, piece: u64)
    requires
        piece > 0,
    ensures
        pieces_needed(total, piece) * piece >= total,
        total > 0 ==> (pieces_needed(total, piece) - 1) * piece < total,
        total == 0 ==> pieces_needed(total, piece) == 0,
{
    let t = total as int;
    let p = piece as int;
    let q = t / p;
    let r = t % p;
    vstd::arithmetic::div_mod::lemma_fundamental_div_mod(t, p);
    assert(t == p * q + r);
    assert(0 <= r < p);
    assert(q * p == p * q) by (nonlinear_arith);
    assert((q + 1) * p == p * q + p) by (nonlinear_arith);
    assert((q - 1) * p == p * q - p) by (nonlinear_arith);
    if t == 0 {
        assert(q == 0 && r == 0) by (nonlinear_arith)
            requires
                t == p * q + r,
                t == 0,
                0 <= r < p,
        ;
    }
}

/// The digests are the bytes in groups of twenty, none left out.
pub proof fn law_digests_in_groups(b: Seq<u8>, k: int)
    requires
        b.len() % 20 == 0,
        0 <= k < b.len(),
    ensures
        20 * groups_of_twenty(b).len() == b.len(),
        groups_of_twenty(b)[k / 20].len() == 20,
        groups_of_twenty(b)[k / 20][k % 20] == b[k],
{
    assert(20 * (k / 20) + k % 20 == k);
}

/// Digests are read exactly if there are bytes of a length that twenty divides.
pub proof fn law_when_digests_are_read(info: Tree)
    ensures
        pieces_of(info) is Ok <==> (entry(info, "pieces"@) matches Some(Tree::Bytes(b)) && b.len() % 20
            == 0),
        entry(info, "pieces"@) matches Some(Tree::Bytes(b)) ==> b.len() % 20 == 0 ==> pieces_of(info)
            == Ok::<Seq<Seq<u8>>, TorrentFault>(groups_of_twenty(b)),
{
}

/// The texts among the items of a list, and the lists that hold a text.
pub proof fn law_tiers_of_trackers(s: Seq<Tree>, t: Tree)
    ensures
        texts_upto(Seq::empty(), 0) == Seq::<Seq<char>>::empty(),
        texts_upto(s.push(t), s.len() + 1) == texts_upto(s, s.len()) + (match t {
            Tree::Bytes(b) => if valid_utf8(b) {
                seq![decode_utf8(b)]
            } else {
                Seq::empty()
            },
            _ => Seq::empty(),
        }),
        tiers_upto(Seq::empty(), 0) == Seq::<Seq<Seq<char>>>::empty(),
        tiers_upto(s.push(t), s.len() + 1) == tiers_upto(s, s.len()) + (match t {
            Tree::List(u) => if texts_upto(u, u.len()).len() > 0 {
                seq![texts_upto(u, u.len())]
            } else {
                Seq::empty()
            },
            _ => Seq::empty(),
        }),
{
    lemma_list_prefix(s, t, s.len());
    assert(texts_upto(s.push(t), s.len() + 1) =~= texts_upto(s, s.len()) + (match t {
        Tree::Bytes(b) => if valid_utf8(b) {
            seq![decode_utf8(b)]
        } else {
            Seq::empty()
        },
        _ => Seq::empty(),
    }));
    assert(tiers_upto(s.push(t), s.len() + 1) =~= tiers_upto(s, s.len()) + (match t {
        Tree::List(u) => if texts_upto(u, u.len()).len() > 0 {
            seq![texts_upto(u, u.len())]
        } else {
            Seq::empty()
        },
        _ => Seq::empty(),
    }));
}

proof fn lemma_list_prefix(s: Seq<Tree>, t: Tree, n: nat)
    requires
        n <= s.len(),
    ensures
        texts_upto(s.push(t), n) == texts_upto(s, n),
        tiers_upto(s.push(t), n) == tiers_upto(s, n),
    decreases n,
{
    if n > 0 {
        lemma_list_prefix(s, t, (n - 1) as nat);
    }
}

/// A torrent is private exactly if its flag is one; its date is the number that stands there; its
/// tiers are those of its list.
pub proof fn law_marks_of_a_torrent(info: Tree, t: Tree, n: i64)
    ensures
        private_flag(info) <==> entry(info, "private"@) == Some(Tree::Int(1)),
        entry(t, "creation date"@) == Some(Tree::Int(n)) && n >= 0 ==> creation_date(t) == Some(n as u64),
        entry(t, "creation date"@) is None ==> creation_date(t) is None,
        entry(t, "announce-list"@) matches Some(Tree::List(s)) ==> announce_tiers(t) == tiers_upto(
            s,
            s.len(),
        ),
        entry(t, "announce-list"@) is None ==> announce_tiers(t).len() == 0,
{
}

/// What is read of a torrent file is what it says: its name, piece length, files, trackers, comment,
/// and digests, as many as its size needs.
pub proof fn law_what_a_torrent_says(data: Seq<u8>, t: Tree)
    requires
        metainfo_of(data, t) is Ok,
    ensures
        ({
            let m = metainfo_of(data, t)->Ok_0;
            let info = entry(t, "info"@)->0;
            &&& t is Dict && entry(t, "info"@) is Some && info is Dict
            &&& text_entry(info, "name"@) == Ok::<Seq<char>, TorrentFault>(m.name)
            &&& natural_entry(info, "piece length"@) == Ok::<u64, TorrentFault>(m.piece_length)
            &&& m.piece_length > 0
            &&& files_of(info, m.name) == Ok::<(Seq<File>, u64), TorrentFault>((m.files, m.total_size))
            &&& pieces_of(info) == Ok::<Seq<Seq<u8>>, TorrentFault>(m.pieces)
            &&& m.pieces.len() == m.piece_count
            &&& entry(t, "announce"@) is None ==> m.announce is None
            &&& entry(t, "announce"@) matches Some(Tree::Bytes(b)) ==> valid_utf8(b) ==> m.announce
                == Some(decode_utf8(b))
            &&& entry(t, "comment"@) is None ==> m.comment is None
            &&& entry(t, "comment"@) matches Some(Tree::Bytes(b)) ==> valid_utf8(b) ==> m.comment
                == Some(decode_utf8(b))
            &&& m.announce_list == announce_tiers(t)
            &&& m.created_at == creation_date(t)
            &&& m.is_private == private_flag(info)
            &&& exists|a: int, b: int|
                crate::torrent::info_span::info_span(data) == Ok::<(int, int), TorrentFault>((a, b))
                    && m.info_hash == crate::crypto::sha1_of(#[trigger] data.subrange(a, b))
        }),
{
    let (a, b) = crate::torrent::info_span::info_span(data)->Ok_0;
    assert(crate::torrent::info_span::info_span(data) == Ok::<(int, int), TorrentFault>((a, b)));
    let m = metainfo_of(data, t)->Ok_0;
    assert(m.info_hash == crate::crypto::sha1_of(data.subrange(a, b)));
}

/// A torrent is described exactly if its pieces can be counted in 32 bits and it has a digest for
/// each.
pub proof fn law_when_a_torrent_is_described(
    t: Tree,
    info: Tree,
    hash: Seq<u8>,
    name: Seq<char>,
    piece: u64,
    files: Seq<File>,
    total: u64,
)
    requires
        piece > 0,
    ensures
        described(t, info, hash, name, piece, files, total) is Ok <==> pieces_needed(total, piece)
            <= 0xffff_ffff && pieces_of(info) is Ok && pieces_of(info)->Ok_0.len() == pieces_needed(
            total,
            piece,
        ),
        described(t, info, hash, name, piece, files, total) matches Ok(m) ==> m.info_hash == hash && m.name
            == name && m.total_size == total && m.files == files && m.piece_length == piece,
{
}

/// Sizes add up, and stop at the largest number.
pub proof fn law_sizes_add_up(a: u64, b: u64)
    ensures
        a + b <= u64::MAX ==> size_sum(a, b) == a + b,
        a + b > u64::MAX ==> size_sum(a, b) == u64::MAX,
{
}

// ---- magnet links ----

/// The digits of base 32 are the letters and the digits from two to seven, in this order.
pub proof fn law_base32_digits(c: u8, d: nat)
    ensures
        d < 32 ==> base32_digit("ABCDEFGHIJKLMNOPQRSTUVWXYZ234567"@[d as int] as u8) == Some(d),
        base32_digit(c) matches Some(v) ==> v < 32 && "ABCDEFGHIJKLMNOPQRSTUVWXYZ234567"@[v as int] as u8
            == c,
{
    reveal_strlit("ABCDEFGHIJKLMNOPQRSTUVWXYZ234567");
}

proof fn lemma_no_stranger(s: Seq<u8>, i: int)
    requires
        0 <= i <= s.len(),
        forall|k: int| 0 <= k < s.len() ==> base32_digit(#[trigger] s[k]) is Some,
    ensures
        first_stranger(s, i) == s.len(),
    decreases s.len() - i,
{
    if i < s.len() {
        assert(base32_digit(s[i]) is Some);
        lemma_no_stranger(s, i + 1);
    }
}

proof fn lemma_stranger(s: Seq<u8>, i: int, k: int)
    requires
        0 <= i <= k < s.len(),
        base32_digit(s[k]) is None,
    ensures
        i <= first_stranger(s, i) <= k,
    decreases k - i,
{
    if i < k && base32_digit(s[i]) is Some {
        lemma_stranger(s, i + 1, k);
    }
}

proof fn lemma_base32_bound(s: Seq<u8>)
    requires
        forall|k: int| 0 <= k < s.len() ==> base32_digit(#[trigger] s[k]) is Some,
    ensures
        base32_value(s) < pow2(5 * s.len()),
    decreases s.len(),
{
    vstd::arithmetic::power2::lemma2_to64();
    if s.len() > 0 {
        let t = s.drop_last();
        assert forall|k: int| 0 <= k < t.len() implies base32_digit(#[trigger] t[k]) is Some by {
            assert(base32_digit(s[k]) is Some);
        }
        lemma_base32_bound(t);
        assert(base32_digit(s[s.len() - 1]) is Some);
        vstd::arithmetic::power2::lemma_pow2_adds(5 * t.len(), 5);
        assert(pow2(5) == 32);
        assert(5 * t.len() + 5 == 5 * s.len());
        assert(pow2(5 * s.len()) == pow2(5 * t.len()) * 32);
    }
}

proof fn lemma_bytes_in_bits(n: nat)
    ensures
        pow256(n) == pow2(8 * n),
    decreases n,
{
    vstd::arithmetic::power2::lemma2_to64();
    if n > 0 {
        lemma_bytes_in_bits((n - 1) as nat);
        vstd::arithmetic::power2::lemma_pow2_adds((8 * (n - 1)) as nat, 8);
        assert(pow2(8) == 256);
        assert(8 * (n - 1) + 8 == 8 * n);
        assert(pow256(n) == 256 * pow256((n - 1) as nat));
        assert(pow2((8 * (n - 1)) as nat) * 256 == 256 * pow2((8 * (n - 1)) as nat))
            by (nonlinear_arith);
    }
}

/// Digits of base 32 are five bits each, the first the highest: the bytes are those bits in groups of
/// eight, and the bits that are left over are dropped. A character that is no digit is refused.
pub proof fn law_base32_bits(s: Seq<u8>)
    ensures
        (forall|k: int| 0 <= k < s.len() ==> base32_digit(#[trigger] s[k]) is Some) <==> base32_bytes(s)
            is Ok,
        base32_bytes(s) matches Ok(b) ==> {
            let spare = pow2((5 * s.len()) % 8);
            &&& b.len() == 5 * s.len() / 8
            &&& be_value(b) * spare <= base32_value(s) < (be_value(b) + 1) * spare
        },
{
    let n = (5 * s.len()) / 8;
    let r = (5 * s.len()) % 8;
    if forall|k: int| 0 <= k < s.len() ==> base32_digit(#[trigger] s[k]) is Some {
        lemma_no_stranger(s, 0);
        lemma_base32_bound(s);
        let v = base32_value(s) as int;
        let u = pow2(r) as int;
        vstd::arithmetic::power2::lemma_pow2_pos(r);
        vstd::arithmetic::div_mod::lemma_fundamental_div_mod(v, u);
        let q = v / u;
        vstd::arithmetic::power2::lemma_pow2_adds(8 * n, r);
        assert(8 * n + r == 5 * s.len());
        let p = pow2(8 * n) as int;
        assert(v < p * u);
        assert(q < p) by (nonlinear_arith)
            requires
                v < p * u,
                v == u * q + v % u,
                0 <= v % u < u,
                u > 0,
        ;
        assert(q >= 0) by (nonlinear_arith)
            requires
                v >= 0,
                v == u * q + v % u,
                0 <= v % u < u,
                u > 0,
        ;
        lemma_bytes_in_bits(n);
        lemma_be_roundtrip(q as nat, n);
        crate::bytes::lemma_be_digits_len(q as nat, n);
        assert(base32_bytes(s) == Ok::<Seq<u8>, TorrentFault>(be_digits(q as nat, n)));
        assert(q * u == u * q) by (nonlinear_arith);
        assert((q + 1) * u == u * q + u) by (nonlinear_arith);
    } else {
        let k = choose|k: int| 0 <= k < s.len() && base32_digit(#[trigger] s[k]) is None;
        lemma_stranger(s, 0, k);
    }
}

/// The number of base-32 digits has the first digit highest.
pub proof fn law_base32_number(s: Seq<u8>, c: u8)
    requires
        base32_digit(c) is Some,
    ensures
        base32_value(Seq::empty()) == 0,
        base32_value(s.push(c)) == 32 * base32_value(s) + base32_digit(c)->0,
{
    assert(s.push(c).drop_last() =~= s);
}

/// A digest is read from its forty hexadecimal digits; one that is not of forty or thirty-two
/// characters is refused, and so is what is not twenty bytes.
pub proof fn law_digests_in_links(hash: Seq<u8>, s: Seq<u8>)
    ensures
        hash.len() == 20 ==> digest_in(encode_utf8(hex_text(hash))) == Ok::<Seq<u8>, TorrentFault>(hash),
        s.len() != 40 && s.len() != 32 ==> digest_in(s) is Err,
        digest_in(s) matches Ok(b) ==> b.len() == 20,
{
    crate::text::law_hex_roundtrip(hash);
    let t = hex_text(hash);
    assert(vstd::utf8::is_ascii_chars(t)) by {
        assert forall|i: int| 0 <= i < t.len() implies '\0' <= #[trigger] t[i] <= '\u{7f}' by {}
    }
    vstd::utf8::is_ascii_chars_encode_utf8(t);
}

/// A size is a number of 64 bits.
pub proof fn law_sizes_in_links(n: nat)
    ensures
        n <= 0xffff_ffff_ffff_ffff ==> size_in(encode_utf8(crate::text::decimal(n))) == Some(n as u64),
        n > 0xffff_ffff_ffff_ffff ==> size_in(encode_utf8(crate::text::decimal(n))) is None,
{
    crate::text::law_decimal_roundtrip(n);
}

proof fn lemma_split_at(part: Seq<u8>, at: int, b: u8, i: int)
    requires
        0 <= i <= at < part.len(),
        part[at] == b,
        forall|k: int| 0 <= k < at ==> #[trigger] part[k] != b,
    ensures
        find_from(part, i, b) == Some(at),
    decreases at - i,
{
    if i < at {
        assert(part[i] != b);
        lemma_split_at(part, at, b, i + 1);
    }
}

proof fn lemma_short_names()
    ensures
        encode_utf8("xt"@) == seq![0x78u8, 0x74],
        encode_utf8("dn"@) == seq![0x64u8, 0x6e],
        encode_utf8("tr"@) == seq![0x74u8, 0x72],
        encode_utf8("xl"@) == seq![0x78u8, 0x6c],
        encode_utf8("urn:btih:"@) == seq![0x75u8, 0x72, 0x6e, 0x3a, 0x62, 0x74, 0x69, 0x68, 0x3a],
        encode_utf8("magnet:?"@) == seq![0x6du8, 0x61, 0x67, 0x6e, 0x65, 0x74, 0x3a, 0x3f],
{
    reveal_strlit("xt");
    reveal_strlit("dn");
    reveal_strlit("tr");
    reveal_strlit("xl");
    reveal_strlit("urn:btih:");
    reveal_strlit("magnet:?");
    vstd::utf8::is_ascii_chars_encode_utf8("xt"@);
    vstd::utf8::is_ascii_chars_encode_utf8("dn"@);
    vstd::utf8::is_ascii_chars_encode_utf8("tr"@);
    vstd::utf8::is_ascii_chars_encode_utf8("xl"@);
    vstd::utf8::is_ascii_chars_encode_utf8("urn:btih:"@);
    vstd::utf8::is_ascii_chars_encode_utf8("magnet:?"@);
    assert(encode_utf8("xt"@) =~= seq![0x78u8, 0x74]);
    assert(encode_utf8("dn"@) =~= seq![0x64u8, 0x6e]);
    assert(encode_utf8("tr"@) =~= seq![0x74u8, 0x72]);
    assert(encode_utf8("xl"@) =~= seq![0x78u8, 0x6c]);
    assert(encode_utf8("urn:btih:"@) =~= seq![0x75u8, 0x72, 0x6e, 0x3a, 0x62, 0x74, 0x69, 0x68, 0x3a]);
    assert(encode_utf8("magnet:?"@) =~= seq![0x6du8, 0x61, 0x67, 0x6e, 0x65, 0x74, 0x3a, 0x3f]);
}

/// What parameters say: `dn` names, `tr` adds a tracker behind the others, `xl` tells the size. Each
/// leaves the rest alone, and a name that is not known says nothing.
pub proof fn law_parameters_of_links(l: Link, key: Seq<u8>, value: Seq<u8>)
    requires
        forall|k: int| 0 <= k < key.len() ==> #[trigger] key[k] != 0x3d,
        valid_utf8(percent_decoded(value)),
    ensures
        ({
            let part = key + seq![0x3du8] + value;
            let text = decode_utf8(percent_decoded(value));
            &&& key == seq![0x64u8, 0x6e] ==> with_parameter(l, part) == Ok::<Link, TorrentFault>(
                Link { display_name: Some(text), ..l },
            )
            &&& key == seq![0x74u8, 0x72] ==> with_parameter(l, part) == Ok::<Link, TorrentFault>(
                Link { trackers: l.trackers.push(text), ..l },
            )
            &&& key == seq![0x78u8, 0x6c] ==> with_parameter(l, part) == Ok::<Link, TorrentFault>(
                Link { size_hint: size_in(percent_decoded(value)), ..l },
            )
            &&& key != seq![0x64u8, 0x6e] && key != seq![0x74u8, 0x72] && key != seq![0x78u8, 0x6c] && key
                != seq![0x78u8, 0x74] ==> with_parameter(l, part) == Ok::<Link, TorrentFault>(l)
        }),
{
    let part = key + seq![0x3du8] + value;
    assert forall|k: int| 0 <= k < key.len() implies #[trigger] part[k] != 0x3d by {
        assert(part[k] == key[k]);
    }
    lemma_split_at(part, key.len() as int, 0x3d, 0);
    assert(part.take(key.len() as int) =~= key);
    assert(part.skip((key.len() + 1) as int) =~= value);
    lemma_short_names();
    assert(encode_utf8("xt"@)[0] == 0x78 && encode_utf8("xt"@)[1] == 0x74);
    assert(encode_utf8("dn"@)[0] == 0x64);
    assert(encode_utf8("tr"@)[0] == 0x74);
    assert(encode_utf8("xl"@)[1] == 0x6c);
}

/// The topic of a link names the torrent by its digest, behind `urn:btih:`. Other topics say nothing.
pub proof fn law_topics_of_links(l: Link, value: Seq<u8>, digest: Seq<u8>)
    requires
        valid_utf8(percent_decoded(value)),
    ensures
        ({
            let part = seq![0x78u8, 0x74, 0x3d] + value;
            let v = percent_decoded(value);
            &&& v == encode_utf8("urn:btih:"@) + digest ==> match digest_in(digest) {
                Ok(h) => with_parameter(l, part) == Ok::<Link, TorrentFault>(
                    Link { info_hash: Some(h), ..l },
                ),
                Err(f) => with_parameter(l, part) == Err::<Link, TorrentFault>(f),
            }
            &&& v.len() < 9 || v.take(9) != encode_utf8("urn:btih:"@) ==> with_parameter(l, part) == Ok::<
                Link,
                TorrentFault,
            >(l)
        }),
{
    let part = seq![0x78u8, 0x74, 0x3d] + value;
    lemma_split_at(part, 2, 0x3d, 0);
    assert(part.take(2) =~= seq![0x78u8, 0x74]);
    assert(part.skip(3) =~= value);
    lemma_short_names();
    let p = encode_utf8("urn:btih:"@);
    assert(p.len() == 9);
    let v = percent_decoded(value);
    if v == p + digest {
        assert(v.take(9) =~= p);
        assert(v.skip(9) =~= digest);
    }
}

proof fn lemma_no_sign(q: Seq<u8>, i: int, b: u8)
    requires
        0 <= i <= q.len(),
        forall|k: int| i <= k < q.len() ==> #[trigger] q[k] != b,
    ensures
        find_from(q, i, b) is None,
    decreases q.len() - i,
{
    if i < q.len() {
        assert(q[i] != b);
        lemma_no_sign(q, i + 1, b);
    }
}

proof fn lemma_next_sign(q: Seq<u8>, i: int, at: int, b: u8)
    requires
        0 <= i <= at < q.len(),
        q[at] == b,
        forall|k: int| i <= k < at ==> #[trigger] q[k] != b,
    ensures
        find_from(q, i, b) == Some(at),
    decreases at - i,
{
    if i < at {
        assert(q[i] != b);
        lemma_next_sign(q, i + 1, at, b);
    }
}

/// Parameters are read one after the other: each lies between two `&`, the last reaches to the end.
pub proof fn law_parameters_are_read_in_turn(l: Link, before: Seq<u8>, part: Seq<u8>, rest: Seq<u8>)
    requires
        forall|k: int| 0 <= k < part.len() ==> #[trigger] part[k] != 0x26,
    ensures
        with_parameters(l, before + part, before.len() as int) == with_parameter(l, part),
        with_parameters(l, before + part + seq![0x26u8] + rest, before.len() as int) == (
        match with_parameter(l, part) {
            Ok(m) => with_parameters(
                m,
                before + part + seq![0x26u8] + rest,
                (before.len() + part.len() + 1) as int,
            ),
            Err(f) => Err(f),
        }),
{
    let a = before.len() as int;
    let q = before + part;
    assert forall|k: int| a <= k < q.len() implies #[trigger] q[k] != 0x26 by {
        assert(q[k] == part[k - a]);
    }
    lemma_no_sign(q, a, 0x26);
    assert(q.subrange(a, q.len() as int) =~= part);
    let w = before + part + seq![0x26u8] + rest;
    let at = a + part.len();
    assert forall|k: int| a <= k < at implies #[trigger] w[k] != 0x26 by {
        assert(w[k] == part[k - a]);
    }
    assert(w[at] == 0x26);
    lemma_next_sign(w, a, at, 0x26);
    assert(w.subrange(a, at) =~= part);
}

/// A link is taken exactly if it starts with `magnet:?`, its parameters can be read, and one of them
/// names a torrent.
pub proof fn law_when_a_link_is_taken(q: Seq<u8>, uri: Seq<u8>)
    ensures
        link_in(encode_utf8("magnet:?"@) + q) is Ok <==> (with_parameters(empty_link(), q, 0) matches Ok(l)
            && l.info_hash is Some),
        link_in(encode_utf8("magnet:?"@) + q) is Ok ==> link_in(encode_utf8("magnet:?"@) + q)
            == with_parameters(empty_link(), q, 0),
        uri.len() < 8 || uri.take(8) != encode_utf8("magnet:?"@) ==> link_in(uri) is Err,
        empty_link().info_hash is None && empty_link().display_name is None
            && empty_link().trackers.len() == 0 && empty_link().size_hint is None,
{
    lemma_short_names();
    let p = encode_utf8("magnet:?"@);
    assert(p.len() == 8);
    assert((p + q).take(8) =~= p);
    assert((p + q).skip(8) =~= q);
}

/// A link tells of a torrent its digest, its name or else the digest as text, its size or else zero,
/// and its trackers. Pieces and files are not known.
pub proof fn law_torrent_of_a_link(l: Link, h: Seq<u8>)
    requires
        l.info_hash == Some(h),
    ensures
        ({
            let m = meta_of_link(l);
            &&& m.info_hash == h
            &&& l.display_name matches Some(n) ==> m.name == n
            &&& l.display_name is None ==> m.name == hex_text(h)
            &&& l.size_hint matches Some(n) ==> m.total_size == n
            &&& l.size_hint is None ==> m.total_size == 0
            &&& m.piece_length == 0 && m.piece_count == 0 && m.pieces.len() == 0 && m.files.len() == 0
            &&& l.trackers.len() > 0 ==> m.announce == Some(l.trackers[0])
            &&& l.trackers.len() == 0 ==> m.announce is None
            &&& m.announce_list.len() == 1 && m.announce_list[0] == l.trackers
            &&& m.created_at is None && m.comment is None && !m.is_private
        }),
{
}

// ---- descriptions from peers ----

/// A piece of the description is told by its number and the size of the whole.
pub proof fn law_pieces_of_descriptions(t: Tree, i: i64, n: i64, b: Seq<u8>)
    requires
        0 <= i <= 0xffff_ffff,
        0 <= n,
    ensures
        t is Dict && entry(t, "piece"@) == Some(Tree::Int(i)) && entry(t, "total_size"@) == Some(
            Tree::Int(n),
        ) ==> piece_of(t) == Ok::<(u32, u64), TorrentFault>((i as u32, n as u64)),
        piece_of(t) is Ok <==> t is Dict && (entry(t, "piece"@) matches Some(Tree::Int(_))) && (entry(
            t,
            "total_size"@,
        ) matches Some(Tree::Int(_))),
        address_of(Tree::Bytes(b)) == Ok::<Seq<char>, TorrentFault>(lossy_text(b)),
        address_of(Tree::Int(i)) is Err,
{
}

/// A greeting tells the number of the extension under `m` and the size of the description.
pub proof fn law_what_a_greeting_tells(t: Tree, m: Tree, id: i64, size: i64)
    requires
        0 <= id <= 255,
        0 <= size,
    ensures
        entry(t, "m"@) == Some(m) && entry(m, "ut_metadata"@) == Some(Tree::Int(id)) ==> greeting_facts(t).0
            == Some(id as u8),
        entry(t, "m"@) is None ==> greeting_facts(t).0 is None,
        entry(t, "m"@) == Some(m) && entry(m, "ut_metadata"@) is None ==> greeting_facts(t).0 is None,
        entry(t, "metadata_size"@) == Some(Tree::Int(size)) ==> greeting_facts(t).1 == size,
        entry(t, "metadata_size"@) is None ==> greeting_facts(t).1 == 0,
{
}

/// A description is fetched in parts of 16 KiB, as many as its size takes. Ten messages are read for
/// the greeting and twenty for each part.
pub proof fn law_parts_of_a_description(size: u64)
    requires
        size <= 0xffff_ffff * 16_384,
    ensures
        METADATA_PART == 16 * 1024,
        GREETING_TRIES == 10,
        PART_TRIES == 20,
        part_count(size) * 16_384 >= size,
        size > 0 ==> (part_count(size) - 1) * 16_384 < size,
        size == 0 ==> part_count(size) == 0,
{
    let n = size / 16_384 + (if size % 16_384 > 0 {
        1int
    } else {
        0
    });
    assert(0 <= n <= 0xffff_ffff);
    assert(part_count(size) == n);
}

/// A greeting with a number and a size begins to fetch; one without either ends it.
pub proof fn law_what_follows_a_greeting(f: Fetch, id: u8, size: u64)
    requires
        0 < size <= 0xffff_ffff * 16_384,
    ensures
        greeted(f, (None, size)).1 is Fail,
        greeted(f, (Some(id), 0u64)).1 is Fail,
        greeted(f, (Some(id), size)) == ask_for_part(f, id, size, part_count(size), 0),
        greeted(f, (Some(id), size)).1 == Doing::Send(
            Message::Extended { id, payload: crate::torrent::metadata::request_for(id, 0) },
        ),
{
    law_parts_of_a_description(size);
}

/// Parts are asked for in turn under the number of the extension. After the last one the description
/// is put together.
pub proof fn law_parts_are_asked_for_in_turn(
    f: Fetch,
    id: u8,
    size: u64,
    count: u32,
    part: u32,
    left: u32,
    payload: Seq<u8>,
)
    requires
        f.stage == (FetchStage::Part { id, size, count, part, left }),
    ensures
        ({
            let (next, todo) = fetch_after(f, Message::Extended { id, payload });
            &&& part + 1 < count ==> todo == Doing::Send(
                Message::Extended {
                    id,
                    payload: crate::torrent::metadata::request_for(id, (part + 1) as u32),
                },
            )
            &&& part + 1 < count ==> next.stage == (FetchStage::Part {
                id,
                size,
                count,
                part: (part + 1) as u32,
                left: 20,
            })
            &&& part + 1 >= count ==> next.stage == FetchStage::Over
            &&& next.pieces == with_part(f.pieces, payload)
        }),
        left > 1 ==> fetch_after(f, Message::KeepAlive) == (
            Fetch {
                stage: FetchStage::Part { id, size, count, part, left: (left - 1) as u32 },
                ..f
            },
            Doing::Receive,
        ),
        left <= 1 && part + 1 < count ==> fetch_after(f, Message::KeepAlive).1 == Doing::Send(
            Message::Extended {
                id,
                payload: crate::torrent::metadata::request_for(id, (part + 1) as u32),
            },
        ),
{
}

} // verus!
