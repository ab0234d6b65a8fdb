//! Torrent files.
use crate::bytes::array20;
use crate::crypto::sha1;
use crate::crypto::sha1_of;
use crate::text::byte_list;
use crate::text::decimal;
use crate::text::decode_text;
use crate::text::hex_encode;
use crate::text::hex_text;
use crate::text::push_byte_list;
use crate::text::push_decimal;
use crate::torrent::bencode::bencode_tree;
use crate::torrent::bencode::parse_untrusted;
use crate::torrent::bencode::tree_get;
use crate::torrent::bencode::tree_of;
use crate::torrent::bencode::Bencode;
use crate::torrent::bencode::Tree;
use crate::torrent::bencode_guard::scan_from;
use crate::torrent::bencode_guard::Scan;
use crate::torrent::bencode_guard::MAX_BENCODE_DEPTH;
use crate::torrent::error::bad_metainfo;
use crate::torrent::error::TorrentError;
use crate::torrent::error::TorrentFault;
use crate::torrent::info_span::bad;
use crate::torrent::info_span::find_info_span;
use crate::torrent::info_span::info_span;
use vstd::prelude::*;
use vstd::string::*;
use vstd::utf8::decode_utf8;
use vstd::utf8::encode_utf8;
use vstd::utf8::valid_utf8;

verus! {

/// A file of a torrent.
#[derive(Debug, Clone)]
pub struct TorrentFile {
    /// The parts of its path.
    pub path: Vec<String>,
    /// Its size in bytes.
    pub length: u64,
    /// Its MD5 sum.
    pub md5sum: Option<String>,
}

/// A torrent file.
#[derive(Debug, Clone)]
pub struct Metainfo {
    /// The digest that names the torrent.
    pub info_hash: [u8; 20],
    /// The name of the torrent.
    pub name: String,
    /// The size of all files.
    pub total_size: u64,
    /// The size of a piece.
    pub piece_length: u64,
    /// The number of pieces.
    pub piece_count: u32,
    /// The digest of each piece.
    pub pieces: Vec<[u8; 20]>,
    /// The first tracker.
    pub announce: Option<String>,
    /// The trackers in tiers.
    pub announce_list: Vec<Vec<String>>,
    /// The files.
    pub files: Vec<TorrentFile>,
    /// When the torrent was made.
    pub created_at: Option<u64>,
    /// A comment.
    pub comment: Option<String>,
    /// Whether peers are found through the trackers alone.
    pub is_private: bool,
}

/// Texts as character sequences.
pub open spec fn texts(s: Seq<String>) -> Seq<Seq<char>> {
    s.map_values(|x: String| x@)
}

/// A text that may be absent.
pub open spec fn text_option(s: Option<String>) -> Option<Seq<char>> {
    match s {
        Some(x) => Some(x@),
        None => None,
    }
}

/// A `TorrentFile` over sequences.
#[verifier::ext_equal]
pub struct File {
    pub path: Seq<Seq<char>>,
    pub length: u64,
    pub md5sum: Option<Seq<char>>,
}

/// A `Metainfo` over sequences.
#[verifier::ext_equal]
pub struct Meta {
    pub info_hash: Seq<u8>,
    pub name: Seq<char>,
    pub total_size: u64,
    pub piece_length: u64,
    pub piece_count: u32,
    pub pieces: Seq<Seq<u8>>,
    pub announce: Option<Seq<char>>,
    pub announce_list: Seq<Seq<Seq<char>>>,
    pub files: Seq<File>,
    pub created_at: Option<u64>,
    pub comment: Option<Seq<char>>,
    pub is_private: bool,
}

impl View for TorrentFile {
    type V = File;

    open spec fn view(&self) -> File {
        File {
            path: texts(self.path@),
            length: self.length,
            md5sum: text_option(self.md5sum),
        }
    }
}

/// Digests as byte sequences.
pub open spec fn digests(s: Seq<[u8; 20]>) -> Seq<Seq<u8>> {
    s.map_values(|h: [u8; 20]| h@)
}

/// Tiers of texts as sequences.
pub open spec fn tiers(s: Seq<Vec<String>>) -> Seq<Seq<Seq<char>>> {
    s.map_values(|t: Vec<String>| texts(t@))
}

/// Files as sequences.
pub open spec fn file_views(s: Seq<TorrentFile>) -> Seq<File> {
    s.map_values(|f: TorrentFile| f@)
}

impl View for Metainfo {
    type V = Meta;

    open spec fn view(&self) -> Meta {
        Meta {
            info_hash: self.info_hash@,
            name: self.name@,
            total_size: self.total_size,
            piece_length: self.piece_length,
            piece_count: self.piece_count,
            pieces: digests(self.pieces@),
            announce: text_option(self.announce),
            announce_list: tiers(self.announce_list@),
            files: file_views(self.files@),
            created_at: self.created_at,
            comment: text_option(self.comment),
            is_private: self.is_private,
        }
    }
}

// ---- entries of a dictionary ----

/// The value under a name.
pub open spec fn entry(t: Tree, name: Seq<char>) -> Option<Tree> {
    tree_get(t, encode_utf8(name))
}

/// A fault that tells of a key.
pub open spec fn bad_key(before: Seq<char>, name: Seq<char>, after: Seq<char>) -> TorrentFault {
    bad(before + byte_list(encode_utf8(name)) + after)
}

fn key_error(before: &str, name: &str, after: &str) -> (e: TorrentError)
    ensures
        e@ == bad_key(before@, name@, after@),
{
    let mut m: String = before.to_owned();
    push_byte_list(&mut m, name.as_bytes());
    m.append(after);
    TorrentError::InvalidMetainfo(m)
}

/// The text under a name.
pub open spec fn text_entry(t: Tree, name: Seq<char>) -> Result<Seq<char>, TorrentFault> {
    match entry(t, name) {
        Some(Tree::Bytes(b)) => if valid_utf8(b) {
            Ok(decode_utf8(b))
        } else {
            Err(bad_key("Non-UTF8 value for key "@, name, ""@))
        },
        _ => Err(bad_key("Missing or invalid key "@, name, ""@)),
    }
}

/// The number under a name.
pub open spec fn number_entry(t: Tree, name: Seq<char>) -> Result<i64, TorrentFault> {
    match entry(t, name) {
        Some(Tree::Int(i)) => Ok(i),
        _ => Err(bad_key("Missing or invalid integer key "@, name, ""@)),
    }
}

/// The number that is not negative under a name.
pub open spec fn natural_entry(t: Tree, name: Seq<char>) -> Result<u64, TorrentFault> {
    match number_entry(t, name) {
        Err(f) => Err(f),
        Ok(i) => if i < 0 {
            Err(bad_key("Integer key "@, name, " must be non-negative"@))
        } else {
            Ok(i as u64)
        },
    }
}

/// The first `n` items of a list as texts.
pub open spec fn path_upto(s: Seq<Tree>, n: nat) -> Result<Seq<Seq<char>>, TorrentFault>
    decreases n,
{
    if n == 0 {
        Ok(Seq::empty())
    } else {
        match path_upto(s, (n - 1) as nat) {
            Err(f) => Err(f),
            Ok(p) => match s[n - 1] {
                Tree::Bytes(b) => if valid_utf8(b) {
                    Ok(p.push(decode_utf8(b)))
                } else {
                    Err(bad("Non-UTF8 path component"@))
                },
                _ => Err(bad("Path component is not bytes"@)),
            },
        }
    }
}

/// The texts in the list under a name.
pub open spec fn path_entry(t: Tree, name: Seq<char>) -> Result<Seq<Seq<char>>, TorrentFault> {
    match entry(t, name) {
        Some(Tree::List(s)) => path_upto(s, s.len()),
        _ => Err(bad_key("Missing or invalid list key "@, name, ""@)),
    }
}

/// The text of bytes under a name, where there is one.
pub open spec fn optional_text(t: Tree, name: Seq<char>) -> Option<Seq<char>> {
    match entry(t, name) {
        Some(Tree::Bytes(b)) => if valid_utf8(b) {
            Some(decode_utf8(b))
        } else {
            None
        },
        _ => None,
    }
}

/// Whether a result is what is wanted.
spec fn gives_text(r: Result<String, TorrentError>, want: Result<Seq<char>, TorrentFault>) -> bool {
    match want {
        Ok(s) => r matches Ok(v) && v@ == s,
        Err(f) => r matches Err(e) && e@ == f,
    }
}

fn get_string(dict: &Bencode, name: &str) -> (r: Result<String, TorrentError>)
    ensures
        gives_text(r, text_entry(tree_of(*dict), name@)),
{
    match dict.get(name.as_bytes()) {
        Some(Bencode::Bytes(b)) => match decode_text(b.as_slice()) {
            Ok(s) => {
                proof {
                    vstd::utf8::encode_utf8_decode_utf8(s@);
                }
                Ok(s)
            },
            Err(_) => Err(key_error("Non-UTF8 value for key ", name, "")),
        },
        _ => Err(key_error("Missing or invalid key ", name, "")),
    }
}

fn get_u64(dict: &Bencode, name: &str) -> (r: Result<u64, TorrentError>)
    ensures
        match natural_entry(tree_of(*dict), name@) {
            Ok(n) => r matches Ok(v) && v == n,
            Err(f) => r matches Err(e) && e@ == f,
        },
{
    match dict.get(name.as_bytes()) {
        Some(Bencode::Int(i)) => {
            if *i < 0 {
                Err(key_error("Integer key ", name, " must be non-negative"))
            } else {
                Ok(*i as u64)
            }
        },
        _ => Err(key_error("Missing or invalid integer key ", name, "")),
    }
}

fn get_string_list(dict: &Bencode, name: &str) -> (r: Result<Vec<String>, TorrentError>)
    ensures
        match path_entry(tree_of(*dict), name@) {
            Ok(p) => r matches Ok(v) && texts(v@) == p,
            Err(f) => r matches Err(e) && e@ == f,
        },
{
    match dict.get(name.as_bytes()) {
        Some(Bencode::List(l)) => {
            let ghost s = tree_of(Bencode::List(*l))->List_0;
            let mut path: Vec<String> = Vec::new();
            let mut i: usize = 0;
            assert(texts(path@) =~= Seq::<Seq<char>>::empty());
            while i < l.len()
                invariant
                    i <= l@.len(),
                    s == tree_of(Bencode::List(*l))->List_0,
                    path_entry(tree_of(*dict), name@) == path_upto(s, s.len()),
                    path_upto(s, i as nat) == Ok::<Seq<Seq<char>>, TorrentFault>(texts(path@)),
                decreases l@.len() - i,
            {
                assert(s[i as int] == tree_of(l@[i as int]));
                let ghost before = path@;
                match &l[i] {
                    Bencode::Bytes(b) => match decode_text(b.as_slice()) {
                        Ok(t) => {
                            proof {
                                vstd::utf8::encode_utf8_decode_utf8(t@);
                            }
                            path.push(t);
                            assert(texts(path@) =~= texts(before).push(t@));
                        },
                        Err(_) => {
                            proof {
                                lemma_path_fault(s, i as nat + 1, s.len());
                            }
                            return Err(bad_metainfo("Non-UTF8 path component"));
                        },
                    },
                    _ => {
                        proof {
                            lemma_path_fault(s, i as nat + 1, s.len());
                        }
                        return Err(bad_metainfo("Path component is not bytes"));
                    },
                }
                i = i + 1;
            }
            Ok(path)
        },
        _ => Err(key_error("Missing or invalid list key ", name, "")),
    }
}

proof fn lemma_path_fault(s: Seq<Tree>, n: nat, m: nat)
    requires
        n <= m,
        path_upto(s, n) is Err,
    ensures
        path_upto(s, m) == path_upto(s, n),
    decreases m,
{
    if n < m {
        lemma_path_fault(s, n, (m - 1) as nat);
    }
}

fn get_text(dict: &Bencode, name: &str) -> (r: Option<String>)
    ensures
        text_option(r) == optional_text(tree_of(*dict), name@),
{
    match dict.get(name.as_bytes()) {
        Some(Bencode::Bytes(b)) => match decode_text(b.as_slice()) {
            Ok(s) => {
                proof {
                    vstd::utf8::encode_utf8_decode_utf8(s@);
                }
                Some(s)
            },
            Err(_) => None,
        },
        _ => None,
    }
}

// ---- the tracker tiers ----

/// The texts among the first `n` items of a list.
pub open spec fn texts_upto(s: Seq<Tree>, n: nat) -> Seq<Seq<char>>
    decreases n,
{
    if n == 0 {
        Seq::empty()
    } else {
        let before = texts_upto(s, (n - 1) as nat);
        match s[n - 1] {
            Tree::Bytes(b) => if valid_utf8(b) {
                before.push(decode_utf8(b))
            } else {
                before
            },
            _ => before,
        }
    }
}

/// The tiers among the first `n` items of a list: the lists that hold a text.
pub open spec fn tiers_upto(s: Seq<Tree>, n: nat) -> Seq<Seq<Seq<char>>>
    decreases n,
{
    if n == 0 {
        Seq::empty()
    } else {
        let before = tiers_upto(s, (n - 1) as nat);
        match s[n - 1] {
            Tree::List(urls) => if texts_upto(urls, urls.len()).len() > 0 {
                before.push(texts_upto(urls, urls.len()))
            } else {
                before
            },
            _ => before,
        }
    }
}

/// The tiers of trackers that a torrent file names.
pub open spec fn announce_tiers(t: Tree) -> Seq<Seq<Seq<char>>> {
    match entry(t, "announce-list"@) {
        Some(Tree::List(s)) => tiers_upto(s, s.len()),
        _ => Seq::empty(),
    }
}

fn tier_texts(l: &Vec<Bencode>) -> (r: Vec<String>)
    ensures
        texts(r@) == texts_upto(
            tree_of(Bencode::List(*l))->List_0,
            tree_of(Bencode::List(*l))->List_0.len(),
        ),
{
    let ghost s = tree_of(Bencode::List(*l))->List_0;
    let mut r: Vec<String> = Vec::new();
    let mut i: usize = 0;
    assert(texts(r@) =~= Seq::<Seq<char>>::empty());
    while i < l.len()
        invariant
            i <= l@.len(),
            s == tree_of(Bencode::List(*l))->List_0,
            texts(r@) == texts_upto(s, i as nat),
        decreases l@.len() - i,
    {
        assert(s[i as int] == tree_of(l@[i as int]));
        let ghost before = r@;
        match &l[i] {
            Bencode::Bytes(b) => match decode_text(b.as_slice()) {
                Ok(t) => {
                    proof {
                        vstd::utf8::encode_utf8_decode_utf8(t@);
                    }
                    r.push(t);
                    assert(texts(r@) =~= texts(before).push(t@));
                },
                Err(_) => {},
            },
            _ => {},
        }
        i = i + 1;
    }
    r
}

fn parse_announce_list(dict: &Bencode) -> (r: Vec<Vec<String>>)
    ensures
        tiers(r@) == announce_tiers(tree_of(*dict)),
{
    let mut r: Vec<Vec<String>> = Vec::new();
    assert(tiers(r@) =~= Seq::<Seq<Seq<char>>>::empty());
    match dict.get("announce-list".as_bytes()) {
        Some(Bencode::List(l)) => {
            let ghost s = tree_of(Bencode::List(*l))->List_0;
            let mut i: usize = 0;
            while i < l.len()
                invariant
                    i <= l@.len(),
                    s == tree_of(Bencode::List(*l))->List_0,
                    announce_tiers(tree_of(*dict)) == tiers_upto(s, s.len()),
                    tiers(r@) == tiers_upto(s, i as nat),
                decreases l@.len() - i,
            {
                assert(s[i as int] == tree_of(l@[i as int]));
                let ghost before = r@;
                match &l[i] {
                    Bencode::List(urls) => {
                        let tier: Vec<String> = tier_texts(urls);
                        assert(texts(tier@).len() == tier@.len());
                        if tier.len() > 0 {
                            r.push(tier);
                            assert(tiers(r@) =~= tiers(before).push(texts(tier@)));
                        }
                    },
                    _ => {},
                }
                i = i + 1;
            }
        },
        _ => {},
    }
    r
}

// ---- the files ----

/// The sum of two sizes, at most the largest 64-bit number.
pub open spec fn size_sum(a: u64, b: u64) -> u64 {
    if a + b > u64::MAX {
        u64::MAX
    } else {
        (a + b) as u64
    }
}

/// The files that the first `n` items of a list describe, and their size. What is no dictionary
/// is passed over.
pub open spec fn files_upto(s: Seq<Tree>, n: nat) -> Result<(Seq<File>, u64), TorrentFault>
    decreases n,
{
    if n == 0 {
        Ok((Seq::empty(), 0))
    } else {
        match files_upto(s, (n - 1) as nat) {
            Err(f) => Err(f),
            Ok((files, total)) => if s[n - 1] is Dict {
                match natural_entry(s[n - 1], "length"@) {
                    Err(f) => Err(f),
                    Ok(length) => match path_entry(s[n - 1], "path"@) {
                        Err(f) => Err(f),
                        Ok(path) => Ok(
                            (
                                files.push(File { path, length, md5sum: None }),
                                size_sum(total, length),
                            ),
                        ),
                    },
                }
            } else {
                Ok((files, total))
            },
        }
    }
}

/// The files of a torrent and their size: those of the list, or one with the torrent's name.
pub open spec fn files_of(info: Tree, name: Seq<char>) -> Result<(Seq<File>, u64), TorrentFault> {
    match entry(info, "files"@) {
        Some(Tree::List(s)) => files_upto(s, s.len()),
        Some(_) => Err(bad("'files' is not a list"@)),
        None => match natural_entry(info, "length"@) {
            Err(f) => Err(f),
            Ok(length) => Ok((seq![File { path: seq![name], length, md5sum: None }], length)),
        },
    }
}

proof fn lemma_files_fault(s: Seq<Tree>, n: nat, m: nat)
    requires
        n <= m,
        files_upto(s, n) is Err,
    ensures
        files_upto(s, m) == files_upto(s, n),
    decreases m,
{
    if n < m {
        lemma_files_fault(s, n, (m - 1) as nat);
    }
}

fn parse_files(l: &Vec<Bencode>) -> (r: Result<(Vec<TorrentFile>, u64), TorrentError>)
    ensures
        ({
            let s = tree_of(Bencode::List(*l))->List_0;
            match files_upto(s, s.len()) {
                Ok((f, n)) => r matches Ok(v) && file_views(v.0@) == f && v.1 == n,
                Err(f) => r matches Err(e) && e@ == f,
            }
        }),
{
    let ghost s = tree_of(Bencode::List(*l))->List_0;
    let mut files: Vec<TorrentFile> = Vec::new();
    let mut total: u64 = 0;
    let mut i: usize = 0;
    assert(file_views(files@) =~= Seq::<File>::empty());
    while i < l.len()
        invariant
            i <= l@.len(),
            s == tree_of(Bencode::List(*l))->List_0,
            files_upto(s, i as nat) == Ok::<(Seq<File>, u64), TorrentFault>(
                (file_views(files@), total),
            ),
        decreases l@.len() - i,
    {
        assert(s[i as int] == tree_of(l@[i as int]));
        let ghost before = files@;
        if l[i].is_dict() {
            let length: u64 = match get_u64(&l[i], "length") {
                Ok(n) => n,
                Err(e) => {
                    proof {
                        lemma_files_fault(s, i as nat + 1, s.len());
                    }
                    return Err(e);
                },
            };
            let path: Vec<String> = match get_string_list(&l[i], "path") {
                Ok(p) => p,
                Err(e) => {
                    proof {
                        lemma_files_fault(s, i as nat + 1, s.len());
                    }
                    return Err(e);
                },
            };
            total = total.saturating_add(length);
            files.push(TorrentFile { path, length, md5sum: None });
            assert(file_views(files@) =~= file_views(before).push(files@.last()@));
        }
        i = i + 1;
    }
    Ok((files, total))
}

fn copy_text(s: &String) -> (r: String)
    ensures
        r@ == s@,
{
    s.clone()
}

fn parse_content(info: &Bencode, name: &String) -> (r: Result<
    (Vec<TorrentFile>, u64),
    TorrentError,
>)
    ensures
        match files_of(tree_of(*info), name@) {
            Ok((f, n)) => r matches Ok(v) && file_views(v.0@) == f && v.1 == n,
            Err(f) => r matches Err(e) && e@ == f,
        },
{
    match info.get("files".as_bytes()) {
        Some(Bencode::List(l)) => parse_files(l),
        Some(_) => Err(bad_metainfo("'files' is not a list")),
        None => {
            let length: u64 = get_u64(info, "length")?;
            let mut path: Vec<String> = Vec::new();
            path.push(copy_text(name));
            let mut files: Vec<TorrentFile> = Vec::new();
            assert(texts(path@) =~= seq![name@]);
            files.push(TorrentFile { path, length, md5sum: None });
            assert(file_views(files@) =~= seq![files@[0]@]);
            Ok((files, length))
        },
    }
}

// ---- the pieces ----

/// Bytes in groups of twenty.
pub open spec fn groups_of_twenty(b: Seq<u8>) -> Seq<Seq<u8>> {
    Seq::new(b.len() / 20, |i: int| b.subrange(20 * i, 20 * i + 20))
}

/// The number of pieces of a size that make up a whole.
pub open spec fn pieces_needed(total: u64, piece: u64) -> nat {
    if total as nat % piece as nat == 0 {
        total as nat / piece as nat
    } else {
        total as nat / piece as nat + 1
    }
}

/// The digests of the pieces.
pub open spec fn pieces_of(info: Tree) -> Result<Seq<Seq<u8>>, TorrentFault> {
    match entry(info, "pieces"@) {
        Some(Tree::Bytes(b)) => if b.len() % 20 != 0 {
            Err(bad("pieces string length is not a multiple of 20"@))
        } else {
            Ok(groups_of_twenty(b))
        },
        _ => Err(bad("missing 'pieces' key"@)),
    }
}

fn parse_pieces(info: &Bencode) -> (r: Result<Vec<[u8; 20]>, TorrentError>)
    ensures
        match pieces_of(tree_of(*info)) {
            Ok(p) => r matches Ok(v) && digests(v@) == p,
            Err(f) => r matches Err(e) && e@ == f,
        },
{
    match info.get("pieces".as_bytes()) {
        Some(Bencode::Bytes(b)) => {
            if b.len() % 20 != 0 {
                return Err(bad_metainfo("pieces string length is not a multiple of 20"));
            }
            let count: usize = b.len() / 20;
            let mut r: Vec<[u8; 20]> = Vec::new();
            let mut i: usize = 0;
            while i < count
                invariant
                    i <= count,
                    count == b.len() / 20,
                    r@.len() == i,
                    forall|k: int|
                        0 <= k < i ==> (#[trigger] r@[k])@ == b@.subrange(20 * k, 20 * k + 20),
                decreases count - i,
            {
                r.push(array20(b.as_slice(), 20 * i));
                i = i + 1;
            }
            assert(digests(r@) =~= groups_of_twenty(b@));
            Ok(r)
        },
        _ => Err(bad_metainfo("missing 'pieces' key")),
    }
}

// ---- the torrent file ----

/// Whether a torrent is private: its flag is one.
pub open spec fn private_flag(info: Tree) -> bool {
    match entry(info, "private"@) {
        Some(Tree::Int(i)) => i == 1,
        _ => false,
    }
}

/// When a torrent was made, in unsigned form.
pub open spec fn creation_date(t: Tree) -> Option<u64> {
    match entry(t, "creation date"@) {
        Some(Tree::Int(i)) => Some(i as u64),
        _ => None,
    }
}

/// What the description of the files says, once its name and its sizes are known.
pub open spec fn described(
    t: Tree,
    info: Tree,
    info_hash: Seq<u8>,
    name: Seq<char>,
    piece_length: u64,
    files: Seq<File>,
    total: u64,
) -> Result<Meta, TorrentFault> {
    let count = pieces_needed(total, piece_length);
    if count > u32::MAX {
        Err(bad("piece count exceeds u32 range"@))
    } else {
        match pieces_of(info) {
            Err(f) => Err(f),
            Ok(pieces) => if pieces.len() != count {
                Err(
                    bad(
                        "piece count "@ + decimal(count) + " does not match pieces hash count "@
                            + decimal(pieces.len()),
                    ),
                )
            } else {
                Ok(
                    Meta {
                        info_hash,
                        name,
                        total_size: total,
                        piece_length,
                        piece_count: count as u32,
                        pieces,
                        announce: optional_text(t, "announce"@),
                        announce_list: announce_tiers(t),
                        files,
                        created_at: creation_date(t),
                        comment: optional_text(t, "comment"@),
                        is_private: private_flag(info),
                    },
                )
            },
        }
    }
}

/// The torrent file that bytes hold, when they are parsed as this tree.
pub open spec fn metainfo_of(data: Seq<u8>, t: Tree) -> Result<Meta, TorrentFault> {
    if t !is Dict {
        Err(bad("Root is not a dict"@))
    } else {
        match entry(t, "info"@) {
            None => Err(bad("Missing 'info' key"@)),
            Some(info) => match info_span(data) {
                Err(f) => Err(f),
                Ok((a, b)) => if info !is Dict {
                    Err(bad("'info' is not a dict"@))
                } else {
                    match text_entry(info, "name"@) {
                        Err(f) => Err(f),
                        Ok(name) => match natural_entry(info, "piece length"@) {
                            Err(f) => Err(f),
                            Ok(piece_length) => if piece_length == 0 {
                                Err(bad("'piece length' cannot be zero"@))
                            } else {
                                match files_of(info, name) {
                                    Err(f) => Err(f),
                                    Ok((files, total)) => described(
                                        t,
                                        info,
                                        sha1_of(data.subrange(a, b)),
                                        name,
                                        piece_length,
                                        files,
                                        total,
                                    ),
                                }
                            },
                        },
                    }
                },
            },
        }
    }
}

/// The torrent file that bytes hold.
pub open spec fn metainfo_in(data: Seq<u8>) -> Result<Meta, TorrentFault> {
    if scan_from(data, 0, 0, MAX_BENCODE_DEPTH as nat) != Scan::Balanced {
        Err(TorrentFault::BencodeError("bencode nesting too deep"@))
    } else {
        match bencode_tree(data) {
            Err(m) => Err(TorrentFault::BencodeError(m)),
            Ok(t) => metainfo_of(data, t),
        }
    }
}

/// Two upper-case hexadecimal digits after a percent sign for each byte.
pub open spec fn percent_text(b: Seq<u8>) -> Seq<char>
    decreases b.len(),
{
    if b.len() == 0 {
        Seq::empty()
    } else {
        percent_text(b.drop_last()) + seq![
            '%',
            upper_digit(b.last() as nat / 16),
            upper_digit(b.last() as nat % 16),
        ]
    }
}

/// The upper-case character of a hexadecimal digit.
pub open spec fn upper_digit(d: nat) -> char {
    if d < 10 {
        (0x30 + d) as u8 as char
    } else {
        (0x37 + d) as u8 as char
    }
}

/// Appends a percent sign and two upper-case hexadecimal digits.
pub(crate) fn push_percent(s: &mut String, b: u8)
    ensures
        final(s)@ == old(s)@ + seq![
            '%',
            upper_digit(b as nat / 16),
            upper_digit(b as nat % 16),
        ],
{
    let hi: u8 = b / 16;
    let lo: u8 = b % 16;
    s.push('%');
    s.push(
        if hi < 10 {
            (0x30 + hi) as char
        } else {
            (0x37 + hi) as char
        },
    );
    s.push(
        if lo < 10 {
            (0x30 + lo) as char
        } else {
            (0x37 + lo) as char
        },
    );
    assert(s@ =~= old(s)@ + seq!['%', upper_digit(b as nat / 16), upper_digit(b as nat % 16)]);
}

/// The trackers of the first `n` tiers that are not in `before`, each once.
pub open spec fn trackers_upto(before: Seq<Seq<char>>, list: Seq<Seq<Seq<char>>>, n: nat) -> Seq<
    Seq<char>,
>
    decreases n,
{
    if n == 0 {
        before
    } else {
        merged(trackers_upto(before, list, (n - 1) as nat), list[n - 1], list[n - 1].len())
    }
}

/// `before` with the first `n` texts that are not in it.
pub open spec fn merged(before: Seq<Seq<char>>, tier: Seq<Seq<char>>, n: nat) -> Seq<Seq<char>>
    decreases n,
{
    if n == 0 {
        before
    } else {
        let m = merged(before, tier, (n - 1) as nat);
        if m.contains(tier[n - 1]) {
            m
        } else {
            m.push(tier[n - 1])
        }
    }
}

/// All trackers of a torrent, each once, the first one first.
pub open spec fn trackers_of(m: Meta) -> Seq<Seq<char>> {
    trackers_upto(
        match m.announce {
            Some(a) => seq![a],
            None => Seq::empty(),
        },
        m.announce_list,
        m.announce_list.len(),
    )
}

fn holds_text(v: &Vec<String>, s: &String) -> (r: bool)
    ensures
        r == texts(v@).contains(s@),
{
    let mut i: usize = 0;
    while i < v.len()
        invariant
            i <= v@.len(),
            forall|k: int| 0 <= k < i ==> #[trigger] texts(v@)[k] != s@,
        decreases v@.len() - i,
    {
        if v[i] == *s {
            assert(texts(v@)[i as int] == s@);
            return true;
        }
        assert(texts(v@)[i as int] != s@);
        i = i + 1;
    }
    false
}

impl Metainfo {
    /// Reads a torrent file from its bytes and the tree that they were parsed as.
    pub fn from_tree(data: &[u8], tree: &Bencode) -> (r: Result<Metainfo, TorrentError>)
        ensures
            match metainfo_of(data@, tree_of(*tree)) {
                Ok(m) => r matches Ok(v) && v@ == m,
                Err(f) => r matches Err(e) && e@ == f,
            },
    {
        if !tree.is_dict() {
            return Err(bad_metainfo("Root is not a dict"));
        }
        let info: &Bencode = match tree.get("info".as_bytes()) {
            None => {
                return Err(bad_metainfo("Missing 'info' key"));
            },
            Some(i) => i,
        };
        let span: (usize, usize) = find_info_span(data)?;
        let info_hash: [u8; 20] = sha1(vstd::slice::slice_subrange(data, span.0, span.1));
        if !info.is_dict() {
            return Err(bad_metainfo("'info' is not a dict"));
        }
        let name: String = get_string(info, "name")?;
        let piece_length: u64 = get_u64(info, "piece length")?;
        if piece_length == 0 {
            return Err(bad_metainfo("'piece length' cannot be zero"));
        }
        let (files, total_size) = parse_content(info, &name)?;
        let whole: u64 = total_size / piece_length;
        let count: u64 = if total_size % piece_length == 0 {
            whole
        } else {
            assert(whole < u64::MAX) by (nonlinear_arith)
                requires
                    whole == total_size / piece_length,
                    piece_length > 0,
                    total_size % piece_length != 0,
            ;
            whole + 1
        };
        if count > u32::MAX as u64 {
            return Err(bad_metainfo("piece count exceeds u32 range"));
        }
        let pieces: Vec<[u8; 20]> = parse_pieces(info)?;
        assert(digests(pieces@).len() == pieces@.len());
        if pieces.len() as u64 != count {
            let mut m: String = "piece count ".to_owned();
            push_decimal(&mut m, count);
            m.append(" does not match pieces hash count ");
            push_decimal(&mut m, pieces.len() as u64);
            return Err(TorrentError::InvalidMetainfo(m));
        }
        let created_at: Option<u64> = match tree.get("creation date".as_bytes()) {
            Some(Bencode::Int(i)) => Some(*i as u64),
            _ => None,
        };
        let is_private: bool = match info.get("private".as_bytes()) {
            Some(Bencode::Int(i)) => *i == 1,
            _ => false,
        };
        Ok(
            Metainfo {
                info_hash,
                name,
                total_size,
                piece_length,
                piece_count: count as u32,
                pieces,
                announce: get_text(tree, "announce"),
                announce_list: parse_announce_list(tree),
                files,
                created_at,
                comment: get_text(tree, "comment"),
                is_private,
            },
        )
    }

    /// Reads a torrent file.
    pub fn from_bytes(data: &[u8]) -> (r: Result<Metainfo, TorrentError>)
        ensures
            match metainfo_in(data@) {
                Ok(m) => r matches Ok(v) && v@ == m,
                Err(f) => r matches Err(e) && e@ == f,
            },
    {
        match parse_untrusted(data) {
            None => Err(TorrentError::BencodeError("bencode nesting too deep".to_owned())),
            Some(Err(m)) => Err(TorrentError::BencodeError(m)),
            Some(Ok(tree)) => Metainfo::from_tree(data, &tree),
        }
    }

    /// The digest that names the torrent, in hexadecimal.
    pub fn info_hash_hex(&self) -> (r: String)
        ensures
            r@ == hex_text(self.info_hash@),
    {
        hex_encode(self.info_hash.as_slice())
    }

    /// The digest that names the torrent, as it stands in a tracker request.
    pub fn info_hash_urlencoded(&self) -> (r: String)
        ensures
            r@ == percent_text(self.info_hash@),
    {
        let mut r: String = String::new();
        let mut i: usize = 0;
        assert(self.info_hash@.take(0) =~= Seq::<u8>::empty());
        while i < 20
            invariant
                i <= 20,
                r@ == percent_text(self.info_hash@.take(i as int)),
            decreases 20 - i,
        {
            push_percent(&mut r, self.info_hash[i]);
            i = i + 1;
            assert(self.info_hash@.take(i as int).drop_last() =~= self.info_hash@.take(i - 1));
        }
        assert(self.info_hash@.take(20) =~= self.info_hash@);
        r
    }

    /// All trackers of the torrent, each once, the first one first.
    pub fn all_trackers(&self) -> (r: Vec<String>)
        ensures
            texts(r@) == trackers_of(self@),
    {
        let mut r: Vec<String> = Vec::new();
        if let Some(a) = &self.announce {
            r.push(copy_text(a));
        }
        let ghost start = match self@.announce {
            Some(a) => seq![a],
            None => Seq::empty(),
        };
        assert(texts(r@) =~= start);
        let ghost list = self@.announce_list;
        let mut i: usize = 0;
        while i < self.announce_list.len()
            invariant
                list == tiers(self.announce_list@),
                i <= self.announce_list@.len(),
                texts(r@) == trackers_upto(start, list, i as nat),
            decreases self.announce_list@.len() - i,
        {
            let tier: &Vec<String> = &self.announce_list[i];
            let ghost before = texts(r@);
            assert(list[i as int] == texts(tier@));
            let mut k: usize = 0;
            while k < tier.len()
                invariant
                    k <= tier@.len(),
                    texts(r@) == merged(before, texts(tier@), k as nat),
                decreases tier@.len() - k,
            {
                let ghost sofar = r@;
                assert(texts(tier@)[k as int] == tier@[k as int]@);
                if !holds_text(&r, &tier[k]) {
                    r.push(copy_text(&tier[k]));
                    assert(texts(r@) =~= texts(sofar).push(tier@[k as int]@));
                }
                k = k + 1;
            }
            i = i + 1;
        }
        r
    }
}

/// The trackers of the first `n` tiers after those in `before`, as often as they are named.
pub open spec fn named_upto(before: Seq<Seq<char>>, list: Seq<Seq<Seq<char>>>, n: nat) -> Seq<
    Seq<char>,
>
    decreases n,
{
    if n == 0 {
        before
    } else {
        named_upto(before, list, (n - 1) as nat) + list[n - 1]
    }
}

/// All trackers that a torrent names, in the order and as often as it names them.
pub open spec fn named_trackers(m: Meta) -> Seq<Seq<char>> {
    named_upto(
        match m.announce {
            Some(a) => seq![a],
            None => Seq::empty(),
        },
        m.announce_list,
        m.announce_list.len(),
    )
}

/// Whether `names` holds `x` at a place before which, and at which, it does not hold `y`.
pub open spec fn named_before(names: Seq<Seq<char>>, x: Seq<char>, y: Seq<char>) -> bool {
    exists|p: int|
        0 <= p < names.len() && #[trigger] names[p] == x && forall|q: int|
            0 <= q <= p ==> #[trigger] names[q] != y
}

/// Whether `t` holds what `names` holds, each once, in the order in which it comes first.
pub open spec fn first_namings(t: Seq<Seq<char>>, names: Seq<Seq<char>>) -> bool {
    &&& t.no_duplicates()
    &&& forall|x: Seq<char>| #[trigger] t.contains(x) <==> names.contains(x)
    &&& forall|a: int, b: int|
        0 <= a < b < t.len() ==> named_before(names, #[trigger] t[a], #[trigger] t[b])
}

proof fn lemma_one_more_name(t: Seq<Seq<char>>, names: Seq<Seq<char>>, y: Seq<char>)
    requires
        first_namings(t, names),
    ensures
        first_namings(
            if t.contains(y) {
                t
            } else {
                t.push(y)
            },
            names.push(y),
        ),
{
    let all = names.push(y);
    let r = if t.contains(y) {
        t
    } else {
        t.push(y)
    };
    assert(all[names.len() as int] == y);
    assert(!t.contains(y) ==> r[t.len() as int] == y);
    assert forall|x: Seq<char>| #[trigger] r.contains(x) <==> all.contains(x) by {
        if names.contains(x) {
            let k = choose|k: int| 0 <= k < names.len() && names[k] == x;
            assert(all[k] == x);
        }
        if t.contains(x) {
            let k = choose|k: int| 0 <= k < t.len() && t[k] == x;
            assert(r[k] == x);
        }
        if all.contains(x) && x != y {
            let k = choose|k: int| 0 <= k < all.len() && all[k] == x;
            assert(names[k] == x);
        }
        if r.contains(x) && x != y {
            let k = choose|k: int| 0 <= k < r.len() && r[k] == x;
            assert(t[k] == x);
        }
    }
    assert forall|a: int, b: int| 0 <= a < b < r.len() implies named_before(
        all,
        #[trigger] r[a],
        #[trigger] r[b],
    ) by {
        assert(r[a] == t[a]);
        if b < t.len() {
            assert(r[b] == t[b]);
            assert(named_before(names, t[a], t[b]));
            let p = choose|p: int|
                0 <= p < names.len() && #[trigger] names[p] == t[a] && forall|q: int|
                    0 <= q <= p ==> #[trigger] names[q] != t[b];
            assert(all[p] == r[a]);
            assert forall|q: int| 0 <= q <= p implies #[trigger] all[q] != r[b] by {
                assert(names[q] != t[b]);
            }
        } else {
            assert(t.contains(t[a]));
            let p = choose|p: int| 0 <= p < names.len() && names[p] == t[a];
            assert(all[p] == r[a]);
            assert forall|q: int| 0 <= q <= p implies #[trigger] all[q] != r[b] by {
                assert(names.contains(names[q]));
            }
        }
    }
}

proof fn lemma_merged(before: Seq<Seq<char>>, names: Seq<Seq<char>>, tier: Seq<Seq<char>>, n: nat)
    requires
        first_namings(before, names),
        n <= tier.len(),
    ensures
        first_namings(merged(before, tier, n), names + tier.take(n as int)),
    decreases n,
{
    if n == 0 {
        assert(names + tier.take(0) =~= names);
    } else {
        lemma_merged(before, names, tier, (n - 1) as nat);
        lemma_one_more_name(
            merged(before, tier, (n - 1) as nat),
            names + tier.take(n - 1),
            tier[n - 1],
        );
        assert((names + tier.take(n - 1)).push(tier[n - 1]) =~= names + tier.take(n as int));
    }
}

proof fn lemma_trackers(before: Seq<Seq<char>>, list: Seq<Seq<Seq<char>>>, n: nat)
    requires
        first_namings(before, before),
        n <= list.len(),
    ensures
        first_namings(trackers_upto(before, list, n), named_upto(before, list, n)),
    decreases n,
{
    if n > 0 {
        let tier = list[n - 1];
        lemma_trackers(before, list, (n - 1) as nat);
        lemma_merged(
            trackers_upto(before, list, (n - 1) as nat),
            named_upto(before, list, (n - 1) as nat),
            tier,
            tier.len(),
        );
        assert(tier.take(tier.len() as int) =~= tier);
    }
}

/// Whether a torrent names a tracker.
pub open spec fn names_tracker(m: Meta, x: Seq<char>) -> bool {
    ||| m.announce == Some(x)
    ||| exists|i: int, k: int|
        0 <= i < m.announce_list.len() && 0 <= k < m.announce_list[i].len()
            && #[trigger] m.announce_list[i][k] == x
}

proof fn lemma_names(before: Seq<Seq<char>>, list: Seq<Seq<Seq<char>>>, n: nat, x: Seq<char>)
    requires
        n <= list.len(),
    ensures
        named_upto(before, list, n).contains(x) <==> before.contains(x) || exists|i: int, k: int|
            0 <= i < n && 0 <= k < list[i].len() && #[trigger] list[i][k] == x,
    decreases n,
{
    if n > 0 {
        lemma_names(before, list, (n - 1) as nat, x);
        let m = named_upto(before, list, (n - 1) as nat);
        let all = named_upto(before, list, n);
        if m.contains(x) {
            let p = choose|p: int| 0 <= p < m.len() && m[p] == x;
            assert(all[p] == x);
        }
        assert forall|k: int| 0 <= k < list[n - 1].len() implies #[trigger] list[n - 1][k] == all[
        m.len() + k] by {}
        if all.contains(x) && !m.contains(x) {
            let p = choose|p: int| 0 <= p < all.len() && all[p] == x;
            assert(p >= m.len());
            assert(list[n - 1][p - m.len()] == x);
        }
    }
}

/// The list of all trackers holds every tracker that the torrent names and no other, none twice,
/// in the order in which the torrent first names them.
pub proof fn law_trackers_are_complete(m: Meta)
    ensures
        trackers_of(m).no_duplicates(),
        forall|x: Seq<char>| #[trigger] trackers_of(m).contains(x) <==> names_tracker(m, x),
        forall|a: int, b: int|
            0 <= a < b < trackers_of(m).len() ==> named_before(
                named_trackers(m),
                #[trigger] trackers_of(m)[a],
                #[trigger] trackers_of(m)[b],
            ),
{
    let start = match m.announce {
        Some(a) => seq![a],
        None => Seq::empty(),
    };
    assert(first_namings(start, start));
    lemma_trackers(start, m.announce_list, m.announce_list.len());
    assert(m.announce matches Some(a) ==> start[0] == a);
    assert forall|x: Seq<char>| #[trigger] trackers_of(m).contains(x) <==> names_tracker(
        m,
        x,
    ) by {
        lemma_names(start, m.announce_list, m.announce_list.len(), x);
    }
}

/// Every torrent that is read has pieces of a size above zero, one digest for each, and as many
/// as its size needs.
pub proof fn law_pieces_match_size(data: Seq<u8>, t: Tree)
    requires
        metainfo_of(data, t) is Ok,
    ensures
        ({
            let m = metainfo_of(data, t)->Ok_0;
            &&& m.piece_length > 0
            &&& m.pieces.len() == m.piece_count
            &&& m.piece_count == pieces_needed(m.total_size, m.piece_length)
        }),
{
}

} // verus!
