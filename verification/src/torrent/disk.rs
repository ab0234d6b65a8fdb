//! Where pieces are kept on disk, and which of them are there.
use crate::bytes::same_bytes;
use crate::crypto::sha1;
use crate::crypto::sha1_of;
use crate::text::hex_encode;
use crate::text::hex_text;
use crate::text::same_text;
use crate::torrent::metainfo::texts;
use crate::torrent::metainfo::File;
use crate::torrent::metainfo::Meta;
use crate::torrent::metainfo::Metainfo;
use crate::torrent::metainfo::TorrentFile;
use crate::torrent::pieces::are_ranges;
use crate::torrent::pieces::file_start;
use crate::torrent::pieces::is_split;
use crate::torrent::pieces::law_parts_make_the_piece;
use crate::torrent::pieces::lemma_parts;
use crate::torrent::pieces::parts_joined;
use crate::torrent::pieces::piece_parts;
use crate::torrent::pieces::FileLayout;
use crate::torrent::pieces::Segment;
use vstd::prelude::*;
use vstd::string::*;

verus! {

/// The size of the piece `index`, which is smaller for the last.
pub open spec fn piece_size(m: Meta, index: int) -> int {
    let left = m.total_size - index * m.piece_length;
    if left <= 0 {
        0
    } else if left < m.piece_length {
        left
    } else {
        m.piece_length as int
    }
}

/// The size of the piece `index`, which is smaller for the last.
pub fn piece_length(metainfo: &Metainfo, index: u32) -> (r: u64)
    ensures
        r == piece_size(metainfo@, index as int),
{
    proof {
        assert(index * metainfo.piece_length <= 0xffff_ffff * 0xffff_ffff_ffff_ffff)
            by (nonlinear_arith)
            requires
                index <= 0xffff_ffff,
                metainfo.piece_length <= 0xffff_ffff_ffff_ffff,
        ;
    }
    let start: u128 = index as u128 * metainfo.piece_length as u128;
    let total: u128 = metainfo.total_size as u128;
    if start >= total {
        0
    } else if total - start < metainfo.piece_length as u128 {
        (total - start) as u64
    } else {
        metainfo.piece_length
    }
}

/// Whether a part of a path names a file or directory inside the one before it. A colon would name
/// a stream or a drive on some systems.
pub open spec fn is_safe_part(s: Seq<char>) -> bool {
    &&& s.len() > 0
    &&& s != "."@
    &&& s != ".."@
    &&& !s.contains('/')
    &&& !s.contains('\\')
    &&& !s.contains(':')
}

/// The parts of `base` and `parts` where the latter are all safe.
pub open spec fn safe_path(base: Seq<Seq<char>>, parts: Seq<Seq<char>>) -> Option<Seq<Seq<char>>> {
    if forall|i: int| 0 <= i < parts.len() ==> is_safe_part(#[trigger] parts[i]) {
        Some(base + parts)
    } else {
        None
    }
}

fn part_is_safe(s: &str) -> (r: bool)
    ensures
        r == is_safe_part(s@),
{
    let n: usize = s.unicode_len();
    if n == 0 || same_text(s, ".") || same_text(s, "..") {
        return false;
    }
    let mut i: usize = 0;
    while i < n
        invariant
            i <= n,
            n == s@.len(),
            forall|k: int|
                0 <= k < i ==> #[trigger] s@[k] != '/' && s@[k] != '\\' && s@[k] != ':',
        decreases n - i,
    {
        let c: char = s.get_char(i);
        if c == '/' || c == '\\' || c == ':' {
            assert(s@[i as int] == c);
            return false;
        }
        i = i + 1;
    }
    true
}

/// Leads from `base` along `components`, unless one of them would lead elsewhere than inside.
pub fn sanitize_path(base: &[String], components: &[String]) -> (r: Option<Vec<String>>)
    ensures
        match safe_path(texts(base@), texts(components@)) {
            Some(p) => r matches Some(v) && texts(v@) == p,
            None => r is None,
        },
{
    let mut path: Vec<String> = Vec::new();
    let mut i: usize = 0;
    while i < base.len()
        invariant
            i <= base.len(),
            texts(path@) == texts(base@).take(i as int),
        decreases base.len() - i,
    {
        let ghost before = path@;
        let part: String = base[i].clone();
        path.push(part);
        assert(texts(path@) =~= texts(before).push(part@));
        i = i + 1;
        assert(texts(path@) =~= texts(base@).take(i as int));
    }
    let mut j: usize = 0;
    assert(texts(path@) =~= texts(base@) + texts(components@).take(0));
    while j < components.len()
        invariant
            j <= components.len(),
            forall|k: int| 0 <= k < j ==> is_safe_part(#[trigger] texts(components@)[k]),
            texts(path@) == texts(base@) + texts(components@).take(j as int),
        decreases components.len() - j,
    {
        let c = &components[j];
        if !part_is_safe(c.as_str()) {
            assert(!is_safe_part(texts(components@)[j as int]));
            return None;
        }
        assert(is_safe_part(texts(components@)[j as int]));
        let ghost before = path@;
        let part: String = c.clone();
        path.push(part);
        assert(texts(path@) =~= texts(before).push(part@));
        j = j + 1;
        assert(texts(path@) =~= texts(base@) + texts(components@).take(j as int));
    }
    assert(texts(components@).take(j as int) =~= texts(components@));
    Some(path)
}

/// The name of the file that says which pieces of a torrent are there.
pub fn resume_file_name(info_hash: &[u8; 20]) -> (r: String)
    ensures
        r@ == hex_text(info_hash@) + ".vtorrent"@,
{
    let mut s: String = hex_encode(info_hash.as_slice());
    s.append(".vtorrent");
    s
}

/// Whether `data` is the piece `index`: it has its size and its digest.
pub open spec fn is_piece(m: Meta, index: int, data: Seq<u8>) -> bool {
    &&& data.len() == piece_size(m, index)
    &&& index < m.pieces.len()
    &&& sha1_of(data) == m.pieces[index]
}

/// Whether what was read from disk is the piece.
pub fn piece_matches(metainfo: &Metainfo, piece_index: u32, data: &[u8]) -> (r: bool)
    ensures
        r == is_piece(metainfo@, piece_index as int, data@),
{
    if data.len() as u64 != piece_length(metainfo, piece_index) {
        return false;
    }
    if (piece_index as usize) < metainfo.pieces.len() {
        let digest: [u8; 20] = sha1(data);
        same_bytes(digest.as_slice(), metainfo.pieces[piece_index as usize].as_slice())
    } else {
        false
    }
}

// ---- what is written and read ----

/// Bytes to write at a place in a file.
#[derive(Debug, Clone)]
pub struct WriteStep {
    /// The parts of the path of the file.
    pub path: Vec<String>,
    /// Where in the file.
    pub offset: u64,
    /// What to write.
    pub data: Vec<u8>,
}

/// Bytes to read at a place in a file.
#[derive(Debug, Clone)]
pub struct ReadStep {
    /// The parts of the path of the file.
    pub path: Vec<String>,
    /// Where in the file.
    pub offset: u64,
    /// How much to read.
    pub count: u64,
}

/// What a [`WriteStep`] writes.
pub ghost struct Writing {
    pub path: Seq<Seq<char>>,
    pub offset: int,
    pub data: Seq<u8>,
}

/// What a [`ReadStep`] reads.
pub ghost struct Reading {
    pub path: Seq<Seq<char>>,
    pub offset: int,
    pub count: int,
}

impl View for WriteStep {
    type V = Writing;

    open spec fn view(&self) -> Writing {
        Writing { path: texts(self.path@), offset: self.offset as int, data: self.data@ }
    }
}

impl View for ReadStep {
    type V = Reading;

    open spec fn view(&self) -> Reading {
        Reading { path: texts(self.path@), offset: self.offset as int, count: self.count as int }
    }
}

/// The sizes of the files of a torrent.
pub open spec fn lengths_of(m: Meta) -> Seq<u64> {
    m.files.map_values(|f: File| f.length)
}

/// The path of a file of a torrent: the name of the torrent, then the path of the file.
pub open spec fn path_of(m: Meta, file: int) -> Option<Seq<Seq<char>>> {
    safe_path(seq![m.name], m.files[file].path)
}

/// The writes of the first `n` parts whose paths are safe.
pub open spec fn writings(m: Meta, g: Seq<Segment>, data: Seq<u8>, n: nat) -> Seq<Writing>
    decreases n,
{
    if n == 0 {
        Seq::empty()
    } else {
        let before = writings(m, g, data, (n - 1) as nat);
        let s = g[n - 1];
        match path_of(m, s.file) {
            Some(path) => before.push(
                Writing { path, offset: s.offset, data: data.subrange(s.from, s.from + s.len) },
            ),
            None => before,
        }
    }
}

/// The reads of the first `n` parts.
pub open spec fn readings(m: Meta, g: Seq<Segment>, n: nat) -> Seq<Reading> {
    Seq::new(
        n,
        |k: int|
            Reading { path: path_of(m, g[k].file)->0, offset: g[k].offset, count: g[k].len },
    )
}

/// Whether all parts lie in files with safe paths.
pub open spec fn paths_are_safe(m: Meta, g: Seq<Segment>) -> bool {
    forall|k: int| 0 <= k < g.len() ==> path_of(m, (#[trigger] g[k]).file) is Some
}

/// The writes as they read.
pub open spec fn write_views(s: Seq<WriteStep>) -> Seq<Writing> {
    s.map_values(|w: WriteStep| w@)
}

/// The reads as they read.
pub open spec fn read_views(s: Seq<ReadStep>) -> Seq<Reading> {
    s.map_values(|w: ReadStep| w@)
}

fn base_path(metainfo: &Metainfo) -> (r: Option<Vec<String>>)
    ensures
        match r {
            Some(v) => is_safe_part(metainfo@.name) && texts(v@) == seq![metainfo@.name],
            None => !is_safe_part(metainfo@.name),
        },
{
    if !part_is_safe(metainfo.name.as_str()) {
        return None;
    }
    let mut v: Vec<String> = Vec::new();
    v.push(metainfo.name.clone());
    assert(texts(v@) =~= seq![metainfo@.name]);
    Some(v)
}

/// What to write so that a piece is kept, and whether that is all of it: parts in files whose paths
/// lead outside are left out. Nothing is written where the name of the torrent leads outside.
pub fn write_plan(metainfo: &Metainfo, piece_index: u32, piece_data: &[u8]) -> (r: Option<
    (Vec<WriteStep>, bool),
>)
    ensures
        ({
            let m = metainfo@;
            let g = piece_parts(
                lengths_of(m),
                m.piece_length,
                piece_index,
                piece_data@.len() as int,
            );
            if is_safe_part(m.name) {
                &&& r matches Some((steps, whole))
                &&& write_views(steps@) == writings(m, g, piece_data@, g.len())
                &&& whole == paths_are_safe(m, g)
            } else {
                r is None
            }
        }),
{
    let ghost m = metainfo@;
    let base: Vec<String> = match base_path(metainfo) {
        Some(b) => b,
        None => {
            return None;
        },
    };
    let layout: FileLayout = FileLayout::new(metainfo.files.as_slice(), metainfo.piece_length);
    assert(layout.lens() =~= lengths_of(m));
    let ghost g = piece_parts(lengths_of(m), m.piece_length, piece_index, piece_data@.len() as int);
    proof {
        lemma_parts(
            lengths_of(m),
            m.piece_length,
            piece_index,
            piece_data@.len() as int,
        );
    }
    let segments: Vec<(usize, u64, Vec<u8>)> = layout.piece_segments(piece_index, piece_data);
    let mut steps: Vec<WriteStep> = Vec::new();
    let mut whole: bool = true;
    let mut i: usize = 0;
    assert(write_views(steps@) =~= writings(m, g, piece_data@, 0));
    while i < segments.len()
        invariant
            i <= segments@.len(),
            m == metainfo@,
            texts(base@) == seq![m.name],
            is_split(segments@, g, piece_data@),
            forall|k: int|
                0 <= k < g.len() ==> 0 <= (#[trigger] g[k]).file < metainfo.files@.len(),
            write_views(steps@) == writings(m, g, piece_data@, i as nat),
            whole == (forall|k: int| 0 <= k < i ==> path_of(m, (#[trigger] g[k]).file) is Some),
        decreases segments@.len() - i,
    {
        let s = &segments[i];
        assert(g[i as int].file < metainfo.files@.len());
        let file: &TorrentFile = &metainfo.files[s.0];
        assert(m.files[s.0 as int].path == texts(file.path@));
        assert(segments@[i as int].0 == g[i as int].file);
        match sanitize_path(base.as_slice(), file.path.as_slice()) {
            Some(path) => {
                let ghost before = steps@;
                steps.push(WriteStep { path, offset: s.1, data: s.2.clone() });
                assert(path_of(m, g[i as int].file) is Some);
                assert(write_views(steps@) =~= writings(m, g, piece_data@, (i + 1) as nat));
            },
            None => {
                assert(path_of(m, g[i as int].file) is None);
                whole = false;
            },
        }
        i = i + 1;
    }
    Some((steps, whole))
}

/// What to read so that a piece is had back. Nothing is read where the name of the torrent or the
/// path of a file leads outside.
pub fn read_plan(metainfo: &Metainfo, piece_index: u32) -> (r: Option<Vec<ReadStep>>)
    ensures
        ({
            let m = metainfo@;
            let g = piece_parts(
                lengths_of(m),
                m.piece_length,
                piece_index,
                piece_size(m, piece_index as int),
            );
            if is_safe_part(m.name) && paths_are_safe(m, g) {
                r matches Some(steps) && read_views(steps@) == readings(m, g, g.len())
            } else {
                r is None
            }
        }),
{
    let ghost m = metainfo@;
    let base: Vec<String> = match base_path(metainfo) {
        Some(b) => b,
        None => {
            return None;
        },
    };
    let layout: FileLayout = FileLayout::new(metainfo.files.as_slice(), metainfo.piece_length);
    assert(layout.lens() =~= lengths_of(m));
    let piece_len: u64 = piece_length(metainfo, piece_index);
    let ghost g = piece_parts(lengths_of(m), m.piece_length, piece_index, piece_len as int);
    proof {
        lemma_parts(
            lengths_of(m),
            m.piece_length,
            piece_index,
            piece_len as int,
        );
    }
    let ranges: Vec<(usize, u64, u64)> = layout.piece_segment_ranges(piece_index, piece_len);
    let mut steps: Vec<ReadStep> = Vec::new();
    let mut i: usize = 0;
    assert(read_views(steps@) =~= readings(m, g, 0));
    while i < ranges.len()
        invariant
            i <= ranges@.len(),
            m == metainfo@,
            texts(base@) == seq![m.name],
            g == piece_parts(
                lengths_of(m),
                m.piece_length,
                piece_index,
                piece_size(m, piece_index as int),
            ),
            are_ranges(ranges@, g),
            forall|k: int|
                0 <= k < g.len() ==> 0 <= (#[trigger] g[k]).file < metainfo.files@.len(),
            read_views(steps@) == readings(m, g, i as nat),
            forall|k: int| 0 <= k < i ==> path_of(m, (#[trigger] g[k]).file) is Some,
        decreases ranges@.len() - i,
    {
        let s: (usize, u64, u64) = ranges[i];
        assert(g[i as int].file < metainfo.files@.len());
        let file: &TorrentFile = &metainfo.files[s.0];
        assert(m.files[s.0 as int].path == texts(file.path@));
        assert(ranges@[i as int].0 == g[i as int].file);
        match sanitize_path(base.as_slice(), file.path.as_slice()) {
            Some(path) => {
                let ghost before = steps@;
                let step: ReadStep = ReadStep { path, offset: s.1, count: s.2 };
                steps.push(step);
                assert(path_of(m, g[i as int].file) == Some(texts(path@)));
                assert(read_views(steps@) =~= read_views(before).push(step@));
                assert(read_views(steps@) =~= readings(m, g, (i + 1) as nat));
            },
            None => {
                assert(path_of(m, g[i as int].file) is None);
                assert(!paths_are_safe(m, g));
                return None;
            },
        }
        i = i + 1;
    }
    Some(steps)
}

// ---- what is read was written ----

/// The contents of files by their paths.
pub ghost struct Disk {
    pub files: Map<Seq<Seq<char>>, Seq<u8>>,
}

/// A file after `data` was written at `offset`. A gap before it is filled with zeros.
pub open spec fn written_at(f: Seq<u8>, offset: int, data: Seq<u8>) -> Seq<u8> {
    let end = offset + data.len();
    Seq::new(
        if end > f.len() {
            end as nat
        } else {
            f.len()
        },
        |i: int|
            if offset <= i < end {
                data[i - offset]
            } else if i < f.len() {
                f[i]
            } else {
                0u8
            },
    )
}

/// The files after a write.
pub open spec fn after_write(d: Disk, w: Writing) -> Disk {
    let f = if d.files.dom().contains(w.path) {
        d.files[w.path]
    } else {
        Seq::empty()
    };
    Disk { files: d.files.insert(w.path, written_at(f, w.offset, w.data)) }
}

/// The files after the first `n` writes.
pub open spec fn after_writes(d: Disk, s: Seq<Writing>, n: nat) -> Disk
    decreases n,
{
    if n == 0 {
        d
    } else {
        after_write(after_writes(d, s, (n - 1) as nat), s[n - 1])
    }
}

/// What a read gives, where the file is there and long enough.
pub open spec fn read_from(d: Disk, r: Reading) -> Option<Seq<u8>> {
    if d.files.dom().contains(r.path) && r.offset + r.count <= d.files[r.path].len() {
        Some(d.files[r.path].subrange(r.offset, r.offset + r.count))
    } else {
        None
    }
}

/// What the first `n` reads give, one after the other.
pub open spec fn read_all(d: Disk, s: Seq<Reading>, n: nat) -> Option<Seq<u8>>
    decreases n,
{
    if n == 0 {
        Some(Seq::empty())
    } else {
        match (read_all(d, s, (n - 1) as nat), read_from(d, s[n - 1])) {
            (Some(a), Some(b)) => Some(a + b),
            _ => None,
        }
    }
}

/// No two files of a torrent have one path.
pub open spec fn paths_differ(m: Meta) -> bool {
    forall|i: int, j: int|
        0 <= i < j < m.files.len() ==> (#[trigger] m.files[i]).path != (#[trigger] m.files[j]).path
}

proof fn lemma_writings(m: Meta, g: Seq<Segment>, data: Seq<u8>, n: nat)
    requires
        n <= g.len(),
        paths_are_safe(m, g),
    ensures
        writings(m, g, data, n).len() == n,
        forall|k: int|
            0 <= k < n ==> #[trigger] writings(m, g, data, n)[k] == (Writing {
                path: path_of(m, g[k].file)->0,
                offset: g[k].offset,
                data: data.subrange(g[k].from, g[k].from + g[k].len),
            }),
    decreases n,
{
    if n > 0 {
        lemma_writings(m, g, data, (n - 1) as nat);
        assert(path_of(m, g[n - 1].file) is Some);
    }
}

proof fn lemma_write_stays(d: Disk, s: Seq<Writing>, n: nat, k: int)
    requires
        n <= s.len(),
        0 <= k < n,
        forall|i: int, j: int|
            0 <= i < j < s.len() ==> (#[trigger] s[i]).path != (#[trigger] s[j]).path,
        0 <= s[k].offset,
    ensures
        read_from(
            after_writes(d, s, n),
            Reading { path: s[k].path, offset: s[k].offset, count: s[k].data.len() as int },
        ) == Some(s[k].data),
    decreases n,
{
    let before = after_writes(d, s, (n - 1) as nat);
    let now = after_writes(d, s, n);
    if k < n - 1 {
        lemma_write_stays(d, s, (n - 1) as nat, k);
        assert(s[k].path != s[n - 1].path);
        assert(now.files[s[k].path] == before.files[s[k].path]);
    } else {
        let f = now.files[s[k].path];
        assert(f.subrange(s[k].offset, s[k].offset + s[k].data.len()) =~= s[k].data);
    }
}

proof fn lemma_reads(d: Disk, s: Seq<Writing>, r: Seq<Reading>, g: Seq<Segment>, data: Seq<u8>, n: nat)
    requires
        n <= g.len(),
        s.len() == g.len(),
        r.len() == g.len(),
        forall|k: int|
            0 <= k < g.len() ==> ({
                let x = #[trigger] g[k];
                &&& 0 <= x.offset
                &&& 0 <= x.from
                &&& 0 < x.len
                &&& x.from + x.len <= data.len()
                &&& s[k].offset == x.offset
                &&& s[k].data == data.subrange(x.from, x.from + x.len)
                &&& r[k] == Reading { path: s[k].path, offset: x.offset, count: x.len }
            }),
        forall|i: int, j: int|
            0 <= i < j < s.len() ==> (#[trigger] s[i]).path != (#[trigger] s[j]).path,
    ensures
        read_all(after_writes(d, s, s.len()), r, n) == Some(parts_joined(g.take(n as int), data)),
    decreases n,
{
    if n > 0 {
        lemma_reads(d, s, r, g, data, (n - 1) as nat);
        let k = n - 1;
        let x = g[k];
        lemma_write_stays(d, s, s.len(), k);
        assert(g.take(n as int).drop_last() =~= g.take(k));
        assert(g.take(n as int).last() == x);
    } else {
        assert(g.take(0) =~= Seq::<Segment>::empty());
    }
}

/// A piece that was written to disk is read back, whatever was on the disk before: for a torrent
/// whose names and paths are safe and differ, and a piece that lies inside its files.
pub proof fn law_written_piece_reads_back(m: Meta, index: u32, data: Seq<u8>, d: Disk)
    requires
        is_safe_part(m.name),
        paths_differ(m),
        data.len() == piece_size(m, index as int),
        index * m.piece_length + data.len() <= file_start(lengths_of(m), lengths_of(m).len()),
        paths_are_safe(m, piece_parts(lengths_of(m), m.piece_length, index, data.len() as int)),
    ensures
        ({
            let g = piece_parts(lengths_of(m), m.piece_length, index, data.len() as int);
            let w = writings(m, g, data, g.len());
            read_all(after_writes(d, w, w.len()), readings(m, g, g.len()), g.len()) == Some(data)
        }),
{
    let lens = lengths_of(m);
    let g = piece_parts(lens, m.piece_length, index, data.len() as int);
    lemma_parts(lens, m.piece_length, index, data.len() as int);
    law_parts_make_the_piece(lens, m.piece_length, index, data);
    lemma_writings(m, g, data, g.len());
    let w = writings(m, g, data, g.len());
    let r = readings(m, g, g.len());
    assert forall|i: int, j: int| 0 <= i < j < w.len() implies (#[trigger] w[i]).path != (
    #[trigger] w[j]).path by {
        let a = g[i].file;
        let b = g[j].file;
        assert(a < b);
        assert(path_of(m, a) is Some && path_of(m, b) is Some);
        assert(m.files[a].path != m.files[b].path);
        let p = seq![m.name] + m.files[a].path;
        let q = seq![m.name] + m.files[b].path;
        assert(p.skip(1) =~= m.files[a].path);
        assert(q.skip(1) =~= m.files[b].path);
    }
    lemma_reads(d, w, r, g, data, g.len());
    assert(g.take(g.len() as int) =~= g);
}

} // verus!
