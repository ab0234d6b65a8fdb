//! Where the description of the files stands in a torrent file.
//!
//! A torrent is named by a digest of that part exactly as it stands, so it is found in the bytes
//! and not made again from what was parsed.
use crate::bytes::find_byte;
use crate::bytes::find_from;
use crate::bytes::same_bytes;
use crate::text::is_digit;
use crate::text::parse_unsigned;
use crate::text::unsigned_number;
use crate::torrent::error::bad_metainfo;
use crate::torrent::error::TorrentError;
use crate::torrent::error::TorrentFault;
use vstd::prelude::*;
use vstd::utf8::encode_utf8;

verus! {

/// A fault of a torrent file.
pub open spec fn bad(text: Seq<char>) -> TorrentFault {
    TorrentFault::InvalidMetainfo(text)
}

/// Where the byte string at `pos` ends.
pub open spec fn string_end(data: Seq<u8>, pos: int) -> Result<int, TorrentFault> {
    match find_from(data, pos, 0x3a) {
        None => Err(bad("Unterminated string length"@)),
        Some(colon) => match unsigned_number(data.subrange(pos, colon)) {
            None => Err(bad("Invalid string length"@)),
            Some(n) => if n > usize::MAX {
                Err(bad("Invalid string length"@))
            } else if colon + 1 + n > usize::MAX {
                Err(bad("String length overflow"@))
            } else if colon + 1 + n > data.len() {
                Err(bad("String exceeds input length"@))
            } else {
                Ok(colon + 1 + n)
            },
        },
    }
}

/// Where the value at `pos` ends.
pub open spec fn value_end(data: Seq<u8>, pos: int) -> Result<int, TorrentFault>
    decreases data.len() - pos, 0nat,
{
    if pos < 0 || pos >= data.len() {
        Err(bad("Truncated value"@))
    } else if data[pos] == 0x69 {
        match find_from(data, pos, 0x65) {
            None => Err(bad("Unterminated integer"@)),
            Some(p) => Ok(p + 1),
        }
    } else if data[pos] == 0x6c || data[pos] == 0x64 {
        items_end(data, pos + 1, data[pos] == 0x64)
    } else if is_digit(data[pos]) {
        string_end(data, pos)
    } else {
        Err(bad("Invalid bencode value"@))
    }
}

/// Where the list or dictionary whose next item is at `pos` ends.
pub open spec fn items_end(data: Seq<u8>, pos: int, keyed: bool) -> Result<int, TorrentFault>
    decreases data.len() - pos, 1nat,
{
    if pos < 0 || pos >= data.len() {
        Err(bad("Truncated list or dict"@))
    } else if data[pos] == 0x65 {
        Ok(pos + 1)
    } else if keyed {
        match string_end(data, pos) {
            Err(f) => Err(f),
            Ok(v) => if v <= pos {
                Err(bad("Invalid bencode value"@))
            } else {
                match value_end(data, v) {
                    Err(f) => Err(f),
                    Ok(q) => if q <= v || q > data.len() {
                        Err(bad("Invalid bencode value"@))
                    } else {
                        items_end(data, q, keyed)
                    },
                }
            },
        }
    } else {
        match value_end(data, pos) {
            Err(f) => Err(f),
            Ok(q) => if q <= pos || q > data.len() {
                Err(bad("Invalid bencode value"@))
            } else {
                items_end(data, q, keyed)
            },
        }
    }
}

/// The bytes of the key of the name `info`.
pub open spec fn info_key() -> Seq<u8> {
    encode_utf8("info"@)
}

/// The entries of the outermost dictionary from `pos` on: where the value under `info` stands, if
/// one was not found before.
pub open spec fn span_from(data: Seq<u8>, pos: int, found: Option<(int, int)>) -> Result<
    (int, int),
    TorrentFault,
>
    decreases data.len() - pos,
{
    if pos < 0 || pos >= data.len() {
        Err(bad("Truncated top-level dict"@))
    } else if data[pos] == 0x65 {
        match found {
            None => Err(bad("Missing 'info' key"@)),
            Some(s) => Ok(s),
        }
    } else {
        match string_end(data, pos) {
            Err(f) => Err(f),
            Ok(v) => match value_end(data, v) {
                Err(f) => Err(f),
                Ok(q) => if q <= pos || q > data.len() || v <= pos {
                    Err(bad("Invalid bencode value"@))
                } else {
                    let colon = find_from(data, pos, 0x3a)->0;
                    let is_info = data.subrange(colon + 1, v) == info_key();
                    if is_info && found is Some {
                        Err(bad("duplicate 'info' key"@))
                    } else {
                        span_from(
                            data,
                            q,
                            if is_info {
                                Some((v, q))
                            } else {
                                found
                            },
                        )
                    }
                },
            },
        }
    }
}

/// Where the value under `info` stands in a torrent file.
pub open spec fn info_span(data: Seq<u8>) -> Result<(int, int), TorrentFault> {
    if data.len() == 0 || data[0] != 0x64 {
        Err(bad("Root is not a dict"@))
    } else {
        span_from(data, 1, None)
    }
}

proof fn lemma_string_end(data: Seq<u8>, pos: int)
    requires
        0 <= pos <= data.len(),
    ensures
        string_end(data, pos) matches Ok(v) ==> pos < v <= data.len() && find_from(
            data,
            pos,
            0x3a,
        ) is Some && pos <= find_from(data, pos, 0x3a)->0 < v,
{
    crate::bytes::lemma_find_from(data, pos, 0x3a);
}

proof fn lemma_value_end(data: Seq<u8>, pos: int)
    requires
        0 <= pos <= data.len(),
    ensures
        value_end(data, pos) matches Ok(q) ==> pos < q <= data.len(),
    decreases data.len() - pos, 0nat,
{
    if pos < data.len() {
        crate::bytes::lemma_find_from(data, pos, 0x65);
        lemma_string_end(data, pos);
        if data[pos] == 0x6c || data[pos] == 0x64 {
            lemma_items_end(data, pos + 1, data[pos] == 0x64);
        }
    }
}

proof fn lemma_items_end(data: Seq<u8>, pos: int, keyed: bool)
    requires
        0 <= pos <= data.len(),
    ensures
        items_end(data, pos, keyed) matches Ok(q) ==> pos < q <= data.len(),
    decreases data.len() - pos, 1nat,
{
    if pos < data.len() && data[pos] != 0x65 {
        lemma_string_end(data, pos);
        if keyed {
            if let Ok(v) = string_end(data, pos) {
                lemma_value_end(data, v);
                if let Ok(q) = value_end(data, v) {
                    lemma_items_end(data, q, keyed);
                }
            }
        } else {
            lemma_value_end(data, pos);
            if let Ok(q) = value_end(data, pos) {
                lemma_items_end(data, q, keyed);
            }
        }
    }
}

/// Skips a byte string: where it ends.
pub fn skip_string(data: &[u8], pos: usize) -> (r: Result<usize, TorrentError>)
    requires
        pos <= data@.len(),
    ensures
        match string_end(data@, pos as int) {
            Ok(p) => r matches Ok(q) && q == p && pos < q <= data@.len(),
            Err(f) => r matches Err(e) && e@ == f,
        },
{
    proof {
        lemma_string_end(data@, pos as int);
    }
    let colon: usize = match find_byte(data, pos, 0x3a) {
        None => {
            return Err(bad_metainfo("Unterminated string length"));
        },
        Some(c) => c,
    };
    let digits: &[u8] = vstd::slice::slice_subrange(data, pos, colon);
    let n: usize = match parse_unsigned(digits, usize::MAX as u64) {
        None => {
            return Err(bad_metainfo("Invalid string length"));
        },
        Some(n) => n as usize,
    };
    assert(colon < data.len());
    match (colon + 1).checked_add(n) {
        None => Err(bad_metainfo("String length overflow")),
        Some(end) => {
            if end > data.len() {
                Err(bad_metainfo("String exceeds input length"))
            } else {
                Ok(end)
            }
        },
    }
}

/// Skips a value: where it ends.
pub fn skip_value(data: &[u8], pos: usize) -> (r: Result<usize, TorrentError>)
    requires
        pos <= data@.len(),
    ensures
        match value_end(data@, pos as int) {
            Ok(p) => r matches Ok(q) && q == p && pos < q <= data@.len(),
            Err(f) => r matches Err(e) && e@ == f,
        },
    decreases data@.len() - pos,
{
    proof {
        lemma_value_end(data@, pos as int);
    }
    if pos >= data.len() {
        return Err(bad_metainfo("Truncated value"));
    }
    let c: u8 = data[pos];
    if c == 0x69 {
        match find_byte(data, pos, 0x65) {
            None => Err(bad_metainfo("Unterminated integer")),
            Some(p) => Ok(p + 1),
        }
    } else if c == 0x6c || c == 0x64 {
        let keyed: bool = c == 0x64;
        let mut at: usize = pos + 1;
        while at < data.len()
            invariant
                pos < at <= data@.len(),
                value_end(data@, pos as int) == items_end(data@, at as int, keyed),
                value_end(data@, pos as int) matches Ok(q) ==> pos < q <= data@.len(),
            decreases data@.len() - at,
        {
            if data[at] == 0x65 {
                return Ok(at + 1);
            }
            let mut start: usize = at;
            if keyed {
                start = skip_string(data, at)?;
            }
            proof {
                lemma_value_end(data@, start as int);
            }
            at = skip_value(data, start)?;
        }
        Err(bad_metainfo("Truncated list or dict"))
    } else if c >= 0x30 && c <= 0x39 {
        skip_string(data, pos)
    } else {
        Err(bad_metainfo("Invalid bencode value"))
    }
}

/// Finds the value under `info` in the outermost dictionary: where it starts and ends.
pub fn find_info_span(data: &[u8]) -> (r: Result<(usize, usize), TorrentError>)
    ensures
        match info_span(data@) {
            Ok((a, b)) => r matches Ok(s) && s.0 == a && s.1 == b && s.0 <= s.1 <= data@.len(),
            Err(f) => r matches Err(e) && e@ == f,
        },
{
    if data.len() == 0 || data[0] != 0x64 {
        return Err(bad_metainfo("Root is not a dict"));
    }
    let mut pos: usize = 1;
    let mut found: Option<(usize, usize)> = None;
    while pos < data.len()
        invariant
            1 <= pos <= data@.len(),
            info_span(data@) == span_from(
                data@,
                pos as int,
                match found {
                    Some(s) => Some((s.0 as int, s.1 as int)),
                    None => None,
                },
            ),
            found matches Some(s) ==> s.0 <= s.1 <= data@.len(),
        decreases data@.len() - pos,
    {
        if data[pos] == 0x65 {
            return match found {
                None => Err(bad_metainfo("Missing 'info' key")),
                Some(s) => Ok(s),
            };
        }
        proof {
            lemma_string_end(data@, pos as int);
        }
        let value: usize = skip_string(data, pos)?;
        proof {
            lemma_value_end(data@, value as int);
        }
        let next: usize = skip_value(data, value)?;
        let colon: usize = match find_byte(data, pos, 0x3a) {
            Some(c) => c,
            None => {
                return Err(bad_metainfo("Invalid dict key"));
            },
        };
        let key: &[u8] = vstd::slice::slice_subrange(data, colon + 1, value);
        if same_bytes(key, "info".as_bytes()) {
            if found.is_some() {
                return Err(bad_metainfo("duplicate 'info' key"));
            }
            found = Some((value, next));
        }
        pos = next;
    }
    Err(bad_metainfo("Truncated top-level dict"))
}

} // verus!
