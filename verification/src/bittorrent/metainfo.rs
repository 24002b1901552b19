//! Parsing `.torrent` files.
//!
//! A `.torrent` file is a bencode dictionary describing what to download:
//! the trackers to ask, the file layout, and a hash for every piece.
//!
//! Single-file and multi-file torrents come out in one shape: [`Info::files`]
//! is always a flat list with cumulative offsets, and a single-file torrent
//! has one entry at offset 0.
//!
//! Torrent files come from strangers, so parsing rejects paths containing
//! `..`, separators or null bytes, negative file lengths, offsets that
//! overflow when summed, a piece count that disagrees with the total size,
//! and a `pieces` field whose length is not a multiple of 20.

use vstd::prelude::*;
use vstd::slice::{slice_subrange, slice_to_vec};
use vstd::string::StringSliceAdditionalSpecFns;

use crate::bencode::decoder::{decode_dictionary_with_spans, spec_decode, spec_decode_with_spans, DecoderError};
use crate::bencode::spans::{law_span_lookup_matches_root, law_spans_root_is_decoded_root};
use crate::bencode::spec::{dict_get, SpecBencode};
use crate::bencode::value::{kind_name, lemma_list_view, list_view, Bencode, BencodeError, Dictionary};
use crate::hashing::{sha1, sha1_digest};
use crate::text::{lossy_utf8, string_from_utf8_lossy};

use super::util::{
    as_u64, check_path_component, get_key, get_opt, get_opt_string_lossy, safe_component,
    spec_opt_string_lossy, to_path,
};

verus! {

/// A `.torrent` file could not be parsed.
#[derive(Debug)]
pub enum MetainfoError {
    /// A required key was absent from a dictionary.
    KeyNotFound(&'static str),
    /// The `pieces` field's length was not a multiple of 20.
    InvalidPiecesLen,
    /// The `piece length` was zero, negative, or too large.
    InvalidPieceLength,
    /// The number of piece hashes did not match what the total size implies.
    InvalidPieceCount,
    /// A file length was negative.
    NegativeLength,
    /// A path was empty, or contained `.`, `..`, a separator, or a null byte.
    InvalidPath,
    /// Summed file lengths exceeded what a `u64` can hold.
    OffsetOverflow,
    /// Neither `length` nor `files` was present.
    MissingFileInfo,
    /// Both `length` and `files` were present.
    BothFileKeys,
    /// The recorded span of the `info` dictionary fell outside the input.
    OutOfBoundsInfo,
    /// The file was not valid bencode.
    DecoderError(DecoderError),
    /// A value was not the type the format requires.
    BencodeError(BencodeError),
}

/// The model of a [`MetainfoError`], with names taken as text.
pub enum SpecMetainfoError {
    KeyNotFound(Seq<char>),
    InvalidPiecesLen,
    InvalidPieceLength,
    InvalidPieceCount,
    NegativeLength,
    InvalidPath,
    OffsetOverflow,
    MissingFileInfo,
    BothFileKeys,
    OutOfBoundsInfo,
    Decoder(DecoderError),
    WrongType { want: Seq<char>, got: Seq<char> },
}

impl MetainfoError {
    pub open spec fn view(&self) -> SpecMetainfoError {
        match self {
            MetainfoError::KeyNotFound(k) => SpecMetainfoError::KeyNotFound(k@),
            MetainfoError::InvalidPiecesLen => SpecMetainfoError::InvalidPiecesLen,
            MetainfoError::InvalidPieceLength => SpecMetainfoError::InvalidPieceLength,
            MetainfoError::InvalidPieceCount => SpecMetainfoError::InvalidPieceCount,
            MetainfoError::NegativeLength => SpecMetainfoError::NegativeLength,
            MetainfoError::InvalidPath => SpecMetainfoError::InvalidPath,
            MetainfoError::OffsetOverflow => SpecMetainfoError::OffsetOverflow,
            MetainfoError::MissingFileInfo => SpecMetainfoError::MissingFileInfo,
            MetainfoError::BothFileKeys => SpecMetainfoError::BothFileKeys,
            MetainfoError::OutOfBoundsInfo => SpecMetainfoError::OutOfBoundsInfo,
            MetainfoError::DecoderError(e) => SpecMetainfoError::Decoder(*e),
            MetainfoError::BencodeError(BencodeError::WrongType { want, got }) => SpecMetainfoError::WrongType {
                want: want@,
                got: got@,
            },
        }
    }
}

/// What the torrent describes: the files, how they are split, and their hashes.
#[derive(Debug)]
pub struct Info {
    /// Every file in order, with cumulative byte offsets.
    pub files: Vec<FileEntry>,
    /// Total size of all files in bytes.
    pub length: u64,
    /// Suggested file or directory name, as raw bytes.
    pub name: Vec<u8>,
    /// Bytes per piece; the last piece may be shorter.
    pub piece_length: u32,
    /// One SHA-1 hash per piece, in order.
    pub pieces: Vec<[u8; 20]>,
    /// Whether the torrent is marked private (BEP 27).
    pub private: bool,
}

/// One file within a torrent.
#[derive(Debug)]
pub struct FileEntry {
    /// Size of this file in bytes.
    pub length: u64,
    /// Path relative to the download directory, one component per entry:
    /// the torrent's name first, then each component the torrent lists,
    /// every one read as text lossily.
    pub path: Vec<String>,
    /// Where this file begins in the torrent's continuous byte strip.
    pub offset: u64,
}

/// A parsed `.torrent` file.
#[derive(Debug)]
pub struct Metainfo {
    /// The primary tracker URL, if any.
    pub announce: Option<String>,
    /// Tiers of backup trackers (BEP 12).
    pub announce_list: Vec<Vec<String>>,
    /// What the torrent contains and how it is divided.
    pub info: Info,
    /// SHA-1 of the raw bytes of the `info` dictionary as they appeared.
    pub info_hash: [u8; 20],
}

/// The model of a [`FileEntry`].
pub struct SpecFileEntry {
    pub length: u64,
    pub path: Seq<Seq<char>>,
    pub offset: u64,
}

/// The model of an [`Info`].
pub struct SpecInfo {
    pub files: Seq<SpecFileEntry>,
    pub length: u64,
    pub name: Seq<u8>,
    pub piece_length: u32,
    pub pieces: Seq<Seq<u8>>,
    pub private: bool,
}

/// The model of a [`Metainfo`].
pub struct SpecMetainfo {
    pub announce: Option<Seq<char>>,
    pub announce_list: Seq<Seq<Seq<char>>>,
    pub info: SpecInfo,
    pub info_hash: Seq<u8>,
}

impl FileEntry {
    pub open spec fn view(&self) -> SpecFileEntry {
        SpecFileEntry {
            length: self.length,
            path: Seq::new(self.path@.len(), |i: int| self.path@[i]@),
            offset: self.offset,
        }
    }

    /// Assemble an entry.
    fn new(length: u64, path: Vec<String>, offset: u64) -> (e: Self)
        ensures
            e.length == length,
            e.path == path,
            e.offset == offset,
    {
        FileEntry { length, path, offset }
    }
}

impl Info {
    pub open spec fn view(&self) -> SpecInfo {
        SpecInfo {
            files: Seq::new(self.files@.len(), |i: int| self.files@[i]@),
            length: self.length,
            name: self.name@,
            piece_length: self.piece_length,
            pieces: Seq::new(self.pieces@.len(), |i: int| self.pieces@[i]@),
            private: self.private,
        }
    }
}

impl Metainfo {
    pub open spec fn view(&self) -> SpecMetainfo {
        SpecMetainfo {
            announce: match self.announce {
                Some(s) => Some(s@),
                None => None,
            },
            announce_list: Seq::new(
                self.announce_list@.len(),
                |i: int| Seq::new(self.announce_list@[i]@.len(), |j: int| self.announce_list@[i]@[j]@),
            ),
            info: self.info@,
            info_hash: self.info_hash@,
        }
    }
}


// ---------------------------------------------------------------------
// What parsing gives, as spec functions over the decoded models.
// ---------------------------------------------------------------------

/// A required entry of a dictionary.
pub open spec fn spec_required(d: Seq<(Seq<u8>, SpecBencode)>, key: &'static str) -> Result<
    SpecBencode,
    SpecMetainfoError,
> {
    match dict_get(d, key.spec_bytes()) {
        Some(v) => Ok(v),
        None => Err(SpecMetainfoError::KeyNotFound(key@)),
    }
}

/// The type-mismatch error for wanting `want` of `v`.
pub open spec fn wrong_type(want: &'static str, v: SpecBencode) -> SpecMetainfoError {
    SpecMetainfoError::WrongType { want: want@, got: kind_name(v) }
}

pub open spec fn want_int(v: SpecBencode) -> Result<int, SpecMetainfoError> {
    match v {
        SpecBencode::Int(n) => Ok(n),
        _ => Err(wrong_type("integer", v)),
    }
}

pub open spec fn want_bytes(v: SpecBencode) -> Result<Seq<u8>, SpecMetainfoError> {
    match v {
        SpecBencode::Str(b) => Ok(b),
        _ => Err(wrong_type("string", v)),
    }
}

pub open spec fn want_list(v: SpecBencode) -> Result<Seq<SpecBencode>, SpecMetainfoError> {
    match v {
        SpecBencode::List(items) => Ok(items),
        _ => Err(wrong_type("list", v)),
    }
}

pub open spec fn want_dict(v: SpecBencode) -> Result<Seq<(Seq<u8>, SpecBencode)>, SpecMetainfoError> {
    match v {
        SpecBencode::Dict(entries) => Ok(entries),
        _ => Err(wrong_type("dictionary", v)),
    }
}

/// A size: a non-negative integer.
pub open spec fn want_size(v: SpecBencode) -> Result<u64, SpecMetainfoError> {
    match v {
        SpecBencode::Int(n) => if n >= 0 {
            Ok(n as u64)
        } else {
            Err(SpecMetainfoError::NegativeLength)
        },
        _ => Err(wrong_type("integer", v)),
    }
}

/// One tier of trackers: each URL read as text, lossily.
pub open spec fn spec_tier(urls: Seq<SpecBencode>) -> Result<Seq<Seq<char>>, SpecMetainfoError>
    decreases urls.len(),
{
    if urls.len() == 0 {
        Ok(Seq::empty())
    } else {
        match want_bytes(urls[0]) {
            Err(e) => Err(e),
            Ok(b) => match spec_tier(urls.drop_first()) {
                Err(e) => Err(e),
                Ok(rest) => Ok(seq![lossy_utf8(b)] + rest),
            },
        }
    }
}

/// The tiers of an `announce-list`.
pub open spec fn spec_tiers(tiers: Seq<SpecBencode>) -> Result<Seq<Seq<Seq<char>>>, SpecMetainfoError>
    decreases tiers.len(),
{
    if tiers.len() == 0 {
        Ok(Seq::empty())
    } else {
        match want_list(tiers[0]) {
            Err(e) => Err(e),
            Ok(urls) => match spec_tier(urls) {
                Err(e) => Err(e),
                Ok(t) => match spec_tiers(tiers.drop_first()) {
                    Err(e) => Err(e),
                    Ok(rest) => Ok(seq![t] + rest),
                },
            },
        }
    }
}

/// The optional `announce-list` of a torrent's root dictionary.
pub open spec fn spec_announce_list(root: Seq<(Seq<u8>, SpecBencode)>) -> Result<
    Seq<Seq<Seq<char>>>,
    SpecMetainfoError,
> {
    match dict_get(root, "announce-list".spec_bytes()) {
        None => Ok(Seq::empty()),
        Some(v) => match want_list(v) {
            Err(e) => Err(e),
            Ok(tiers) => spec_tiers(tiers),
        },
    }
}

/// The path components of a file entry: each a safe byte string, read as
/// text lossily.
pub open spec fn spec_components(comps: Seq<SpecBencode>) -> Result<Seq<Seq<char>>, SpecMetainfoError>
    decreases comps.len(),
{
    if comps.len() == 0 {
        Ok(Seq::empty())
    } else {
        match want_bytes(comps[0]) {
            Err(e) => Err(e),
            Ok(b) => if !safe_component(b) {
                Err(SpecMetainfoError::InvalidPath)
            } else {
                match spec_components(comps.drop_first()) {
                    Err(e) => Err(e),
                    Ok(rest) => Ok(seq![lossy_utf8(b)] + rest),
                }
            },
        }
    }
}

/// One entry of a multi-file torrent's `files` list, starting at `offset`.
pub open spec fn spec_file(v: SpecBencode, name: Seq<u8>, offset: u64) -> Result<SpecFileEntry, SpecMetainfoError> {
    match want_dict(v) {
        Err(e) => Err(e),
        Ok(d) => match spec_required(d, "length") {
            Err(e) => Err(e),
            Ok(lv) => match want_size(lv) {
                Err(e) => Err(e),
                Ok(length) => match spec_required(d, "path") {
                    Err(e) => Err(e),
                    Ok(pv) => match want_list(pv) {
                        Err(e) => Err(e),
                        Ok(comps) => if comps.len() == 0 {
                            Err(SpecMetainfoError::InvalidPath)
                        } else {
                            match spec_components(comps) {
                                Err(e) => Err(e),
                                Ok(cs) => Ok(SpecFileEntry { length, path: seq![lossy_utf8(name)] + cs, offset }),
                            }
                        },
                    },
                },
            },
        },
    }
}

/// The entries of a `files` list from `offset` on, and the offset after
/// the last of them.
pub open spec fn spec_files(list: Seq<SpecBencode>, name: Seq<u8>, offset: u64) -> Result<
    (Seq<SpecFileEntry>, u64),
    SpecMetainfoError,
>
    decreases list.len(),
{
    if list.len() == 0 {
        Ok((Seq::empty(), offset))
    } else {
        match spec_file(list[0], name, offset) {
            Err(e) => Err(e),
            Ok(entry) => if offset + entry.length > u64::MAX {
                Err(SpecMetainfoError::OffsetOverflow)
            } else {
                match spec_files(list.drop_first(), name, (offset + entry.length) as u64) {
                    Err(e) => Err(e),
                    Ok((rest, total)) => Ok((seq![entry] + rest, total)),
                }
            },
        }
    }
}

/// The flat file list with cumulative offsets, and the total size.
pub open spec fn spec_parse_files(info: Seq<(Seq<u8>, SpecBencode)>, name: Seq<u8>) -> Result<
    (Seq<SpecFileEntry>, u64),
    SpecMetainfoError,
> {
    match (dict_get(info, "length".spec_bytes()), dict_get(info, "files".spec_bytes())) {
        (Some(l), None) => match want_size(l) {
            Err(e) => Err(e),
            Ok(len) => Ok((seq![SpecFileEntry { length: len, path: seq![lossy_utf8(name)], offset: 0 }], len)),
        },
        (None, Some(f)) => match want_list(f) {
            Err(e) => Err(e),
            Ok(list) => spec_files(list, name, 0),
        },
        (Some(_), Some(_)) => Err(SpecMetainfoError::BothFileKeys),
        (None, None) => Err(SpecMetainfoError::MissingFileInfo),
    }
}

/// The 20-byte piece hashes that a `pieces` string holds, in order.
pub open spec fn piece_hashes(p: Seq<u8>) -> Seq<Seq<u8>> {
    Seq::new(p.len() / 20, |i: int| p.subrange(20 * i, 20 * i + 20))
}

/// `a / b` rounded up.
pub open spec fn ceil_div(a: nat, b: nat) -> nat {
    a / b + if a % b == 0 { 0nat } else { 1nat }
}

/// The validated contents of an `info` dictionary.
pub open spec fn spec_parse_info(info: Seq<(Seq<u8>, SpecBencode)>) -> Result<SpecInfo, SpecMetainfoError> {
    match spec_required(info, "name") {
        Err(e) => Err(e),
        Ok(nv) => match want_bytes(nv) {
            Err(e) => Err(e),
            Ok(name) => if !safe_component(name) {
                Err(SpecMetainfoError::InvalidPath)
            } else {
                match spec_required(info, "piece length") {
                    Err(e) => Err(e),
                    Ok(plv) => match want_int(plv) {
                        Err(e) => Err(e),
                        Ok(pl) => if pl < 0 || pl > u32::MAX || pl == 0 {
                            Err(SpecMetainfoError::InvalidPieceLength)
                        } else {
                            match spec_private(info) {
                                Err(e) => Err(e),
                                Ok(private) => match spec_required(info, "pieces") {
                                    Err(e) => Err(e),
                                    Ok(pv) => match want_bytes(pv) {
                                        Err(e) => Err(e),
                                        Ok(p) => if p.len() % 20 != 0 {
                                            Err(SpecMetainfoError::InvalidPiecesLen)
                                        } else {
                                            match spec_parse_files(info, name) {
                                                Err(e) => Err(e),
                                                Ok((files, length)) => if ceil_div(length as nat, pl as nat)
                                                    != p.len() / 20 {
                                                    Err(SpecMetainfoError::InvalidPieceCount)
                                                } else {
                                                    Ok(
                                                        SpecInfo {
                                                            files,
                                                            length,
                                                            name,
                                                            piece_length: pl as u32,
                                                            pieces: piece_hashes(p),
                                                            private,
                                                        },
                                                    )
                                                },
                                            }
                                        },
                                    },
                                },
                            }
                        },
                    },
                }
            },
        },
    }
}

/// The `private` flag: absent means public, any non-zero integer private.
pub open spec fn spec_private(info: Seq<(Seq<u8>, SpecBencode)>) -> Result<bool, SpecMetainfoError> {
    match dict_get(info, "private".spec_bytes()) {
        None => Ok(false),
        Some(v) => match want_int(v) {
            Err(e) => Err(e),
            Ok(n) => Ok(n != 0),
        },
    }
}

/// What [`Metainfo::from_bytes`] gives for the contents of a file.
pub open spec fn spec_from_bytes(data: Seq<u8>) -> Result<SpecMetainfo, SpecMetainfoError> {
    match spec_decode_with_spans(data) {
        Err(e) => Err(SpecMetainfoError::Decoder(e)),
        Ok((root, spans)) => match spec_opt_string_lossy(root, "announce".spec_bytes()) {
            Err(e) => Err(e),
            Ok(announce) => match spec_announce_list(root) {
                Err(e) => Err(e),
                Ok(announce_list) => match spec_required(root, "info") {
                    Err(e) => Err(e),
                    Ok(iv) => match want_dict(iv) {
                        Err(e) => Err(e),
                        Ok(id) => match spec_parse_info(id) {
                            Err(e) => Err(e),
                            Ok(info) => match dict_get(spans, "info".spec_bytes()) {
                                None => Err(SpecMetainfoError::KeyNotFound("info"@)),
                                Some((start, end)) => if start > end || end > data.len() {
                                    Err(SpecMetainfoError::OutOfBoundsInfo)
                                } else {
                                    Ok(
                                        SpecMetainfo {
                                            announce,
                                            announce_list,
                                            info,
                                            info_hash: sha1(data.subrange(start as int, end as int)),
                                        },
                                    )
                                },
                            },
                        },
                    },
                },
            },
        },
    }
}


// ---------------------------------------------------------------------
// Parsing.
// ---------------------------------------------------------------------

/// The text model of a list of strings.
pub open spec fn strings_view(v: Seq<String>) -> Seq<Seq<char>> {
    Seq::new(v.len(), |i: int| v[i]@)
}

/// The text model of tiers of strings.
pub open spec fn tiers_view(v: Seq<Vec<String>>) -> Seq<Seq<Seq<char>>> {
    Seq::new(v.len(), |i: int| strings_view(v[i]@))
}

/// The models of a list of file entries.
pub open spec fn entries_model(v: Seq<FileEntry>) -> Seq<SpecFileEntry> {
    Seq::new(v.len(), |i: int| v[i]@)
}

/// Lift a type mismatch into a metainfo error.
fn lift<T>(r: Result<T, BencodeError>) -> (out: Result<T, MetainfoError>)
    ensures
        match r {
            Ok(v) => out == Ok::<T, MetainfoError>(v),
            Err(e) => out == Err::<T, MetainfoError>(MetainfoError::BencodeError(e)),
        },
{
    match r {
        Ok(v) => Ok(v),
        Err(e) => Err(MetainfoError::BencodeError(e)),
    }
}

/// Read one tier of tracker URLs, lossily as text.
fn parse_tier(urls: &[Bencode]) -> (r: Result<Vec<String>, MetainfoError>)
    ensures
        match spec_tier(list_view(urls@)) {
            Ok(t) => r is Ok && strings_view(r->Ok_0@) == t,
            Err(e) => r is Err && r->Err_0@ == e,
        },
{
    let ghost all = list_view(urls@);
    proof {
        lemma_list_view(urls@);
    }
    let mut out: Vec<String> = Vec::new();
    let mut i: usize = 0;
    assert(all.skip(0) =~= all);
    assert(strings_view(out@) =~= Seq::<Seq<char>>::empty());
    while i < urls.len()
        invariant
            i <= urls@.len(),
            all == list_view(urls@),
            all.len() == urls@.len(),
            forall|j: int| 0 <= j < all.len() ==> #[trigger] all[j] == urls@[j]@,
            spec_tier(all) == match spec_tier(all.skip(i as int)) {
                Ok(rest) => Ok(strings_view(out@) + rest),
                Err(e) => Err::<Seq<Seq<char>>, SpecMetainfoError>(e),
            },
        decreases urls@.len() - i,
    {
        let ghost rest = all.skip(i as int);
        assert(rest[0] == all[i as int]);
        assert(rest.drop_first() =~= all.skip(i + 1));
        let bytes = match lift(urls[i].as_bytes()) {
            Ok(b) => b,
            Err(e) => {
                return Err(e);
            },
        };
        let ghost before = out@;
        out.push(string_from_utf8_lossy(bytes));
        assert(strings_view(out@) =~= strings_view(before) + seq![lossy_utf8(bytes@)]);
        proof {
            match spec_tier(all.skip(i + 1)) {
                Ok(r2) => {
                    assert(strings_view(before) + (seq![lossy_utf8(bytes@)] + r2) =~= strings_view(out@) + r2);
                },
                Err(_) => {},
            }
        }
        i = i + 1;
    }
    assert(all.skip(i as int) =~= Seq::<SpecBencode>::empty());
    assert(strings_view(out@) + Seq::<Seq<char>>::empty() =~= strings_view(out@));
    Ok(out)
}

/// Read the optional `announce-list` into tiers of tracker URLs.
fn parse_announce_list(root: &Dictionary) -> (r: Result<Vec<Vec<String>>, MetainfoError>)
    ensures
        match spec_announce_list(root@) {
            Ok(t) => r is Ok && tiers_view(r->Ok_0@) == t,
            Err(e) => r is Err && r->Err_0@ == e,
        },
{
    let tiers = match get_opt(root, "announce-list") {
        Some(t) => t,
        None => {
            let v: Vec<Vec<String>> = Vec::new();
            assert(tiers_view(v@) =~= Seq::<Seq<Seq<char>>>::empty());
            return Ok(v);
        },
    };
    let tiers = match lift(tiers.as_list()) {
        Ok(t) => t,
        Err(e) => {
            return Err(e);
        },
    };
    let ghost all = list_view(tiers@);
    proof {
        lemma_list_view(tiers@);
    }
    let mut out: Vec<Vec<String>> = Vec::new();
    let mut i: usize = 0;
    assert(all.skip(0) =~= all);
    assert(tiers_view(out@) =~= Seq::<Seq<Seq<char>>>::empty());
    while i < tiers.len()
        invariant
            i <= tiers@.len(),
            all == list_view(tiers@),
            all.len() == tiers@.len(),
            forall|j: int| 0 <= j < all.len() ==> #[trigger] all[j] == tiers@[j]@,
            spec_announce_list(root@) == spec_tiers(all),
            spec_tiers(all) == match spec_tiers(all.skip(i as int)) {
                Ok(rest) => Ok(tiers_view(out@) + rest),
                Err(e) => Err::<Seq<Seq<Seq<char>>>, SpecMetainfoError>(e),
            },
        decreases tiers@.len() - i,
    {
        let ghost rest = all.skip(i as int);
        assert(rest[0] == all[i as int]);
        assert(rest.drop_first() =~= all.skip(i + 1));
        let urls = match lift(tiers[i].as_list()) {
            Ok(u) => u,
            Err(e) => {
                return Err(e);
            },
        };
        let tier = match parse_tier(urls) {
            Ok(t) => t,
            Err(e) => {
                return Err(e);
            },
        };
        let ghost before = out@;
        let ghost tv = strings_view(tier@);
        out.push(tier);
        assert(tiers_view(out@) =~= tiers_view(before) + seq![tv]);
        proof {
            match spec_tiers(all.skip(i + 1)) {
                Ok(r2) => {
                    assert(tiers_view(before) + (seq![tv] + r2) =~= tiers_view(out@) + r2);
                },
                Err(_) => {},
            }
        }
        i = i + 1;
    }
    assert(all.skip(i as int) =~= Seq::<SpecBencode>::empty());
    assert(tiers_view(out@) + Seq::<Seq<Seq<char>>>::empty() =~= tiers_view(out@));
    Ok(out)
}

/// The path of a file: the torrent's name, then each listed component,
/// every component checked to be safe and read as text lossily.
fn parse_path(name: &[u8], comps: &[Bencode]) -> (r: Result<Vec<String>, MetainfoError>)
    ensures
        match spec_components(list_view(comps@)) {
            Ok(cs) => r is Ok && strings_view(r->Ok_0@) == seq![lossy_utf8(name@)] + cs,
            Err(e) => r is Err && r->Err_0@ == e,
        },
{
    let ghost all = list_view(comps@);
    proof {
        lemma_list_view(comps@);
    }
    let mut out: Vec<String> = Vec::new();
    out.push(to_path(name));
    let mut i: usize = 0;
    assert(all.skip(0) =~= all);
    assert(strings_view(out@).drop_first() =~= Seq::<Seq<char>>::empty());
    while i < comps.len()
        invariant
            i <= comps@.len(),
            all == list_view(comps@),
            all.len() == comps@.len(),
            forall|j: int| 0 <= j < all.len() ==> #[trigger] all[j] == comps@[j]@,
            out@.len() >= 1,
            strings_view(out@)[0] == lossy_utf8(name@),
            spec_components(all) == match spec_components(all.skip(i as int)) {
                Ok(rest) => Ok(strings_view(out@).drop_first() + rest),
                Err(e) => Err::<Seq<Seq<char>>, SpecMetainfoError>(e),
            },
        decreases comps@.len() - i,
    {
        let ghost rest = all.skip(i as int);
        assert(rest[0] == all[i as int]);
        assert(rest.drop_first() =~= all.skip(i + 1));
        let bytes = match lift(comps[i].as_bytes()) {
            Ok(b) => b,
            Err(e) => {
                return Err(e);
            },
        };
        match check_path_component(bytes) {
            Ok(()) => {},
            Err(e) => {
                return Err(e);
            },
        }
        let ghost before = out@;
        let text = to_path(bytes);
        out.push(text);
        assert(strings_view(out@).drop_first() =~= strings_view(before).drop_first() + seq![lossy_utf8(bytes@)]);
        assert(strings_view(out@)[0] == strings_view(before)[0]);
        proof {
            match spec_components(all.skip(i + 1)) {
                Ok(r2) => {
                    assert(strings_view(before).drop_first() + (seq![lossy_utf8(bytes@)] + r2)
                        =~= strings_view(out@).drop_first() + r2);
                },
                Err(_) => {},
            }
        }
        i = i + 1;
    }
    assert(all.skip(i as int) =~= Seq::<SpecBencode>::empty());
    assert(strings_view(out@) =~= seq![lossy_utf8(name@)] + (strings_view(out@).drop_first() + Seq::<Seq<char>>::empty()));
    Ok(out)
}

/// Read one entry of a `files` list, starting at `offset`.
fn parse_file(file: &Bencode, name: &[u8], offset: u64) -> (r: Result<FileEntry, MetainfoError>)
    ensures
        match spec_file(file@, name@, offset) {
            Ok(e) => r is Ok && r->Ok_0@ == e,
            Err(e) => r is Err && r->Err_0@ == e,
        },
{
    let dict = match lift(file.as_dictionary()) {
        Ok(d) => d,
        Err(e) => {
            return Err(e);
        },
    };
    let length_value = match get_key(dict, "length") {
        Ok(v) => v,
        Err(e) => {
            return Err(e);
        },
    };
    let length = match as_u64(length_value) {
        Ok(n) => n,
        Err(e) => {
            return Err(e);
        },
    };
    let path_value = match get_key(dict, "path") {
        Ok(v) => v,
        Err(e) => {
            return Err(e);
        },
    };
    let components = match lift(path_value.as_list()) {
        Ok(c) => c,
        Err(e) => {
            return Err(e);
        },
    };
    proof {
        lemma_list_view(components@);
    }
    if components.len() == 0 {
        return Err(MetainfoError::InvalidPath);
    }
    let path = match parse_path(name, components) {
        Ok(p) => p,
        Err(e) => {
            return Err(e);
        },
    };
    let entry = FileEntry::new(length, path, offset);
    assert(entry@.path =~= strings_view(entry.path@));
    Ok(entry)
}

/// Build the flat file list with cumulative offsets, plus the total size.
///
/// A single-file torrent (`length`) yields exactly one entry at offset 0;
/// a multi-file torrent (`files`) one entry per listed file.
fn parse_files(info: &Dictionary, name: &[u8]) -> (r: Result<(Vec<FileEntry>, u64), MetainfoError>)
    ensures
        match spec_parse_files(info@, name@) {
            Ok((files, total)) => r is Ok && entries_model(r->Ok_0.0@) == files && r->Ok_0.1 == total,
            Err(e) => r is Err && r->Err_0@ == e,
        },
{
    let single = get_opt(info, "length");
    let multi = get_opt(info, "files");
    match (single, multi) {
        (Some(length), None) => {
            let length = match as_u64(length) {
                Ok(n) => n,
                Err(e) => {
                    return Err(e);
                },
            };
            let mut path: Vec<String> = Vec::new();
            path.push(to_path(name));
            let entry = FileEntry::new(length, path, 0);
            let mut files: Vec<FileEntry> = Vec::new();
            files.push(entry);
            proof {
                assert(files@[0]@.path =~= seq![lossy_utf8(name@)]);
                assert(entries_model(files@) =~= seq![SpecFileEntry { length, path: seq![lossy_utf8(name@)], offset: 0 }]);
            }
            Ok((files, length))
        },
        (None, Some(files)) => {
            let files = match lift(files.as_list()) {
                Ok(f) => f,
                Err(e) => {
                    return Err(e);
                },
            };
            let ghost all = list_view(files@);
            proof {
                lemma_list_view(files@);
            }
            let mut entries: Vec<FileEntry> = Vec::with_capacity(files.len());
            let mut offset: u64 = 0;
            let mut i: usize = 0;
            assert(all.skip(0) =~= all);
            assert(entries_model(entries@) =~= Seq::<SpecFileEntry>::empty());
            while i < files.len()
                invariant
                    i <= files@.len(),
                    all == list_view(files@),
                    all.len() == files@.len(),
                    forall|j: int| 0 <= j < all.len() ==> #[trigger] all[j] == files@[j]@,
                    spec_parse_files(info@, name@) == spec_files(all, name@, 0),
                    spec_files(all, name@, 0) == match spec_files(all.skip(i as int), name@, offset) {
                        Ok((rest, total)) => Ok((entries_model(entries@) + rest, total)),
                        Err(e) => Err::<(Seq<SpecFileEntry>, u64), SpecMetainfoError>(e),
                    },
                decreases files@.len() - i,
            {
                let ghost rest = all.skip(i as int);
                assert(rest[0] == all[i as int]);
                assert(rest.drop_first() =~= all.skip(i + 1));
                let entry = match parse_file(&files[i], name, offset) {
                    Ok(e) => e,
                    Err(e) => {
                        return Err(e);
                    },
                };
                let length = entry.length;
                let ghost ev = entry@;
                let ghost before = entries@;
                entries.push(entry);
                assert(entries_model(entries@) =~= entries_model(before) + seq![ev]);
                offset = match offset.checked_add(length) {
                    Some(o) => o,
                    None => {
                        return Err(MetainfoError::OffsetOverflow);
                    },
                };
                proof {
                    match spec_files(all.skip(i + 1), name@, offset) {
                        Ok((r2, t2)) => {
                            assert(entries_model(before) + (seq![ev] + r2) =~= entries_model(entries@) + r2);
                        },
                        Err(_) => {},
                    }
                }
                i = i + 1;
            }
            assert(all.skip(i as int) =~= Seq::<SpecBencode>::empty());
            assert(entries_model(entries@) + Seq::<SpecFileEntry>::empty() =~= entries_model(entries@));
            Ok((entries, offset))
        },
        (Some(_), Some(_)) => Err(MetainfoError::BothFileKeys),
        (None, None) => Err(MetainfoError::MissingFileInfo),
    }
}

/// Split a `pieces` string into its 20-byte hashes.
fn split_pieces(p: &[u8]) -> (out: Vec<[u8; 20]>)
    requires
        p@.len() % 20 == 0,
    ensures
        Seq::new(out@.len(), |i: int| out@[i]@) == piece_hashes(p@),
{
    let len = p.len();
    let count = len / 20;
    let mut out: Vec<[u8; 20]> = Vec::with_capacity(count);
    let mut i: usize = 0;
    while i < count
        invariant
            len == p@.len(),
            count == p@.len() / 20,
            p@.len() % 20 == 0,
            i <= count,
            out@.len() == i,
            forall|k: int| 0 <= k < i ==> #[trigger] out@[k]@ == p@.subrange(20 * k, 20 * k + 20),
        decreases count - i,
    {
        let mut h = [0u8; 20];
        let mut j: usize = 0;
        assert(20 * i + 20 <= p@.len()) by (nonlinear_arith)
            requires
                i < count,
                count == p@.len() / 20,
        ;
        while j < 20
            invariant
                20 * i + 20 <= p@.len(),
                p@.len() <= usize::MAX,
                i < count,
                count == p@.len() / 20,
                p@.len() % 20 == 0,
                j <= 20,
                forall|k: int| 0 <= k < j ==> h@[k] == p@[20 * i + k],
            decreases 20 - j,
        {
            h[j] = p[20 * i + j];
            j = j + 1;
        }
        assert(h@ =~= p@.subrange(20 * i as int, 20 * i as int + 20));
        out.push(h);
        i = i + 1;
    }
    assert(Seq::new(out@.len(), |i: int| out@[i]@) =~= piece_hashes(p@));
    out
}

/// Read the `info` dictionary, validating it as it goes.
fn parse_info(info: &Dictionary) -> (r: Result<Info, MetainfoError>)
    ensures
        match spec_parse_info(info@) {
            Ok(i) => r is Ok && r->Ok_0@ == i,
            Err(e) => r is Err && r->Err_0@ == e,
        },
{
    let name_value = match get_key(info, "name") {
        Ok(v) => v,
        Err(e) => {
            return Err(e);
        },
    };
    let name = match lift(name_value.as_bytes()) {
        Ok(b) => b,
        Err(e) => {
            return Err(e);
        },
    };
    match check_path_component(name) {
        Ok(()) => {},
        Err(e) => {
            return Err(e);
        },
    }
    let pl_value = match get_key(info, "piece length") {
        Ok(v) => v,
        Err(e) => {
            return Err(e);
        },
    };
    let pl = match lift(pl_value.as_i64()) {
        Ok(n) => n,
        Err(e) => {
            return Err(e);
        },
    };
    if pl < 0 || pl > 0xffff_ffff {
        return Err(MetainfoError::InvalidPieceLength);
    }
    let piece_length = pl as u32;
    if piece_length == 0 {
        return Err(MetainfoError::InvalidPieceLength);
    }
    let private = match get_opt(info, "private") {
        Some(value) => match lift(value.as_i64()) {
            Ok(n) => n != 0,
            Err(e) => {
                return Err(e);
            },
        },
        None => false,
    };
    let pieces_value = match get_key(info, "pieces") {
        Ok(v) => v,
        Err(e) => {
            return Err(e);
        },
    };
    let pieces = match lift(pieces_value.as_bytes()) {
        Ok(b) => b,
        Err(e) => {
            return Err(e);
        },
    };
    if pieces.len() % 20 != 0 {
        return Err(MetainfoError::InvalidPiecesLen);
    }
    let hashes = split_pieces(pieces);
    assert(hashes@.len() == pieces@.len() / 20) by {
        assert(Seq::new(hashes@.len(), |i: int| hashes@[i]@).len() == piece_hashes(pieces@).len());
    }
    let (files, length) = match parse_files(info, name) {
        Ok(f) => f,
        Err(e) => {
            return Err(e);
        },
    };
    let divisor = piece_length as u64;
    assert(divisor as nat == pl as nat);
    let whole = length / divisor;
    let part: u128 = if length % divisor != 0 { 1 } else { 0 };
    assert(whole as nat + part as nat == ceil_div(length as nat, divisor as nat));
    if (whole as u128) + part != (hashes.len() as u128) {
        return Err(MetainfoError::InvalidPieceCount);
    }
    let result = Info { files, length, name: slice_to_vec(name), piece_length, pieces: hashes, private };
    assert(result@.files =~= entries_model(result.files@));
    Ok(result)
}

impl Metainfo {
    /// Parse the contents of a `.torrent` file.
    ///
    /// The infohash is the SHA-1 of the `info` value's original bytes, found
    /// through the span the decoder records, not of a re-encoding.
    pub fn from_bytes(data: &[u8]) -> (r: Result<Self, MetainfoError>)
        ensures
            match spec_from_bytes(data@) {
                Ok(m) => r is Ok && r->Ok_0@ == m,
                Err(e) => r is Err && r->Err_0@ == e,
            },
    {
        let decoded = match decode_dictionary_with_spans(data) {
            Ok(d) => d,
            Err(e) => {
                return Err(MetainfoError::DecoderError(e));
            },
        };
        let root = &decoded.root;
        let announce = match get_opt_string_lossy(root, "announce") {
            Ok(a) => a,
            Err(e) => {
                return Err(e);
            },
        };
        let announce_list = match parse_announce_list(root) {
            Ok(a) => a,
            Err(e) => {
                return Err(e);
            },
        };
        let info_value = match get_key(root, "info") {
            Ok(v) => v,
            Err(e) => {
                return Err(e);
            },
        };
        let info_dict = match lift(info_value.as_dictionary()) {
            Ok(d) => d,
            Err(e) => {
                return Err(e);
            },
        };
        let info = match parse_info(info_dict) {
            Ok(i) => i,
            Err(e) => {
                return Err(e);
            },
        };
        let (start, end) = match decoded.spans.get("info".as_bytes()) {
            Some(span) => span,
            None => {
                return Err(MetainfoError::KeyNotFound("info"));
            },
        };
        if start > end || end > data.len() {
            return Err(MetainfoError::OutOfBoundsInfo);
        }
        let info_hash = sha1_digest(slice_subrange(data, start, end));
        let result = Metainfo { announce, announce_list, info, info_hash };
        proof {
            assert(result@.announce_list =~= tiers_view(result.announce_list@));
        }
        Ok(result)
    }
}

/// A torrent's identity is the SHA-1 of its `info` dictionary exactly as
/// written: the infohash of a parsed torrent hashes a run of the input
/// that, decoded on its own, is the `info` value the torrent holds.
pub proof fn law_info_hash_is_hash_of_raw_info(data: Seq<u8>)
    requires
        data.len() <= usize::MAX,
    ensures
        spec_from_bytes(data) matches Ok(m) ==> spec_decode_with_spans(data) matches Ok((root, spans))
            && dict_get(spans, "info".spec_bytes()) matches Some((s, e)) && dict_get(root, "info".spec_bytes())
            matches Some(iv) && m.info_hash == sha1(data.subrange(s as int, e as int)) && spec_decode(
            data.subrange(s as int, e as int),
        ) == Ok::<SpecBencode, DecoderError>(iv),
{
    if let Ok(m) = spec_from_bytes(data) {
        law_span_lookup_matches_root(data, "info".spec_bytes());
    }
}

/// The sum of the lengths of a run of file entries.
pub open spec fn sum_lengths(files: Seq<SpecFileEntry>) -> int
    decreases files.len(),
{
    if files.len() == 0 {
        0
    } else {
        files[0].length + sum_lengths(files.drop_first())
    }
}

/// An entry read from a `files` list starts at the offset it was read at.
proof fn lemma_file_offset(v: SpecBencode, name: Seq<u8>, offset: u64)
    ensures
        spec_file(v, name, offset) matches Ok(e) ==> e.offset == offset,
{
}

/// The entries of a `files` list read from `offset` on start one after the
/// other: entry `k` at `offset` plus the lengths of the entries before it,
/// and the list ends at `offset` plus all their lengths.
proof fn lemma_files_cumulative(list: Seq<SpecBencode>, name: Seq<u8>, offset: u64)
    ensures
        spec_files(list, name, offset) matches Ok((fs, total)) ==> {
            &&& total == offset + sum_lengths(fs)
            &&& forall|k: int| 0 <= k < fs.len() ==> #[trigger] fs[k].offset == offset + sum_lengths(fs.take(k))
        },
    decreases list.len(),
{
    if list.len() > 0 {
        if let Ok((fs, total)) = spec_files(list, name, offset) {
            lemma_file_offset(list[0], name, offset);
            let entry = spec_file(list[0], name, offset)->Ok_0;
            let next = (offset + entry.length) as u64;
            lemma_files_cumulative(list.drop_first(), name, next);
            let rest = spec_files(list.drop_first(), name, next)->Ok_0.0;
            assert(fs == seq![entry] + rest);
            assert(fs.drop_first() =~= rest);
            assert forall|k: int| 0 <= k < fs.len() implies #[trigger] fs[k].offset == offset + sum_lengths(
                fs.take(k),
            ) by {
                if k == 0 {
                    assert(fs.take(0) =~= Seq::<SpecFileEntry>::empty());
                } else {
                    assert(fs.take(k)[0] == entry);
                    assert(fs.take(k).drop_first() =~= rest.take(k - 1));
                    assert(fs[k] == rest[k - 1]);
                }
            }
        }
    }
}

/// Every file of a parsed torrent starts where the files before it end:
/// file `k`'s offset is the sum of the lengths of files `0..k`, and the
/// torrent's length is the sum of all of them.
pub proof fn law_file_offsets_are_cumulative(data: Seq<u8>)
    ensures
        spec_from_bytes(data) matches Ok(m) ==> {
            &&& m.info.length == sum_lengths(m.info.files)
            &&& forall|k: int|
                0 <= k < m.info.files.len() ==> #[trigger] m.info.files[k].offset == sum_lengths(
                    m.info.files.take(k),
                )
        },
{
    if let Ok(m) = spec_from_bytes(data) {
        let root = spec_decode_with_spans(data)->Ok_0.0;
        let id = want_dict(spec_required(root, "info")->Ok_0)->Ok_0;
        let name = want_bytes(spec_required(id, "name")->Ok_0)->Ok_0;
        assert(spec_parse_files(id, name) == Ok::<(Seq<SpecFileEntry>, u64), SpecMetainfoError>(
            (m.info.files, m.info.length),
        ));
        match (dict_get(id, "length".spec_bytes()), dict_get(id, "files".spec_bytes())) {
            (Some(l), None) => {
                let files = m.info.files;
                assert(files.len() == 1);
                assert(files.drop_first() =~= Seq::<SpecFileEntry>::empty());
                assert(sum_lengths(files.drop_first()) == 0);
                assert(sum_lengths(files) == files[0].length);
                assert(files.take(0) =~= Seq::<SpecFileEntry>::empty());
            },
            (None, Some(f)) => {
                lemma_files_cumulative(want_list(f)->Ok_0, name, 0);
            },
            _ => {},
        }
    }
}

/// The piece hashes of a parsed torrent are the `pieces` string of its
/// `info` dictionary cut into 20-byte runs, in order: hash `i` is bytes
/// `20 * i .. 20 * i + 20`, and together they cover the whole string.
pub proof fn law_piece_hashes_in_order(data: Seq<u8>)
    ensures
        spec_from_bytes(data) matches Ok(m) ==> {
            &&& spec_decode(data) matches Ok(SpecBencode::Dict(root))
            &&& dict_get(root, "info".spec_bytes()) matches Some(SpecBencode::Dict(info))
            &&& dict_get(info, "pieces".spec_bytes()) matches Some(SpecBencode::Str(p))
            &&& p.len() == 20 * m.info.pieces.len()
            &&& forall|i: int|
                0 <= i < m.info.pieces.len() ==> #[trigger] m.info.pieces[i] == p.subrange(20 * i, 20 * i + 20)
        },
{
    if let Ok(m) = spec_from_bytes(data) {
        law_spans_root_is_decoded_root(data);
        let root = spec_decode_with_spans(data)->Ok_0.0;
        let id = want_dict(spec_required(root, "info")->Ok_0)->Ok_0;
        let p = want_bytes(spec_required(id, "pieces")->Ok_0)->Ok_0;
        assert(m.info.pieces == piece_hashes(p));
        assert(p.len() == 20 * (p.len() / 20));
    }
}

/// The text of each component of a path list, read lossily.
pub open spec fn component_texts(comps: Seq<SpecBencode>) -> Seq<Seq<char>> {
    Seq::new(comps.len(), |j: int| lossy_utf8(comps[j]->Str_0))
}

/// `e` is what the entry `v` of a `files` list says, under the torrent's
/// `name`: its length is the entry's `length`, and its path is the name
/// then the entry's non-empty list of safe `path` components, as text.
pub open spec fn entry_read_from(v: SpecBencode, name: Seq<u8>, e: SpecFileEntry) -> bool {
    &&& v matches SpecBencode::Dict(d)
    &&& dict_get(d, "length".spec_bytes()) matches Some(SpecBencode::Int(n))
    &&& n >= 0 && e.length == n as u64
    &&& dict_get(d, "path".spec_bytes()) matches Some(SpecBencode::List(comps))
    &&& comps.len() > 0
    &&& forall|j: int| 0 <= j < comps.len() ==> (#[trigger] comps[j] matches SpecBencode::Str(c) && safe_component(c))
    &&& e.path == seq![lossy_utf8(name)] + component_texts(comps)
}

proof fn lemma_components(comps: Seq<SpecBencode>)
    ensures
        spec_components(comps) matches Ok(cs) ==> {
            &&& cs == component_texts(comps)
            &&& forall|j: int| 0 <= j < comps.len() ==> (#[trigger] comps[j] matches SpecBencode::Str(c) && safe_component(c))
        },
    decreases comps.len(),
{
    if comps.len() > 0 {
        if let Ok(cs) = spec_components(comps) {
            let rest = comps.drop_first();
            lemma_components(rest);
            assert forall|j: int| 0 <= j < comps.len() implies (#[trigger] comps[j] matches SpecBencode::Str(c) && safe_component(c)) by {
                if j > 0 {
                    assert(comps[j] == rest[j - 1]);
                }
            }
            assert(cs =~= component_texts(comps)) by {
                assert forall|j: int| 0 <= j < cs.len() implies cs[j] == component_texts(comps)[j] by {
                    if j > 0 {
                        assert(comps[j] == rest[j - 1]);
                    }
                }
            }
        }
    }
}

proof fn lemma_files_read(list: Seq<SpecBencode>, name: Seq<u8>, offset: u64)
    ensures
        spec_files(list, name, offset) matches Ok((fs, _)) ==> {
            &&& fs.len() == list.len()
            &&& forall|k: int| 0 <= k < fs.len() ==> entry_read_from(#[trigger] list[k], name, fs[k])
        },
    decreases list.len(),
{
    if list.len() > 0 {
        if let Ok((fs, _)) = spec_files(list, name, offset) {
            let entry = spec_file(list[0], name, offset)->Ok_0;
            let next = (offset + entry.length) as u64;
            lemma_files_read(list.drop_first(), name, next);
            let rest = spec_files(list.drop_first(), name, next)->Ok_0.0;
            let d = list[0]->Dict_0;
            let comps = dict_get(d, "path".spec_bytes())->Some_0->List_0;
            lemma_components(comps);
            assert(entry_read_from(list[0], name, entry));
            assert forall|k: int| 0 <= k < fs.len() implies entry_read_from(#[trigger] list[k], name, fs[k]) by {
                if k > 0 {
                    assert(list[k] == list.drop_first()[k - 1]);
                    assert(fs[k] == rest[k - 1]);
                }
            }
        }
    }
}

/// The `info` of a parsed torrent says what its `info` dictionary says:
/// the `name` bytes, the `piece length`, whether a non-zero `private` is
/// present, and its files: for a single file one entry of the `length`
/// under the name alone, for a `files` list one entry per listed file, in
/// order, with that file's `length` and the name followed by its `path`.
pub proof fn law_info_read_from_info_dictionary(data: Seq<u8>)
    ensures
        spec_from_bytes(data) matches Ok(m) ==> {
            &&& spec_decode(data) matches Ok(SpecBencode::Dict(root))
            &&& dict_get(root, "info".spec_bytes()) matches Some(SpecBencode::Dict(info))
            &&& dict_get(info, "name".spec_bytes()) == Some(SpecBencode::Str(m.info.name))
            &&& safe_component(m.info.name)
            &&& dict_get(info, "piece length".spec_bytes()) == Some(SpecBencode::Int(m.info.piece_length as int))
            &&& m.info.piece_length > 0
            &&& m.info.private == (dict_get(info, "private".spec_bytes()) matches Some(SpecBencode::Int(n)) && n != 0)
            &&& match dict_get(info, "files".spec_bytes()) {
                Some(SpecBencode::List(list)) => {
                    &&& dict_get(info, "length".spec_bytes()) is None
                    &&& m.info.files.len() == list.len()
                    &&& forall|k: int| 0 <= k < list.len() ==> entry_read_from(#[trigger] list[k], m.info.name, m.info.files[k])
                },
                Some(_) => false,
                None => {
                    &&& dict_get(info, "length".spec_bytes()) matches Some(SpecBencode::Int(n))
                    &&& n >= 0 && m.info.length == n as u64
                    &&& m.info.files == seq![SpecFileEntry { length: m.info.length, path: seq![lossy_utf8(m.info.name)], offset: 0 }]
                },
            }
        },
{
    if let Ok(m) = spec_from_bytes(data) {
        law_spans_root_is_decoded_root(data);
        let root = spec_decode_with_spans(data)->Ok_0.0;
        let id = want_dict(spec_required(root, "info")->Ok_0)->Ok_0;
        let name = want_bytes(spec_required(id, "name")->Ok_0)->Ok_0;
        assert(m.info.name == name);
        assert(spec_decode(data) == Ok::<SpecBencode, DecoderError>(SpecBencode::Dict(root)));
        assert(dict_get(id, "name".spec_bytes()) == Some(SpecBencode::Str(m.info.name)));
        assert(safe_component(m.info.name));
        assert(dict_get(id, "piece length".spec_bytes()) == Some(SpecBencode::Int(m.info.piece_length as int)));
        assert(m.info.private == (dict_get(id, "private".spec_bytes()) matches Some(SpecBencode::Int(n)) && n != 0));
        match dict_get(id, "files".spec_bytes()) {
            Some(f) => {
                lemma_files_read(want_list(f)->Ok_0, name, 0);
            },
            None => {},
        }
    }
}

/// `ceil_div(len, pl)` pieces of `pl` bytes cover `len` bytes, and one
/// fewer would not.
proof fn lemma_ceil_div_covers(len: nat, pl: nat)
    requires
        pl > 0,
    ensures
        ceil_div(len, pl) * pl >= len,
        ceil_div(len, pl) > 0 ==> (ceil_div(len, pl) - 1) * pl < len,
        ceil_div(len, pl) == 0 ==> len == 0,
{
    let q = len / pl;
    let r = len % pl;
    assert(len == pl * q + r && 0 <= r < pl) by (nonlinear_arith)
        requires
            pl > 0,
            q == len / pl,
            r == len % pl,
    ;
    if r == 0 {
        assert(q * pl == len) by (nonlinear_arith)
            requires
                len == pl * q,
        ;
        if q > 0 {
            assert((q - 1) * pl == q * pl - pl) by (nonlinear_arith);
        }
    } else {
        assert((q + 1) * pl == pl * q + pl) by (nonlinear_arith);
        assert(q * pl == pl * q) by (nonlinear_arith);
    }
}

/// A parsed torrent has exactly as many piece hashes as pieces of
/// `piece length` bytes are needed to cover its length: the pieces before
/// the last are whole, and the last holds the rest.
pub proof fn law_piece_count_covers_length(data: Seq<u8>)
    ensures
        spec_from_bytes(data) matches Ok(m) ==> {
            let n = m.info.pieces.len();
            let pl = m.info.piece_length as int;
            &&& n * pl >= m.info.length
            &&& n > 0 ==> (n - 1) * pl < m.info.length
            &&& n == 0 ==> m.info.length == 0
        },
{
    if let Ok(m) = spec_from_bytes(data) {
        let root = spec_decode_with_spans(data)->Ok_0.0;
        let id = want_dict(spec_required(root, "info")->Ok_0)->Ok_0;
        let p = want_bytes(spec_required(id, "pieces")->Ok_0)->Ok_0;
        assert(m.info.pieces.len() == p.len() / 20);
        assert(m.info.pieces.len() == ceil_div(m.info.length as nat, m.info.piece_length as nat));
        lemma_ceil_div_covers(m.info.length as nat, m.info.piece_length as nat);
    }
}

proof fn lemma_tier_read(urls: Seq<SpecBencode>)
    ensures
        spec_tier(urls) matches Ok(t) ==> {
            &&& t.len() == urls.len()
            &&& forall|j: int| 0 <= j < urls.len() ==> (#[trigger] urls[j] matches SpecBencode::Str(b) && t[j] == lossy_utf8(b))
        },
    decreases urls.len(),
{
    if urls.len() > 0 {
        if let Ok(t) = spec_tier(urls) {
            lemma_tier_read(urls.drop_first());
            assert forall|j: int| 0 <= j < urls.len() implies (#[trigger] urls[j] matches SpecBencode::Str(b) && t[j] == lossy_utf8(b)) by {
                if j > 0 {
                    assert(urls[j] == urls.drop_first()[j - 1]);
                }
            }
        }
    }
}

proof fn lemma_tiers_read(tiers: Seq<SpecBencode>)
    ensures
        spec_tiers(tiers) matches Ok(ts) ==> {
            &&& ts.len() == tiers.len()
            &&& forall|i: int| 0 <= i < tiers.len() ==> (#[trigger] tiers[i] matches SpecBencode::List(urls) && ts[i].len() == urls.len()
                && forall|j: int| 0 <= j < urls.len() ==> (#[trigger] urls[j] matches SpecBencode::Str(b) && ts[i][j] == lossy_utf8(b)))
        },
    decreases tiers.len(),
{
    if tiers.len() > 0 {
        if let Ok(ts) = spec_tiers(tiers) {
            lemma_tier_read(tiers[0]->List_0);
            lemma_tiers_read(tiers.drop_first());
            assert forall|i: int| 0 <= i < tiers.len() implies (#[trigger] tiers[i] matches SpecBencode::List(urls) && ts[i].len() == urls.len()
                && forall|j: int| 0 <= j < urls.len() ==> (#[trigger] urls[j] matches SpecBencode::Str(b) && ts[i][j] == lossy_utf8(b))) by {
                if i > 0 {
                    assert(tiers[i] == tiers.drop_first()[i - 1]);
                }
            }
        }
    }
}

/// The trackers of a parsed torrent are those its root dictionary names:
/// `announce` is the text of the `announce` string when there is one, and
/// the tiers of `announce-list` keep their order and the order of the URLs
/// in each, every URL read as text.
pub proof fn law_trackers_read_from_root(data: Seq<u8>)
    ensures
        spec_from_bytes(data) matches Ok(m) ==> {
            &&& spec_decode(data) matches Ok(SpecBencode::Dict(root))
            &&& match dict_get(root, "announce".spec_bytes()) {
                Some(SpecBencode::Str(b)) => m.announce == Some(lossy_utf8(b)),
                Some(_) => false,
                None => m.announce is None,
            }
            &&& match dict_get(root, "announce-list".spec_bytes()) {
                Some(SpecBencode::List(tiers)) => {
                    &&& m.announce_list.len() == tiers.len()
                    &&& forall|i: int| 0 <= i < tiers.len() ==> (#[trigger] tiers[i] matches SpecBencode::List(urls)
                        && m.announce_list[i].len() == urls.len() && forall|j: int| 0 <= j < urls.len() ==> (
                        #[trigger] urls[j] matches SpecBencode::Str(b) && m.announce_list[i][j] == lossy_utf8(b)))
                },
                Some(_) => false,
                None => m.announce_list.len() == 0,
            }
        },
{
    if let Ok(m) = spec_from_bytes(data) {
        law_spans_root_is_decoded_root(data);
        let root = spec_decode_with_spans(data)->Ok_0.0;
        match dict_get(root, "announce-list".spec_bytes()) {
            Some(v) => {
                lemma_tiers_read(v->List_0);
            },
            None => {},
        }
    }
}

} // verus!
