//! The `info` dictionary: name, piece size, piece hashes and file layout.

use vstd::prelude::*;
use vstd::slice::slice_to_vec;
use vstd::string::StringSliceAdditionalSpecFns;
use vstd::utf8::{decode_utf8, encode_utf8, valid_utf8};

use crate::bencode::encoder::spec_encode;
use crate::bencode::spec::{dict_get, dict_insert, SpecBencode};
use crate::client::protocol::encoder::encode;
use crate::client::protocol::{lemma_values_view, values_view, Bencode, Dictionary};
use crate::hashing::{sha1, sha1_digest};

use super::error::{MetainfoError, SpecMetainfoError};
use super::file_layout::{files_view, layout_length, FileLayout, SpecLayout};
use super::info_dictionary_file::{file_items, lemma_file_items_err, lemma_file_items_ok, spec_file, InfoDictionaryFile, SpecFile};
use super::util::{
    string_items, converted_all, converts, converts_ok, extract_bytes_from_dict, extract_integer_from_dict, extract_optional_integer_from_dict,
    extract_optional_list_from_dict, extract_string_from_dict, integer_value, lookup, optional, required, string_value,
};

verus! {

/// The `info` dictionary.
#[derive(Debug)]
pub struct InfoDictionary {
    /// The suggested name to save the file (or directory) as.
    pub name: String,
    /// The number of bytes in each piece; the last may be shorter.
    pub piece_length: u64,
    /// The pieces' SHA-1 hashes, 20 bytes each, in order.
    pieces: Vec<u8>,
    /// One file or several.
    file_layout: FileLayout,
    /// The SHA-1 of the dictionary as this client encodes it.
    pub info_hash: [u8; 20],
}

/// An `info` dictionary as plain values.
pub struct SpecInfo {
    pub name: Seq<char>,
    pub piece_length: u64,
    pub pieces: Seq<u8>,
    pub layout: SpecLayout,
    pub info_hash: Seq<u8>,
}

impl View for InfoDictionary {
    type V = SpecInfo;

    closed spec fn view(&self) -> SpecInfo {
        SpecInfo {
            name: self.name@,
            piece_length: self.piece_length,
            pieces: self.pieces@,
            layout: self.file_layout@,
            info_hash: self.info_hash@,
        }
    }
}

/// The length of piece `index`: a whole piece, or what is left of the
/// content for the last one, or zero past the end, as 32 bits.
pub open spec fn info_piece_len(info: SpecInfo, index: u32) -> u32 {
    let remaining = layout_length(info.layout) - index * info.piece_length;
    let rem: int = if remaining > 0 { remaining } else { 0 };
    (if rem < info.piece_length { rem } else { info.piece_length as int }) as u32
}

/// How many pieces an `info` dictionary has: one per 20-byte hash.
pub open spec fn info_piece_count(info: SpecInfo) -> nat {
    info.pieces.len() / 20
}

/// The value a file entry is written back as: a dictionary holding its
/// `length` and its `path`.
pub open spec fn file_value(f: SpecFile) -> SpecBencode {
    SpecBencode::Dict(
        dict_insert(
            dict_insert(Seq::empty(), "length".spec_bytes(), SpecBencode::Int(f.length as i64 as int)),
            "path".spec_bytes(),
            SpecBencode::List(Seq::new(f.path.len(), |j: int| SpecBencode::Str(encode_utf8(f.path[j])))),
        ),
    )
}

/// The value the `files` list is written back as.
pub open spec fn files_value(files: Seq<SpecFile>) -> SpecBencode {
    SpecBencode::List(Seq::new(files.len(), |i: int| file_value(files[i])))
}

/// The dictionary the infohash is taken over: the `length` or the `files`,
/// then `name`, `piece length` and `pieces`, as a dictionary holds them.
pub open spec fn info_value(name: Seq<char>, piece_length: u64, pieces: Seq<u8>, layout: SpecLayout) -> SpecBencode {
    let first = match layout {
        SpecLayout::SingleFile(l) => dict_insert(Seq::empty(), "length".spec_bytes(), SpecBencode::Int(l as i64 as int)),
        SpecLayout::MultiFile(fs) => dict_insert(Seq::empty(), "files".spec_bytes(), files_value(fs)),
    };
    SpecBencode::Dict(
        dict_insert(
            dict_insert(
                dict_insert(first, "name".spec_bytes(), SpecBencode::Str(encode_utf8(name))),
                "piece length".spec_bytes(),
                SpecBencode::Int(piece_length as i64 as int),
            ),
            "pieces".spec_bytes(),
            SpecBencode::Str(pieces),
        ),
    )
}

/// What the optional `files` list reads as.
pub open spec fn files_outcome(v: Option<SpecBencode>) -> Result<Option<Seq<SpecFile>>, SpecMetainfoError> {
    match v {
        None => Ok(None),
        Some(SpecBencode::List(items)) => match file_items(items) {
            Ok(fs) => Ok(Some(fs)),
            Err(e) => Err(e),
        },
        Some(_) => Err(SpecMetainfoError::WrongValueType("files"@)),
    }
}

/// Which layout a `length` and a `files` list give: exactly one of them must
/// be present; a length makes one file, a non-empty list makes several.
pub open spec fn spec_layout(length: Option<u64>, files: Option<Seq<SpecFile>>) -> Result<SpecLayout, SpecMetainfoError> {
    match length {
        Some(l) => if files is Some {
            Err(SpecMetainfoError::BothFilesAndLength)
        } else {
            Ok(SpecLayout::SingleFile(l))
        },
        None => match files {
            Some(fs) => if fs.len() > 0 {
                Ok(SpecLayout::MultiFile(fs))
            } else {
                Err(SpecMetainfoError::MissingFilesAndLength)
            },
            None => Err(SpecMetainfoError::MissingFilesAndLength),
        },
    }
}

/// What an `info` dictionary reads as.
pub open spec fn spec_info(v: SpecBencode) -> Result<SpecInfo, SpecMetainfoError> {
    match v {
        SpecBencode::Dict(es) => match required(dict_get(es, "name".spec_bytes()), "name"@, |x: SpecBencode| string_value(x, "name"@)) {
            Err(e) => Err(e),
            Ok(name) => match required(
                dict_get(es, "piece length".spec_bytes()),
                "piece length"@,
                |x: SpecBencode| integer_value(x, "piece length"@),
            ) {
                Err(e) => Err(e),
                Ok(piece_length) => match dict_get(es, "pieces".spec_bytes()) {
                    None => Err(SpecMetainfoError::MissingKey("pieces"@)),
                    Some(SpecBencode::Str(pieces)) => if pieces.len() % 20 != 0 {
                        Err(SpecMetainfoError::InvalidPiecesLength)
                    } else {
                        match optional(dict_get(es, "length".spec_bytes()), |x: SpecBencode| integer_value(x, "length"@)) {
                            Err(e) => Err(e),
                            Ok(length) => match files_outcome(dict_get(es, "files".spec_bytes())) {
                                Err(e) => Err(e),
                                Ok(files) => match spec_layout(length, files) {
                                    Err(e) => Err(e),
                                    Ok(layout) => Ok(
                                        SpecInfo {
                                            name,
                                            piece_length,
                                            pieces,
                                            layout,
                                            info_hash: sha1(spec_encode(info_value(name, piece_length, pieces, layout))),
                                        },
                                    ),
                                },
                            },
                        }
                    },
                    Some(_) => Err(SpecMetainfoError::WrongValueType("pieces"@)),
                },
            },
        },
        _ => Err(SpecMetainfoError::NotADictionary),
    }
}

/// How converting one file entry turns out.
pub open spec fn file_read(v: SpecBencode, out: Result<InfoDictionaryFile, MetainfoError>) -> bool {
    match spec_file(v) {
        Ok(f) => out is Ok && out->Ok_0@ == f,
        Err(e) => out is Err && out->Err_0@ == e,
    }
}

/// Converting a `files` list entry by entry gives what [`file_items`] says.
proof fn lemma_files_converted<F: Fn(Bencode) -> Result<InfoDictionaryFile, MetainfoError>>(
    converter: F,
    items: Seq<SpecBencode>,
    r: Result<Option<Vec<InfoDictionaryFile>>, MetainfoError>,
)
    requires
        forall|x: Bencode, out: Result<InfoDictionaryFile, MetainfoError>| #[trigger] converter.ensures((x,), out) ==> file_read(x@, out),
        match r {
            Ok(Some(v)) => converted_all(converter, items, Ok(v)),
            Ok(None) => false,
            Err(e) => converted_all(converter, items, Err(e)),
        },
    ensures
        match file_items(items) {
            Ok(fs) => r is Ok && r->Ok_0 is Some && files_view(r->Ok_0->0@) == fs,
            Err(e) => r is Err && r->Err_0@ == e,
        },
{
    match r {
        Ok(None) => {},
        Ok(Some(v)) => {
            let fs = files_view(v@);
            assert forall|i: int| 0 <= i < items.len() implies #[trigger] spec_file(items[i]) == Ok::<SpecFile, SpecMetainfoError>(fs[i]) by {
                assert(converts(converter, items[i], Ok(v@[i])));
                let x = choose|x: Bencode| x@ == items[i] && #[trigger] converter.ensures((x,), Ok(v@[i]));
                assert(file_read(x@, Ok(v@[i])));
            }
            lemma_file_items_ok(items, fs);
        },
        Err(e) => {
            let k = choose|k: int|
                0 <= k < items.len() && converts(converter, #[trigger] items[k], Err(e)) && forall|j: int|
                    0 <= j < k ==> #[trigger] converts_ok(converter, items[j]);
            assert forall|j: int| 0 <= j < k implies (#[trigger] spec_file(items[j])) is Ok by {
                assert(converts_ok(converter, items[j]));
                let t = choose|t: InfoDictionaryFile| converts(converter, items[j], Ok(t));
                let x = choose|x: Bencode| x@ == items[j] && #[trigger] converter.ensures((x,), Ok(t));
                assert(file_read(x@, Ok(t)));
            }
            let x = choose|x: Bencode| x@ == items[k] && #[trigger] converter.ensures((x,), Err(e));
            assert(file_read(x@, Err(e)));
            lemma_file_items_err(items, k);
        },
    }
}

/// A key's bytes, owned.
fn key(s: &str) -> (r: Vec<u8>)
    ensures
        r@ == s.spec_bytes(),
{
    slice_to_vec(s.as_bytes())
}

/// The `files` list written back as a value.
fn files_to_bencode(files: &Vec<InfoDictionaryFile>) -> (r: Bencode)
    ensures
        r@ == files_value(files_view(files@)),
{
    let ghost fs = files_view(files@);
    let mut list: Vec<Bencode> = Vec::new();
    let mut i: usize = 0;
    while i < files.len()
        invariant
            i <= files@.len(),
            fs == files_view(files@),
            values_view(list@) == Seq::new(i as nat, |k: int| file_value(fs[k])),
        decreases files@.len() - i,
    {
        let file = &files[i];
        let path = file.path();
        let mut comps: Vec<Bencode> = Vec::new();
        let mut j: usize = 0;
        while j < path.len()
            invariant
                j <= path@.len(),
                super::util::strings_view(path@) == file@.path,
                values_view(comps@) == Seq::new(j as nat, |k: int| SpecBencode::Str(encode_utf8(file@.path[k]))),
            decreases path@.len() - j,
        {
            let b = slice_to_vec(path[j].as_str().as_bytes());
            assert(super::util::strings_view(path@)[j as int] == path@[j as int]@);
            assert(b@ == encode_utf8(file@.path[j as int]));
            let ghost before = comps@;
            let item = Bencode::String(b);
            assert(item@ == SpecBencode::Str(encode_utf8(file@.path[j as int])));
            comps.push(item);
            assert(comps@.drop_last() =~= before);
            assert(comps@.last() == item);
            assert(values_view(comps@) == values_view(before).push(item@));
            assert(values_view(comps@) =~= Seq::new((j + 1) as nat, |k: int| SpecBencode::Str(encode_utf8(file@.path[k]))));
            j = j + 1;
        }
        let mut entries = Dictionary::new();
        entries.insert(key("length"), Bencode::Integer(file.length() as i64));
        entries.insert(key("path"), Bencode::List(comps));
        let ghost before = list@;
        let ghost d = Bencode::Dictionary(entries);
        assert(fs[i as int] == file@);
        assert(d@ == file_value(fs[i as int]));
        list.push(Bencode::Dictionary(entries));
        assert(list@.drop_last() =~= before);
        assert(values_view(list@) == values_view(before).push(file_value(fs[i as int])));
        assert(values_view(list@) =~= Seq::new((i + 1) as nat, |k: int| file_value(fs[k])));
        i = i + 1;
    }
    Bencode::List(list)
}

/// The dictionary the infohash is taken over.
fn info_bencode(name: &String, piece_length: u64, pieces: &Vec<u8>, layout: &FileLayout) -> (r: Bencode)
    ensures
        r@ == info_value(name@, piece_length, pieces@, layout@),
{
    let mut entries = Dictionary::new();
    match layout {
        FileLayout::SingleFile(length) => entries.insert(key("length"), Bencode::Integer(*length as i64)),
        FileLayout::MultiFile(files) => entries.insert(key("files"), files_to_bencode(files)),
    }
    entries.insert(key("name"), Bencode::String(slice_to_vec(name.as_str().as_bytes())));
    entries.insert(key("piece length"), Bencode::Integer(piece_length as i64));
    entries.insert(key("pieces"), Bencode::String(pieces.clone()));
    Bencode::Dictionary(entries)
}

/// The SHA-1 of the dictionary as this client writes it.
fn compute_info_hash(name: &String, piece_length: u64, pieces: &Vec<u8>, file_layout: &FileLayout) -> (r: [u8; 20])
    ensures
        r@ == sha1(spec_encode(info_value(name@, piece_length, pieces@, file_layout@))),
{
    let value = info_bencode(name, piece_length, pieces, file_layout);
    let bytes = encode(&value);
    sha1_digest(bytes.as_slice())
}

impl InfoDictionary {
    /// The SHA-1 of the dictionary as this client writes it.
    pub fn info_hash(&self) -> (r: [u8; 20])
        ensures
            r@ == self@.info_hash,
    {
        self.info_hash
    }

    /// The number of bytes in each piece.
    pub fn piece_length(&self) -> (r: u64)
        ensures
            r == self@.piece_length,
    {
        self.piece_length
    }

    /// The suggested name.
    pub fn name(&self) -> (r: &String)
        ensures
            r@ == self@.name,
    {
        &self.name
    }

    /// How many pieces there are: one per 20-byte hash.
    pub fn piece_count(&self) -> (r: usize)
        ensures
            r == self@.pieces.len() / 20,
    {
        self.pieces.len() / 20
    }

    /// The length of the content, in bytes.
    pub fn length(&self) -> (r: u64)
        requires
            layout_length(self@.layout) <= u64::MAX,
        ensures
            r == layout_length(self@.layout),
    {
        self.file_layout.length()
    }

    /// The length of the content, in bytes, or `None` when the files
    /// together are longer than a `u64` can count.
    pub fn checked_length(&self) -> (r: Option<u64>)
        ensures
            match r {
                Some(n) => n == layout_length(self@.layout),
                None => layout_length(self@.layout) > u64::MAX,
            },
    {
        self.file_layout.checked_length()
    }

    /// The length of piece `index`: a whole piece, or what is left of the
    /// content for the last one, or zero past the end.
    pub fn piece_len(&self, index: u32) -> (r: u32)
        requires
            index * self@.piece_length <= u64::MAX,
            layout_length(self@.layout) <= u64::MAX,
        ensures
            r == info_piece_len(self@, index),
    {
        let start = index as u64 * self.piece_length;
        let remaining = self.length().saturating_sub(start);
        let n = if remaining < self.piece_length { remaining } else { self.piece_length };
        n as u32
    }

    /// The SHA-1 hash of piece `index`, or `None` if out of range.
    pub fn piece_hash(&self, index: usize) -> (r: Option<[u8; 20]>)
        ensures
            match r {
                Some(h) => 20 * index + 20 <= self@.pieces.len() && h@ == self@.pieces.subrange(20 * index, 20 * index + 20),
                None => 20 * index + 20 > self@.pieces.len(),
            },
    {
        let n = self.pieces.len();
        let start = match index.checked_mul(20) {
            Some(s) => s,
            None => return None,
        };
        let end = match start.checked_add(20) {
            Some(e) => e,
            None => return None,
        };
        if end > n {
            return None;
        }
        let mut h = [0u8; 20];
        let mut i: usize = 0;
        while i < 20
            invariant
                i <= 20,
                end == start + 20,
                end <= self.pieces@.len(),
                forall|k: int| 0 <= k < i ==> h@[k] == self.pieces@[start + k],
            decreases 20 - i,
        {
            h[i] = self.pieces[start + i];
            i = i + 1;
        }
        assert(h@ =~= self.pieces@.subrange(start as int, end as int));
        Some(h)
    }

    /// The dictionary written back as a value, keys in byte order.
    pub fn to_bencode(&self) -> (r: Bencode)
        ensures
            r@ == info_value(self@.name, self@.piece_length, self@.pieces, self@.layout),
    {
        info_bencode(&self.name, self.piece_length, &self.pieces, &self.file_layout)
    }

    /// Read the `info` dictionary, and take its hash.
    pub fn try_from(value: Bencode) -> (r: Result<Self, MetainfoError>)
        ensures
            match spec_info(value@) {
                Ok(i) => r is Ok && r->Ok_0@ == i,
                Err(e) => r is Err && r->Err_0@ == e,
            },
    {
        let dict = match value {
            Bencode::Dictionary(d) => d,
            _ => return Err(MetainfoError::NotADictionary),
        };
        let name = match extract_string_from_dict(&dict, "name") {
            Ok(n) => n,
            Err(e) => return Err(e),
        };
        let piece_length = match extract_integer_from_dict(&dict, "piece length") {
            Ok(p) => p,
            Err(e) => return Err(e),
        };
        let pieces = match extract_bytes_from_dict(&dict, "pieces") {
            Ok(p) => p,
            Err(e) => return Err(e),
        };
        if pieces.len() % 20 != 0 {
            return Err(MetainfoError::InvalidPiecesLength);
        }
        let length = match extract_optional_integer_from_dict(&dict, "length") {
            Ok(l) => l,
            Err(e) => return Err(e),
        };
        let files_result = extract_optional_list_from_dict(&dict, "files", InfoDictionaryFile::try_from);
        proof {
            match lookup(dict@, "files".spec_bytes()) {
                Some(SpecBencode::List(items)) => {
                    let conv = InfoDictionaryFile::try_from;
                    assert forall|x: Bencode, out: Result<InfoDictionaryFile, MetainfoError>| #[trigger] conv.ensures((x,), out) implies file_read(x@, out) by {}
                    lemma_files_converted(conv, items, files_result);
                },
                _ => {},
            }
        }
        let files = match files_result {
            Ok(f) => f,
            Err(e) => return Err(e),
        };
        let file_layout = match length {
            Some(l) => if files.is_some() {
                return Err(MetainfoError::BothFilesAndLength);
            } else {
                FileLayout::SingleFile(l)
            },
            None => match files {
                Some(fs) => if fs.len() > 0 {
                    FileLayout::MultiFile(fs)
                } else {
                    return Err(MetainfoError::MissingFilesAndLength);
                },
                None => return Err(MetainfoError::MissingFilesAndLength),
            },
        };
        let info_hash = compute_info_hash(&name, piece_length, &pieces, &file_layout);
        Ok(Self { name, piece_length, pieces, file_layout, info_hash })
    }
}

/// `f` is what the entry `v` of a `files` list says: its `length` and
/// its `path` components, each valid UTF-8, as text in order.
pub open spec fn file_read_from(v: SpecBencode, f: SpecFile) -> bool {
    &&& v matches SpecBencode::Dict(d)
    &&& dict_get(d, "length".spec_bytes()) matches Some(SpecBencode::Int(n))
    &&& n >= 0 && f.length == n as u64
    &&& dict_get(d, "path".spec_bytes()) matches Some(SpecBencode::List(ps))
    &&& f.path.len() == ps.len()
    &&& forall|j: int| 0 <= j < ps.len() ==> (#[trigger] ps[j] matches SpecBencode::Str(b) && valid_utf8(b)
        && f.path[j] == decode_utf8(b))
}

proof fn lemma_string_items_read(items: Seq<SpecBencode>, key: Seq<char>)
    ensures
        string_items(items, key) matches Ok(r) ==> {
            &&& r.len() == items.len()
            &&& forall|j: int| 0 <= j < items.len() ==> (#[trigger] items[j] matches SpecBencode::Str(b) && valid_utf8(b)
                && r[j] == decode_utf8(b))
        },
    decreases items.len(),
{
    if items.len() > 0 {
        lemma_string_items_read(items.drop_last(), key);
        if let Ok(r) = string_items(items, key) {
            assert forall|j: int| 0 <= j < items.len() implies (#[trigger] items[j] matches SpecBencode::Str(b) && valid_utf8(b)
                && r[j] == decode_utf8(b)) by {
                if j < items.len() - 1 {
                    assert(items[j] == items.drop_last()[j]);
                }
            }
        }
    }
}

proof fn lemma_file_items_read(items: Seq<SpecBencode>)
    ensures
        file_items(items) matches Ok(fs) ==> {
            &&& fs.len() == items.len()
            &&& forall|k: int| 0 <= k < items.len() ==> file_read_from(#[trigger] items[k], fs[k])
        },
    decreases items.len(),
{
    if items.len() > 0 {
        lemma_file_items_read(items.drop_last());
        if let Ok(fs) = file_items(items) {
            let last = items.last();
            if let SpecBencode::Dict(d) = last {
                if let Some(SpecBencode::List(ps)) = dict_get(d, "path".spec_bytes()) {
                    lemma_string_items_read(ps, "path"@);
                }
            }
            assert(file_read_from(last, fs.last()));
            assert forall|k: int| 0 <= k < items.len() implies file_read_from(#[trigger] items[k], fs[k]) by {
                if k < items.len() - 1 {
                    assert(items[k] == items.drop_last()[k]);
                }
            }
        }
    }
}

/// An `info` dictionary reads as what it says: the `pieces` bytes as they
/// are, the `name` as UTF-8 text, the `piece length`, and the layout: one
/// file of the `length`, or the non-empty `files` list, entry by entry in
/// order, each with its `length` and its `path`.
pub proof fn law_info_reads_its_dictionary(v: SpecBencode)
    ensures
        spec_info(v) matches Ok(info) ==> {
            &&& v matches SpecBencode::Dict(es)
            &&& dict_get(es, "pieces".spec_bytes()) == Some(SpecBencode::Str(info.pieces))
            &&& info.pieces.len() % 20 == 0
            &&& dict_get(es, "name".spec_bytes()) matches Some(SpecBencode::Str(b))
            &&& valid_utf8(b) && info.name == decode_utf8(b)
            &&& dict_get(es, "piece length".spec_bytes()) matches Some(SpecBencode::Int(n))
            &&& n >= 0 && info.piece_length == n as u64
            &&& match dict_get(es, "files".spec_bytes()) {
                Some(SpecBencode::List(items)) => {
                    &&& dict_get(es, "length".spec_bytes()) is None
                    &&& info.layout matches SpecLayout::MultiFile(fs)
                    &&& fs.len() == items.len() && fs.len() > 0
                    &&& forall|k: int| 0 <= k < items.len() ==> file_read_from(#[trigger] items[k], fs[k])
                },
                Some(_) => false,
                None => {
                    &&& dict_get(es, "length".spec_bytes()) matches Some(SpecBencode::Int(n))
                    &&& n >= 0 && info.layout == SpecLayout::SingleFile(n as u64)
                },
            }
        },
{
    if let Ok(info) = spec_info(v) {
        let es = v->Dict_0;
        if let Some(SpecBencode::List(items)) = dict_get(es, "files".spec_bytes()) {
            lemma_file_items_read(items);
        }
    }
}

/// The pieces of an `info` dictionary tile its content: piece `index`
/// starts at `index * piece_length` and never runs past the end; it is
/// whole while a whole piece fits, reaches exactly to the end when the end
/// falls inside it, and is empty from the end on.
pub proof fn law_info_pieces_tile_the_content(info: SpecInfo, index: u32)
    requires
        0 < info.piece_length <= u32::MAX,
    ensures
        ({
            let total = layout_length(info.layout) as int;
            let start = index * info.piece_length;
            let len = info_piece_len(info, index) as int;
            &&& start + len <= total || len == 0
            &&& start + info.piece_length <= total ==> len == info.piece_length
            &&& start <= total < start + info.piece_length ==> start + len == total
            &&& total <= start ==> len == 0
        }),
{
}

} // verus!
