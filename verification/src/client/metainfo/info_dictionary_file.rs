//! One entry of a multi-file torrent's `files` list.

use vstd::prelude::*;
use vstd::string::StringSliceAdditionalSpecFns;

use crate::bencode::spec::{dict_get, SpecBencode};
use crate::client::protocol::Bencode;

use super::error::{MetainfoError, SpecMetainfoError};
use super::util::{extract_integer_from_dict, extract_string_list_from_dict, integer_value, required, string_items, strings_view};

verus! {

/// A file's length and its path, directories first.
#[derive(Debug)]
pub struct InfoDictionaryFile {
    /// The length of the file, in bytes.
    length: u64,
    /// Subdirectory names, the last of which is the file name.
    path: Vec<String>,
}

/// A file entry, with its path as character sequences.
pub struct SpecFile {
    pub length: u64,
    pub path: Seq<Seq<char>>,
}

impl View for InfoDictionaryFile {
    type V = SpecFile;

    closed spec fn view(&self) -> SpecFile {
        SpecFile { length: self.length, path: strings_view(self.path@) }
    }
}

/// What an entry of the `files` list reads as.
pub open spec fn spec_file(v: SpecBencode) -> Result<SpecFile, SpecMetainfoError> {
    match v {
        SpecBencode::Dict(es) => match required(
            dict_get(es, "length".spec_bytes()),
            "length"@,
            |x: SpecBencode| integer_value(x, "length"@),
        ) {
            Err(e) => Err(e),
            Ok(length) => match dict_get(es, "path".spec_bytes()) {
                None => Err(SpecMetainfoError::MissingKey("path"@)),
                Some(SpecBencode::List(items)) => match string_items(items, "path"@) {
                    Ok(path) => Ok(SpecFile { length, path }),
                    Err(e) => Err(e),
                },
                Some(_) => Err(SpecMetainfoError::WrongValueType("path"@)),
            },
        },
        _ => Err(SpecMetainfoError::NotADictionary),
    }
}

impl InfoDictionaryFile {
    pub fn new(length: u64, path: Vec<String>) -> (r: Self)
        ensures
            r@ == (SpecFile { length, path: strings_view(path@) }),
    {
        Self { length, path }
    }

    /// The length of the file, in bytes.
    pub fn length(&self) -> (r: u64)
        ensures
            r == self@.length,
    {
        self.length
    }

    /// The path components, directories first.
    pub fn path(&self) -> (r: &Vec<String>)
        ensures
            strings_view(r@) == self@.path,
    {
        &self.path
    }

    /// Read an entry of the `files` list: a dictionary with a `length` and
    /// a `path` list of UTF-8 strings.
    pub fn try_from(value: Bencode) -> (r: Result<Self, MetainfoError>)
        ensures
            match spec_file(value@) {
                Ok(f) => r is Ok && r->Ok_0@ == f,
                Err(e) => r is Err && r->Err_0@ == e,
            },
    {
        let dict = match value {
            Bencode::Dictionary(d) => d,
            _ => return Err(MetainfoError::NotADictionary),
        };
        let length = match extract_integer_from_dict(&dict, "length") {
            Ok(l) => l,
            Err(e) => return Err(e),
        };
        let path = match extract_string_list_from_dict(&dict, "path") {
            Ok(p) => p,
            Err(e) => return Err(e),
        };
        Ok(Self::new(length, path))
    }
}

/// Entries of a `files` list read one by one: all of them, in order, or the
/// first failure.
pub open spec fn file_items(items: Seq<SpecBencode>) -> Result<Seq<SpecFile>, SpecMetainfoError>
    decreases items.len(),
{
    if items.len() == 0 {
        Ok(Seq::empty())
    } else {
        match file_items(items.drop_last()) {
            Err(e) => Err(e),
            Ok(r) => match spec_file(items.last()) {
                Err(e) => Err(e),
                Ok(f) => Ok(r.push(f)),
            },
        }
    }
}

/// When every entry reads, the list reads as the entries in order.
pub proof fn lemma_file_items_ok(items: Seq<SpecBencode>, files: Seq<SpecFile>)
    requires
        files.len() == items.len(),
        forall|i: int| 0 <= i < items.len() ==> #[trigger] spec_file(items[i]) == Ok::<SpecFile, SpecMetainfoError>(files[i]),
    ensures
        file_items(items) == Ok::<Seq<SpecFile>, SpecMetainfoError>(files),
    decreases items.len(),
{
    if items.len() > 0 {
        let t = items.drop_last();
        assert forall|i: int| 0 <= i < t.len() implies #[trigger] spec_file(t[i]) == Ok::<SpecFile, SpecMetainfoError>(files.drop_last()[i]) by {
            assert(t[i] == items[i]);
        }
        lemma_file_items_ok(t, files.drop_last());
        assert(spec_file(items[items.len() - 1]) == Ok::<SpecFile, SpecMetainfoError>(files[items.len() - 1]));
        assert(files.drop_last().push(files.last()) =~= files);
    } else {
        assert(files =~= Seq::<SpecFile>::empty());
    }
}

/// When the entries before `k` read and entry `k` fails, the list fails
/// with entry `k`'s error.
pub proof fn lemma_file_items_err(items: Seq<SpecBencode>, k: int)
    requires
        0 <= k < items.len(),
        forall|j: int| 0 <= j < k ==> (#[trigger] spec_file(items[j])) is Ok,
        spec_file(items[k]) is Err,
    ensures
        file_items(items) == Err::<Seq<SpecFile>, SpecMetainfoError>(spec_file(items[k])->Err_0),
    decreases items.len(),
{
    let t = items.drop_last();
    if k < items.len() - 1 {
        assert forall|j: int| 0 <= j < k implies (#[trigger] spec_file(t[j])) is Ok by {
            assert(t[j] == items[j]);
        }
        assert(t[k] == items[k]);
        lemma_file_items_err(t, k);
    } else {
        let files = Seq::new(k as nat, |j: int| spec_file(items[j])->Ok_0);
        assert forall|i: int| 0 <= i < t.len() implies #[trigger] spec_file(t[i]) == Ok::<SpecFile, SpecMetainfoError>(files[i]) by {
            assert(t[i] == items[i]);
        }
        lemma_file_items_ok(t, files);
    }
}

} // verus!
