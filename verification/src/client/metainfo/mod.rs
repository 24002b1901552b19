//! Reading a `.torrent` file's metainfo into the client's own types.

use vstd::prelude::*;
use vstd::string::StringSliceAdditionalSpecFns;

use crate::bencode::spec::{dict_get, SpecBencode};
use crate::client::protocol::Bencode;

pub mod error;
pub mod file_layout;
pub mod info_dictionary;
pub mod info_dictionary_file;
pub mod util;

use error::{MetainfoError, SpecMetainfoError};
use info_dictionary::{spec_info, InfoDictionary, SpecInfo};
use util::{extract_bencode_from_dict, extract_optional_string_from_dict, optional, string_value};

verus! {

/// A `.torrent` file: the tracker's URL and the `info` dictionary.
#[derive(Debug)]
pub struct Metainfo {
    /// The URL of the tracker.
    pub announce: Option<String>,
    /// The `info` dictionary.
    pub info: InfoDictionary,
}

/// What a `.torrent` file's top-level value reads as: the optional
/// `announce` text and the `info` dictionary.
pub open spec fn spec_metainfo(v: SpecBencode) -> Result<(Option<Seq<char>>, SpecInfo), SpecMetainfoError> {
    match v {
        SpecBencode::Dict(es) => match optional(dict_get(es, "announce".spec_bytes()), |x: SpecBencode| string_value(x, "announce"@)) {
            Err(e) => Err(e),
            Ok(announce) => match dict_get(es, "info".spec_bytes()) {
                None => Err(SpecMetainfoError::MissingKey("info"@)),
                Some(info) => match spec_info(info) {
                    Err(e) => Err(e),
                    Ok(i) => Ok((announce, i)),
                },
            },
        },
        _ => Err(SpecMetainfoError::NotADictionary),
    }
}

impl Metainfo {
    /// The torrent's identity: the hash of its `info` dictionary.
    pub fn info_hash(&self) -> (r: [u8; 20])
        ensures
            r@ == self.info@.info_hash,
    {
        self.info.info_hash()
    }

    /// Read a decoded `.torrent` file.
    pub fn try_from(value: Bencode) -> (r: Result<Self, MetainfoError>)
        ensures
            match spec_metainfo(value@) {
                Ok((announce, info)) => r is Ok && r->Ok_0.info@ == info && match announce {
                    Some(a) => r->Ok_0.announce is Some && r->Ok_0.announce->0@ == a,
                    None => r->Ok_0.announce is None,
                },
                Err(e) => r is Err && r->Err_0@ == e,
            },
    {
        let dict = match value {
            Bencode::Dictionary(d) => d,
            _ => return Err(MetainfoError::NotADictionary),
        };
        let announce = match extract_optional_string_from_dict(&dict, "announce") {
            Ok(a) => a,
            Err(e) => return Err(e),
        };
        let info = match extract_bencode_from_dict(&dict, "info") {
            Ok(v) => match InfoDictionary::try_from(v) {
                Ok(i) => i,
                Err(e) => return Err(e),
            },
            Err(e) => return Err(e),
        };
        Ok(Self { announce, info })
    }
}

} // verus!
