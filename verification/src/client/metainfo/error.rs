//! Why torrent metadata could not be read.

use vstd::prelude::*;

verus! {

/// Why torrent metadata could not be read.
#[derive(Debug)]
pub enum MetainfoError {
    NotADictionary,
    WrongValueType(String),
    MissingKey(String),
    IntegerOverflow,
    InvalidUtf8String,
    InvalidPiecesLength,
    MissingFilesAndLength,
    /// An `info` dictionary had both `length` and `files`.
    BothFilesAndLength,
}

/// An error, with the keys it names as character sequences.
pub enum SpecMetainfoError {
    NotADictionary,
    WrongValueType(Seq<char>),
    MissingKey(Seq<char>),
    IntegerOverflow,
    InvalidUtf8String,
    InvalidPiecesLength,
    MissingFilesAndLength,
    BothFilesAndLength,
}

impl View for MetainfoError {
    type V = SpecMetainfoError;

    open spec fn view(&self) -> SpecMetainfoError {
        match self {
            MetainfoError::NotADictionary => SpecMetainfoError::NotADictionary,
            MetainfoError::WrongValueType(k) => SpecMetainfoError::WrongValueType(k@),
            MetainfoError::MissingKey(k) => SpecMetainfoError::MissingKey(k@),
            MetainfoError::IntegerOverflow => SpecMetainfoError::IntegerOverflow,
            MetainfoError::InvalidUtf8String => SpecMetainfoError::InvalidUtf8String,
            MetainfoError::InvalidPiecesLength => SpecMetainfoError::InvalidPiecesLength,
            MetainfoError::MissingFilesAndLength => SpecMetainfoError::MissingFilesAndLength,
            MetainfoError::BothFilesAndLength => SpecMetainfoError::BothFilesAndLength,
        }
    }
}

} // verus!
