//! The bencode data format: values, a bounds-checked cursor, a strict
//! decoder and an encoder that is its exact inverse.

pub mod cursor;
pub mod decoder;
pub mod depth;
pub mod display;
pub mod encoder;
pub mod laws;
pub mod spans;
pub mod spec;
pub mod value;

pub use value::{Bencode, BencodeError, Dictionary};
