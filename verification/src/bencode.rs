//! The bencode codec: byte strings, integers, lists and dictionaries.

pub mod decoder;
pub mod encoder;
pub mod error;
pub mod grammar;
pub mod model;
pub mod roundtrip;
pub mod text;
pub mod value;

pub use decoder::{Decoder, from_bytes, from_prefix};
pub use encoder::{Encoder, to_bytes};
pub use error::Error;
pub use model::Bencode;
pub use value::{Dict, Value};
