use vstd::prelude::*;

verus! {

/// What can go wrong while decoding bencode or reading a decoded value.
#[derive(Debug, Clone, Copy, PartialEq, Eq, Structural)]
pub enum Error {
    /// The input ended inside a value.
    Eof,
    /// An integer is not in canonical decimal form, or does not fit in 64 bits.
    InvalidInteger,
    /// The length prefix of a byte string is not a decimal number followed by a colon.
    InvalidLength,
    /// A byte string was asked for as text and is not UTF-8.
    Utf8,
    /// The value is not a byte string.
    NotByteStringType,
    /// The value is not a dictionary.
    NotDictType,
    /// The value is not a list.
    NotListType,
    /// The value is not an integer.
    NotIntegerType,
}

impl Error {
    /// A short description of the error.
    pub fn message(&self) -> (text: &'static str)
        ensures
            text == Error::message_of(*self),
    {
        match self {
            Error::Eof => "End of stream",
            Error::InvalidInteger => "Invalid integer",
            Error::InvalidLength => "Invalid byte string length",
            Error::Utf8 => "Invalid UTF-8",
            Error::NotByteStringType => "Not ByteString type",
            Error::NotDictType => "Not Dict type",
            Error::NotListType => "Not List type",
            Error::NotIntegerType => "Not Integer type",
        }
    }

    /// The text that `message` returns for each error.
    pub open spec fn message_of(e: Error) -> &'static str {
        match e {
            Error::Eof => "End of stream",
            Error::InvalidInteger => "Invalid integer",
            Error::InvalidLength => "Invalid byte string length",
            Error::Utf8 => "Invalid UTF-8",
            Error::NotByteStringType => "Not ByteString type",
            Error::NotDictType => "Not Dict type",
            Error::NotListType => "Not List type",
            Error::NotIntegerType => "Not Integer type",
        }
    }
}

} // verus!
