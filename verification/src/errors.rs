use vstd::prelude::*;
use vstd::std_specs::convert::FromSpecImpl;
use crate::bencode;

verus! {

/// What can go wrong while handling a DHT packet, a peer-wire message or a
/// metadata blob.
#[derive(Debug, Clone, Copy, PartialEq, Eq)]
pub enum Error {
    /// The bytes are not bencode, or a value is not of the kind expected.
    Bencode(bencode::Error),
    /// A dictionary lacks the key named.
    DictNotFound(&'static str),
    /// A DHT packet does not have the shape of a query, a reply or an error.
    InvalidPacket,
    /// The token of an `announce_peer` query is not the one handed out.
    InvalidToken,
    /// A `nodes` payload whose length is not a positive multiple of 26.
    InvalidNodesLength,
    /// The peer did not answer with the BitTorrent protocol header.
    PeerNotBitTorrent,
    /// The peer does not support the extension protocol.
    PeerNotExtensions,
    /// The peer answered the handshake for another infohash.
    InvalidHandshakeResponse,
    /// The announced metadata size is negative or more than 16 MiB.
    MetadataSizeOutOfRange,
    /// A piece message is not a data message for a piece that was asked for.
    InvalidPieceMessage,
    /// The assembled metadata does not hash to the infohash.
    ChecksumMismatch,
    /// The lengths of the files of a torrent do not add up in 64 bits.
    LengthOverflow,
}

impl From<bencode::Error> for Error {
    fn from(e: bencode::Error) -> (r: Error) {
        Error::Bencode(e)
    }
}

impl FromSpecImpl<bencode::Error> for Error {
    open spec fn obeys_from_spec() -> bool {
        true
    }

    open spec fn from_spec(e: bencode::Error) -> Error {
        Error::Bencode(e)
    }
}

impl Error {
    /// The text that `message` returns for each error.
    pub open spec fn message_of(e: Error) -> &'static str {
        match e {
            Error::Bencode(inner) => bencode::Error::message_of(inner),
            Error::DictNotFound(_) => "bencode dict key not found",
            Error::InvalidPacket => "invalid packet",
            Error::InvalidToken => "invalid token",
            Error::InvalidNodesLength => "invalid reply 'nodes' length",
            Error::PeerNotBitTorrent => "remote peer not supporting bittorrent protocol",
            Error::PeerNotExtensions => "remote peer not supporting extension protocol",
            Error::InvalidHandshakeResponse => "invalid bittorrent extension header response",
            Error::MetadataSizeOutOfRange => "metadata size out of range",
            Error::InvalidPieceMessage => "invalid piece message",
            Error::ChecksumMismatch => "metadata checksum mismatch",
            Error::LengthOverflow => "file lengths overflow",
        }
    }

    /// A short description of the error.
    pub fn message(&self) -> (text: &'static str)
        ensures
            text == Error::message_of(*self),
    {
        match self {
            Error::Bencode(inner) => inner.message(),
            Error::DictNotFound(_) => "bencode dict key not found",
            Error::InvalidPacket => "invalid packet",
            Error::InvalidToken => "invalid token",
            Error::InvalidNodesLength => "invalid reply 'nodes' length",
            Error::PeerNotBitTorrent => "remote peer not supporting bittorrent protocol",
            Error::PeerNotExtensions => "remote peer not supporting extension protocol",
            Error::InvalidHandshakeResponse => "invalid bittorrent extension header response",
            Error::MetadataSizeOutOfRange => "metadata size out of range",
            Error::InvalidPieceMessage => "invalid piece message",
            Error::ChecksumMismatch => "metadata checksum mismatch",
            Error::LengthOverflow => "file lengths overflow",
        }
    }
}

} // verus!
