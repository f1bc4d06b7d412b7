use vstd::prelude::*;
use vstd::slice::{slice_subrange, slice_to_vec};
use vstd::string::is_ascii_spec_bytes;
use crate::bencode;
use crate::bencode::grammar::{decode, encode, encode_bytes, encode_entries, parse_value};
use crate::bencode::model::{Bencode, lemma_insert_last, lex_lt};
use crate::bencode::text::{lemma_text_len_64, nat_text};
use crate::bencode::value::{Dict, Value, bytes_eq};
use crate::digest::{sha1, sha1_of};
use crate::endpoint::Endpoint;
use crate::errors::Error;
use crate::message::Message;
use crate::util::rand_infohash_key;
use crate::wire::{
    bind, bound, dict_of, extend, find, frame, framed, integer_of, key, lookup,
};

verus! {

/// The id of a message of the extension protocol.
pub const EXTENDED: u8 = 20;

/// The id of the handshake of the extension protocol.
pub const EXTHANDSHAKE: u8 = 0;

/// The length of a piece of metadata.
pub const PER_BLOCK: i64 = 16384;

/// The most metadata that is fetched: 1024 pieces.
pub const MAX_METADATA_SIZE: i64 = 16777216;

/// The length of the protocol header that opens a connection.
pub const HANDSHAKE_LENGTH: usize = 68;

/// The first 28 bytes of the protocol header: the length of the protocol
/// name, the name `BitTorrent protocol`, and eight reserved bytes in which
/// bit `0x10` of the sixth announces the extension protocol.
pub open spec fn protocol_header() -> Seq<u8> {
    seq![
        19u8, 66, 105, 116, 84, 111, 114, 114, 101, 110, 116, 32, 112, 114, 111, 116, 111, 99, 111,
        108, 0, 0, 0, 0, 0, 16, 0, 1,
    ]
}

/// What a session knows: the announcement it works for, its own peer id,
/// the pieces of metadata received so far, and its timeout in seconds.
pub struct Session {
    pub peer: Endpoint,
    pub infohash: Seq<u8>,
    pub peer_id: Seq<u8>,
    pub pieces: Seq<Option<Seq<u8>>>,
    pub timeout: u64,
}

/// What is to be done after a message was handled.
#[derive(Debug, PartialEq)]
pub enum Step {
    /// Nothing: read the next message.
    Wait,
    /// Send these messages, then read the next message.
    Request(Vec<Vec<u8>>),
    /// The metadata is complete and matches the infohash.
    Done(Vec<u8>),
}

/// What a step is.
pub enum StepModel {
    Wait,
    Request(Seq<Seq<u8>>),
    Done(Seq<u8>),
}

/// What a sequence of messages is, message by message.
pub open spec fn messages_view(messages: Seq<Vec<u8>>) -> Seq<Seq<u8>> {
    Seq::new(messages.len(), |i: int| messages[i]@)
}

impl View for Step {
    type V = StepModel;

    open spec fn view(&self) -> StepModel {
        match self {
            Step::Wait => StepModel::Wait,
            Step::Request(messages) => StepModel::Request(messages_view(messages@)),
            Step::Done(bytes) => StepModel::Done(bytes@),
        }
    }
}

/// What a sequence of pieces is, piece by piece.
pub open spec fn pieces_view(pieces: Seq<Option<Vec<u8>>>) -> Seq<Option<Seq<u8>>> {
    Seq::new(
        pieces.len(),
        |i: int|
            match pieces[i] {
                Some(p) => Some(p@),
                None => None,
            },
    )
}

/// The protocol header of a session: the fixed 28 bytes, the infohash, the
/// peer id.
pub open spec fn handshake_of(infohash: Seq<u8>, peer_id: Seq<u8>) -> Seq<u8> {
    protocol_header() + infohash + peer_id
}

/// What is wrong with the 68 bytes that a peer answered the protocol header
/// with, if anything: `InvalidHandshakeResponse` for another length,
/// `PeerNotBitTorrent` unless the first 20 bytes are those of the header,
/// `PeerNotExtensions` unless bit `0x10` of byte 25 is set,
/// `InvalidHandshakeResponse` unless bytes 28 to 48 are the infohash.
pub open spec fn handshake_fault(buf: Seq<u8>, infohash: Seq<u8>) -> Option<Error> {
    if buf.len() != 68 {
        Some(Error::InvalidHandshakeResponse)
    } else if buf.subrange(0, 20) != protocol_header().subrange(0, 20) {
        Some(Error::PeerNotBitTorrent)
    } else if buf[25] & 0x10 != 0x10 {
        Some(Error::PeerNotExtensions)
    } else if buf.subrange(28, 48) != infohash {
        Some(Error::InvalidHandshakeResponse)
    } else {
        None
    }
}

/// The dictionary of the extension handshake: `{m: {ut_metadata: 1}}`.
pub open spec fn ext_handshake_dict() -> Bencode {
    Bencode::Dict(
        bound(
            Seq::empty(),
            "m",
            Bencode::Dict(bound(Seq::empty(), "ut_metadata", Bencode::Integer(1))),
        ),
    )
}

/// The extension handshake as it goes over the wire.
pub open spec fn ext_handshake_message() -> Seq<u8> {
    framed(seq![EXTENDED, EXTHANDSHAKE] + encode(ext_handshake_dict()))
}

/// The dictionary of the request for the piece `index`:
/// `{msg_type: 0, piece: index}`.
pub open spec fn request_dict(index: int) -> Bencode {
    Bencode::Dict(
        bound(
            bound(Seq::empty(), "msg_type", Bencode::Integer(0)),
            "piece",
            Bencode::Integer(index),
        ),
    )
}

/// The request for the piece `index` as it goes over the wire, addressed to
/// the extension id `ut_metadata` of the peer.
pub open spec fn request_message(index: int, ut_metadata: u8) -> Seq<u8> {
    framed(seq![EXTENDED, ut_metadata] + encode(request_dict(index)))
}

/// The requests for the pieces from `0` up to `count`.
pub open spec fn requests(count: int, ut_metadata: u8) -> Seq<Seq<u8>> {
    Seq::new(count as nat, |i: int| request_message(i, ut_metadata))
}

/// How many pieces of 16384 bytes hold `size` bytes.
pub open spec fn piece_count(size: int) -> int {
    (size + 16383) / 16384
}

/// What the extension handshake of a peer says: the size of the metadata
/// and the extension id to address requests to. An error where the body is
/// not a bencoded dictionary, lacks `metadata_size`, `m` or `ut_metadata`,
/// or holds a value of the wrong kind; `MetadataSizeOutOfRange` where the
/// size is negative or more than 16 MiB.
pub open spec fn ext_handshake_of(body: Seq<u8>) -> Result<(int, u8), Error> {
    match decode(body) {
        Err(e) => Err(Error::Bencode(e)),
        Ok(m) => match dict_of(m) {
            Err(e) => Err(e),
            Ok(dict) => match lookup(dict, "metadata_size") {
                Err(e) => Err(e),
                Ok(x) => match integer_of(x) {
                    Err(e) => Err(e),
                    Ok(size) => if size < 0 || size > MAX_METADATA_SIZE {
                        Err(Error::MetadataSizeOutOfRange)
                    } else {
                        match lookup(dict, "m") {
                            Err(e) => Err(e),
                            Ok(x) => match dict_of(x) {
                                Err(e) => Err(e),
                                Ok(inner) => match lookup(inner, "ut_metadata") {
                                    Err(e) => Err(e),
                                    Ok(x) => match integer_of(x) {
                                        Err(e) => Err(e),
                                        Ok(id) => Ok((size, (id as i64) as u8)),
                                    },
                                },
                            },
                        }
                    },
                },
            },
        },
    }
}

/// What a piece message holds: the index of the piece and its bytes, which
/// follow the bencoded dictionary. An error where the body does not start
/// with a bencoded dictionary, the dictionary lacks `piece` or `msg_type`,
/// or holds a value of the wrong kind; `InvalidPieceMessage` where
/// `msg_type` is not 1.
pub open spec fn piece_of(body: Seq<u8>) -> Result<(int, Seq<u8>), Error> {
    match parse_value(body) {
        Err(e) => Err(Error::Bencode(e)),
        Ok((m, rest)) => match dict_of(m) {
            Err(e) => Err(e),
            Ok(dict) => match lookup(dict, "piece") {
                Err(e) => Err(e),
                Ok(x) => match integer_of(x) {
                    Err(e) => Err(e),
                    Ok(index) => match lookup(dict, "msg_type") {
                        Err(e) => Err(e),
                        Ok(x) => match integer_of(x) {
                            Err(e) => Err(e),
                            Ok(kind) => if kind != 1 {
                                Err(Error::InvalidPieceMessage)
                            } else {
                                Ok((index, rest))
                            },
                        },
                    },
                },
            },
        },
    }
}

/// Every piece has been received.
pub open spec fn all_filled(pieces: Seq<Option<Seq<u8>>>) -> bool {
    forall|i: int| 0 <= i < pieces.len() ==> (#[trigger] pieces[i]) is Some
}

/// The pieces received, one after the other in the order of their indices.
pub open spec fn assembled(pieces: Seq<Option<Seq<u8>>>) -> Seq<u8>
    decreases pieces.len(),
{
    if pieces.len() == 0 {
        Seq::empty()
    } else {
        assembled(pieces.drop_last()) + match pieces.last() {
            Some(p) => p,
            None => Seq::empty(),
        }
    }
}

/// The pieces after the bytes of the piece `index` came in: they fill the
/// slot if it was empty, and a slot that was filled keeps what it holds.
pub open spec fn stored(pieces: Seq<Option<Seq<u8>>>, index: int, bytes: Seq<u8>) -> Seq<
    Option<Seq<u8>>,
> {
    if pieces[index] is None {
        pieces.update(index, Some(bytes))
    } else {
        pieces
    }
}

/// What follows once a message was taken in: while a piece is missing, the
/// requests go out, if there are any; once all are there, the metadata is
/// done if its digest is the infohash, and `ChecksumMismatch` if not.
pub open spec fn conclusion(
    infohash: Seq<u8>,
    pieces: Seq<Option<Seq<u8>>>,
    digest: Seq<u8>,
    to_send: Seq<Seq<u8>>,
) -> Result<StepModel, Error> {
    if all_filled(pieces) {
        if digest == infohash {
            Ok(StepModel::Done(assembled(pieces)))
        } else {
            Err(Error::ChecksumMismatch)
        }
    } else if to_send.len() == 0 {
        Ok(StepModel::Wait)
    } else {
        Ok(StepModel::Request(to_send))
    }
}

/// What a message from the peer does to the pieces of a session, and what
/// follows. A message that is empty or not of the extension protocol is
/// passed over. An extension handshake sets up the slots and asks for
/// every piece; any other extended message brings a piece.
/// `InvalidPieceMessage` where the message ends after its first byte, or
/// the index of the piece is not that of a slot.
pub open spec fn message_step(
    infohash: Seq<u8>,
    pieces: Seq<Option<Seq<u8>>>,
    data: Seq<u8>,
) -> (Seq<Option<Seq<u8>>>, Result<StepModel, Error>) {
    if data.len() == 0 || data[0] != EXTENDED {
        (pieces, Ok(StepModel::Wait))
    } else if data.len() < 2 {
        (pieces, Err(Error::InvalidPieceMessage))
    } else if data[1] == 0 {
        match ext_handshake_of(data.skip(2)) {
            Err(e) => (pieces, Err(e)),
            Ok((size, id)) => {
                let fresh = Seq::new(piece_count(size) as nat, |i: int| None::<Seq<u8>>);
                (
                    fresh,
                    conclusion(
                        infohash,
                        fresh,
                        sha1(assembled(fresh)),
                        requests(piece_count(size), id),
                    ),
                )
            },
        }
    } else {
        match piece_of(data.skip(2)) {
            Err(e) => (pieces, Err(e)),
            Ok((index, bytes)) => if 0 <= index < pieces.len() {
                let next = stored(pieces, index, bytes);
                (next, conclusion(infohash, next, sha1(assembled(next)), Seq::empty()))
            } else {
                (pieces, Err(Error::InvalidPieceMessage))
            },
        }
    }
}

/// The fetch of the metadata of one announcement from its peer: what is
/// sent, and what each message received leads to.
pub struct MetaWire {
    message: Message,
    peer_id: Vec<u8>,
    pieces: Vec<Option<Vec<u8>>>,
    timeout: u64,
}

impl View for MetaWire {
    type V = Session;

    closed spec fn view(&self) -> Session {
        Session {
            peer: self.message.peer,
            infohash: self.message.infohash@,
            peer_id: self.peer_id@,
            pieces: pieces_view(self.pieces@),
            timeout: self.timeout,
        }
    }
}

/// The fixed 28 bytes of the protocol header.
fn header_bytes() -> (r: Vec<u8>)
    ensures
        r@ == protocol_header(),
{
    let h: [u8; 28] = [
        19, 66, 105, 116, 84, 111, 114, 114, 101, 110, 116, 32, 112, 114, 111, 116, 111, 99, 111,
        108, 0, 0, 0, 0, 0, 16, 0, 1,
    ];
    let mut out: Vec<u8> = Vec::new();
    let mut i: usize = 0;
    while i < 28
        invariant
            i <= 28,
            out@.len() == i,
            forall|k: int| 0 <= k < i ==> out@[k] == h@[k],
        decreases 28 - i,
    {
        out.push(h[i]);
        i += 1;
    }
    proof {
        assert(out@ =~= protocol_header());
    }
    out
}

/// The bytes of the two keys of a request, and their order.
proof fn lemma_request_keys()
    ensures
        key("msg_type").len() == 8,
        key("piece").len() == 5,
        lex_lt(key("msg_type"), key("piece")),
{
    reveal_strlit("msg_type");
    reveal_strlit("piece");
    is_ascii_spec_bytes("msg_type");
    is_ascii_spec_bytes("piece");
    assert(key("msg_type")[0] == 109);
    assert(key("piece")[0] == 112);
}

/// The length of the keys of the extension handshake.
proof fn lemma_handshake_keys()
    ensures
        key("m").len() == 1,
        key("ut_metadata").len() == 11,
{
    reveal_strlit("m");
    reveal_strlit("ut_metadata");
    is_ascii_spec_bytes("m");
    is_ascii_spec_bytes("ut_metadata");
}

/// The encoding of a short key takes up to two digits, a colon and the key.
proof fn lemma_short_key(k: Seq<u8>)
    requires
        k.len() < 100,
    ensures
        encode_bytes(k).len() <= k.len() + 3,
{
    reveal_with_fuel(nat_text, 3);
}

/// The request for a piece is short.
proof fn lemma_request_len(index: int)
    requires
        i64::MIN <= index <= i64::MAX,
    ensures
        encode(request_dict(index)).len() <= 64,
{
    lemma_request_keys();
    let first = (key("msg_type"), Bencode::Integer(0));
    let second = (key("piece"), Bencode::Integer(index));
    lemma_insert_last(Seq::empty(), first.0, first.1);
    let one = bound(Seq::empty(), "msg_type", Bencode::Integer(0));
    assert(one =~= seq![first]);
    lemma_insert_last(one, second.0, second.1);
    let two = bound(one, "piece", Bencode::Integer(index));
    assert(two =~= seq![first, second]);
    lemma_short_key(first.0);
    lemma_short_key(second.0);
    lemma_text_len_64(index);
    lemma_text_len_64(0);
    assert(two[0] == first && two[1] == second);
    assert(encode(first.1).len() <= 23);
    assert(encode(second.1).len() <= 23);
    assert(encode_entries(two, 2) =~= Seq::<u8>::empty());
    assert(encode_entries(two, 1) == encode_bytes(second.0) + encode(second.1) + encode_entries(
        two,
        2,
    ));
    assert(encode_entries(two, 0) == encode_bytes(first.0) + encode(first.1) + encode_entries(
        two,
        1,
    ));
}

/// The extension handshake is short.
proof fn lemma_ext_handshake_len()
    ensures
        encode(ext_handshake_dict()).len() <= 64,
{
    lemma_handshake_keys();
    let inner_entry = (key("ut_metadata"), Bencode::Integer(1));
    lemma_insert_last(Seq::empty(), inner_entry.0, inner_entry.1);
    let inner = bound(Seq::empty(), "ut_metadata", Bencode::Integer(1));
    assert(inner =~= seq![inner_entry]);
    let outer_entry = (key("m"), Bencode::Dict(inner));
    lemma_insert_last(Seq::empty(), outer_entry.0, outer_entry.1);
    let outer = bound(Seq::empty(), "m", Bencode::Dict(inner));
    assert(outer =~= seq![outer_entry]);
    lemma_short_key(inner_entry.0);
    lemma_short_key(outer_entry.0);
    lemma_text_len_64(1);
    assert(inner[0] == inner_entry);
    assert(outer[0] == outer_entry);
    assert(encode(inner_entry.1).len() <= 23);
    assert(encode_entries(inner, 1) =~= Seq::<u8>::empty());
    assert(encode_entries(inner, 0) == encode_bytes(inner_entry.0) + encode(inner_entry.1)
        + encode_entries(inner, 1));
    assert(encode(Bencode::Dict(inner)).len() <= 40);
    assert(encode_entries(outer, 1) =~= Seq::<u8>::empty());
    assert(encode_entries(outer, 0) == encode_bytes(outer_entry.0) + encode(outer_entry.1)
        + encode_entries(outer, 1));
}

/// The metadata, if its digest is the infohash; `ChecksumMismatch` if not.
pub fn check_digest(bytes: Vec<u8>, digest: &[u8], infohash: &[u8]) -> (r: Result<Vec<u8>, Error>)
    ensures
        r == (if digest@ == infohash@ {
            Ok::<Vec<u8>, Error>(bytes)
        } else {
            Err::<Vec<u8>, Error>(Error::ChecksumMismatch)
        }),
{
    if bytes_eq(digest, infohash) {
        Ok(bytes)
    } else {
        Err(Error::ChecksumMismatch)
    }
}

impl MetaWire {
    /// A session for the announcement `msg`, with a random peer id of 20
    /// bytes and no piece yet.
    pub fn new(msg: &Message, timeout: u64) -> (wire: MetaWire)
        ensures
            wire@.peer == msg.peer,
            wire@.infohash == msg.infohash@,
            wire@.peer_id.len() == 20,
            wire@.pieces == Seq::<Option<Seq<u8>>>::empty(),
            wire@.timeout == timeout,
    {
        let wire = MetaWire {
            message: msg.clone(),
            peer_id: rand_infohash_key(),
            pieces: Vec::new(),
            timeout,
        };
        proof {
            assert(wire@.pieces =~= Seq::<Option<Seq<u8>>>::empty());
        }
        wire
    }

    /// The peer to connect to.
    pub fn peer(&self) -> (peer: Endpoint)
        ensures
            peer == self@.peer,
    {
        self.message.peer
    }

    /// The seconds that each operation on the connection may take.
    pub fn timeout(&self) -> (seconds: u64)
        ensures
            seconds == self@.timeout,
    {
        self.timeout
    }

    /// The protocol header to open the connection with: the fixed 28 bytes,
    /// the infohash, the peer id.
    pub fn handshake(&self) -> (header: Vec<u8>)
        ensures
            header@ == handshake_of(self@.infohash, self@.peer_id),
    {
        let mut buf = header_bytes();
        extend(&mut buf, self.message.infohash.as_slice());
        extend(&mut buf, self.peer_id.as_slice());
        buf
    }

    /// Checks the 68 bytes that the peer answered the protocol header with.
    pub fn on_handshake(&self, buf: &[u8]) -> (r: Result<(), Error>)
        ensures
            match handshake_fault(buf@, self@.infohash) {
                Some(e) => r == Err::<(), Error>(e),
                None => r is Ok,
            },
    {
        if buf.len() != HANDSHAKE_LENGTH {
            return Err(Error::InvalidHandshakeResponse);
        }
        let header = header_bytes();
        if !bytes_eq(slice_subrange(buf, 0, 20), slice_subrange(header.as_slice(), 0, 20)) {
            return Err(Error::PeerNotBitTorrent);
        }
        if buf[25] & 0x10 != 0x10 {
            return Err(Error::PeerNotExtensions);
        }
        if !bytes_eq(slice_subrange(buf, 28, 48), self.message.infohash.as_slice()) {
            return Err(Error::InvalidHandshakeResponse);
        }
        Ok(())
    }

    /// The extension handshake to send once the protocol header of the peer
    /// was accepted: `{m: {ut_metadata: 1}}`, as a message of the extension
    /// protocol, with its length before it.
    pub fn ext_handshake(&self) -> (message: Vec<u8>)
        ensures
            message@ == ext_handshake_message(),
    {
        let mut inner = Dict::new();
        bind(&mut inner, "ut_metadata", Value::Integer(1));
        let mut m = Dict::new();
        bind(&mut m, "m", Value::Dict(inner));
        let value = Value::Dict(m);
        let data = match bencode::to_bytes(&value) {
            Ok(data) => data,
            Err(_) => Vec::new(),
        };
        let mut buf: Vec<u8> = Vec::new();
        buf.push(EXTENDED);
        buf.push(EXTHANDSHAKE);
        extend(&mut buf, data.as_slice());
        proof {
            lemma_ext_handshake_len();
            assert(buf@ =~= seq![EXTENDED, EXTHANDSHAKE] + encode(ext_handshake_dict()));
        }
        frame(buf.as_slice())
    }

    /// The request for the piece `index`: `{msg_type: 0, piece: index}`, as
    /// a message of the extension protocol addressed to the extension id
    /// `ut_metadata` of the peer, with its length before it.
    pub fn request_piece(&self, index: i64, ut_metadata: u8) -> (message: Vec<u8>)
        ensures
            message@ == request_message(index as int, ut_metadata),
    {
        let mut m = Dict::new();
        bind(&mut m, "msg_type", Value::Integer(0));
        bind(&mut m, "piece", Value::Integer(index));
        let value = Value::Dict(m);
        let data = match bencode::to_bytes(&value) {
            Ok(data) => data,
            Err(_) => Vec::new(),
        };
        let mut buf: Vec<u8> = Vec::new();
        buf.push(EXTENDED);
        buf.push(ut_metadata);
        extend(&mut buf, data.as_slice());
        proof {
            lemma_request_len(index as int);
            assert(buf@ =~= seq![EXTENDED, ut_metadata] + encode(request_dict(index as int)));
        }
        frame(buf.as_slice())
    }

    /// Whether every piece has been received.
    pub fn check_pieces_done(&self) -> (done: bool)
        ensures
            done == all_filled(self@.pieces),
    {
        let mut i: usize = 0;
        while i < self.pieces.len()
            invariant
                i <= self.pieces.len(),
                forall|k: int| 0 <= k < i ==> (#[trigger] self@.pieces[k]) is Some,
            decreases self.pieces.len() - i,
        {
            if self.pieces[i].is_none() {
                proof {
                    assert(self@.pieces[i as int] is None);
                }
                return false;
            }
            i += 1;
        }
        true
    }

    /// The pieces received, one after the other, and their SHA-1 digest.
    pub fn join_pieces(&self) -> (r: (Vec<u8>, Vec<u8>))
        ensures
            r.0@ == assembled(self@.pieces),
            r.1@ == sha1(assembled(self@.pieces)),
            r.1@.len() == 20,
    {
        let ghost pieces = self@.pieces;
        let mut res: Vec<u8> = Vec::new();
        let mut i: usize = 0;
        proof {
            assert(pieces.take(0) =~= Seq::<Option<Seq<u8>>>::empty());
        }
        while i < self.pieces.len()
            invariant
                i <= self.pieces.len(),
                pieces == self@.pieces,
                res@ == assembled(pieces.take(i as int)),
            decreases self.pieces.len() - i,
        {
            proof {
                assert(pieces.take(i + 1).drop_last() =~= pieces.take(i as int));
                assert(pieces.take(i + 1).last() == pieces[i as int]);
            }
            match &self.pieces[i] {
                Some(s) => {
                    extend(&mut res, s.as_slice());
                },
                None => {
                    proof {
                        assert(res@ + Seq::<u8>::empty() =~= res@);
                    }
                },
            }
            i += 1;
        }
        proof {
            assert(pieces.take(i as int) =~= pieces);
        }
        let digest = sha1_of(res.as_slice());
        (res, digest)
    }

    /// Reads the extension handshake of the peer: the size of the metadata
    /// and the extension id to address requests to.
    pub fn read_ext_handshake(payload: &[u8]) -> (r: Result<(i64, u8), Error>)
        ensures
            match ext_handshake_of(payload@) {
                Ok((size, id)) => r == Ok::<(i64, u8), Error>((size as i64, id)) && size
                    == size as i64,
                Err(e) => r == Err::<(i64, u8), Error>(e),
            },
    {
        let m = match bencode::from_bytes(payload) {
            Ok(m) => m,
            Err(e) => {
                return Err(Error::Bencode(e));
            },
        };
        let dict = match m.dict() {
            Ok(dict) => dict,
            Err(e) => {
                return Err(Error::Bencode(e));
            },
        };
        let metadata_size = match find(dict, "metadata_size") {
            Ok(x) => match x.integer() {
                Ok(n) => n,
                Err(e) => {
                    return Err(Error::Bencode(e));
                },
            },
            Err(e) => {
                return Err(e);
            },
        };
        if metadata_size < 0 || metadata_size > MAX_METADATA_SIZE {
            return Err(Error::MetadataSizeOutOfRange);
        }
        let inner = match find(dict, "m") {
            Ok(x) => match x.dict() {
                Ok(inner) => inner,
                Err(e) => {
                    return Err(Error::Bencode(e));
                },
            },
            Err(e) => {
                return Err(e);
            },
        };
        let ut_metadata = match find(inner, "ut_metadata") {
            Ok(x) => match x.integer() {
                Ok(n) => n,
                Err(e) => {
                    return Err(Error::Bencode(e));
                },
            },
            Err(e) => {
                return Err(e);
            },
        };
        Ok((metadata_size, #[verifier::truncate] (ut_metadata as u8)))
    }

    /// Takes in the extension handshake of the peer: sets up an empty slot
    /// for every piece and returns the requests for all of them, in the
    /// order of their indices.
    pub fn on_ext_handshake(&mut self, payload: &[u8]) -> (r: Result<Vec<Vec<u8>>, Error>)
        ensures
            match ext_handshake_of(payload@) {
                Ok((size, id)) => r matches Ok(messages) && messages_view(messages@) == requests(
                    piece_count(size),
                    id,
                ) && final(self)@.pieces == Seq::new(
                    piece_count(size) as nat,
                    |i: int| None::<Seq<u8>>,
                ),
                Err(e) => r matches Err(x) && x == e && final(self)@.pieces == old(self)@.pieces,
            },
            final(self)@.peer == old(self)@.peer,
            final(self)@.infohash == old(self)@.infohash,
            final(self)@.peer_id == old(self)@.peer_id,
            final(self)@.timeout == old(self)@.timeout,
    {
        let (metadata_size, ut_metadata) = match MetaWire::read_ext_handshake(payload) {
            Ok(found) => found,
            Err(e) => {
                return Err(e);
            },
        };
        let mut num_pieces: i64 = metadata_size / PER_BLOCK;
        if metadata_size % PER_BLOCK != 0 {
            num_pieces += 1;
        }
        assert(num_pieces == piece_count(metadata_size as int));
        let mut pieces: Vec<Option<Vec<u8>>> = Vec::new();
        let mut messages: Vec<Vec<u8>> = Vec::new();
        let mut i: i64 = 0;
        while i < num_pieces
            invariant
                0 <= i <= num_pieces <= 1024,
                pieces@.len() == i,
                messages@.len() == i,
                forall|k: int| 0 <= k < i ==> (#[trigger] pieces@[k]) is None,
                forall|k: int|
                    0 <= k < i ==> (#[trigger] messages@[k])@ == request_message(k, ut_metadata),
            decreases num_pieces - i,
        {
            pieces.push(None);
            let message = self.request_piece(i, ut_metadata);
            messages.push(message);
            i += 1;
        }
        self.pieces = pieces;
        proof {
            assert(messages_view(messages@) =~= requests(num_pieces as int, ut_metadata));
            assert(self@.pieces =~= Seq::new(num_pieces as nat, |i: int| None::<Seq<u8>>));
        }
        Ok(messages)
    }

    /// Reads a piece message: the bytes of the piece, which follow the
    /// bencoded dictionary, and the index of the piece.
    pub fn on_piece(&self, payload: &[u8]) -> (r: Result<(Vec<u8>, i64), Error>)
        ensures
            match piece_of(payload@) {
                Ok((index, bytes)) => r matches Ok((b, i)) && b@ == bytes && i == index,
                Err(e) => r matches Err(x) && x == e,
            },
    {
        let (m, used) = match bencode::from_prefix(payload) {
            Ok(found) => found,
            Err(e) => {
                return Err(Error::Bencode(e));
            },
        };
        let dict = match m.dict() {
            Ok(dict) => dict,
            Err(e) => {
                return Err(Error::Bencode(e));
            },
        };
        let piece_index = match find(dict, "piece") {
            Ok(x) => match x.integer() {
                Ok(n) => n,
                Err(e) => {
                    return Err(Error::Bencode(e));
                },
            },
            Err(e) => {
                return Err(e);
            },
        };
        let msg_type = match find(dict, "msg_type") {
            Ok(x) => match x.integer() {
                Ok(n) => n,
                Err(e) => {
                    return Err(Error::Bencode(e));
                },
            },
            Err(e) => {
                return Err(e);
            },
        };
        if msg_type != 1 {
            return Err(Error::InvalidPieceMessage);
        }
        let bytes = slice_to_vec(slice_subrange(payload, used, payload.len()));
        proof {
            assert(bytes@ =~= payload@.skip(used as int));
        }
        Ok((bytes, piece_index))
    }

    /// Takes in an extended message with the extension id `ext`: the
    /// extension handshake of the peer for 0, a piece for any other id.
    /// Returns the messages to send.
    pub fn on_extended(&mut self, ext: u8, payload: &[u8]) -> (r: Result<Vec<Vec<u8>>, Error>)
        ensures
            final(self)@.peer == old(self)@.peer,
            final(self)@.infohash == old(self)@.infohash,
            final(self)@.peer_id == old(self)@.peer_id,
            final(self)@.timeout == old(self)@.timeout,
            ext == 0 ==> match ext_handshake_of(payload@) {
                Ok((size, id)) => r matches Ok(messages) && messages_view(messages@) == requests(
                    piece_count(size),
                    id,
                ) && final(self)@.pieces == Seq::new(
                    piece_count(size) as nat,
                    |i: int| None::<Seq<u8>>,
                ),
                Err(e) => r matches Err(x) && x == e && final(self)@.pieces == old(self)@.pieces,
            },
            ext != 0 ==> match piece_of(payload@) {
                Ok((index, bytes)) => if 0 <= index < old(self)@.pieces.len() {
                    r matches Ok(messages) && messages@.len() == 0 && final(self)@.pieces
                        == stored(old(self)@.pieces, index, bytes)
                } else {
                    r matches Err(x) && x == Error::InvalidPieceMessage && final(self)@.pieces
                        == old(self)@.pieces
                },
                Err(e) => r matches Err(x) && x == e && final(self)@.pieces == old(self)@.pieces,
            },
    {
        if ext == 0 {
            self.on_ext_handshake(payload)
        } else {
            let (piece, index) = match self.on_piece(payload) {
                Ok(found) => found,
                Err(e) => {
                    return Err(e);
                },
            };
            if index < 0 || index as u64 >= self.pieces.len() as u64 {
                return Err(Error::InvalidPieceMessage);
            }
            let slot: usize = index as usize;
            let ghost before = self@.pieces;
            if self.pieces[slot].is_none() {
                self.pieces[slot] = Some(piece);
                proof {
                    assert(self@.pieces =~= stored(before, index as int, piece@));
                }
            } else {
                proof {
                    assert(before[index as int] is Some);
                }
            }
            Ok(Vec::new())
        }
    }

    /// Takes in one message from the peer and says what follows: more
    /// reading, requests to send, or the metadata, which is handed out only
    /// if its SHA-1 digest is the infohash.
    pub fn on_message(&mut self, data: &[u8]) -> (r: Result<Step, Error>)
        ensures
            match message_step(old(self)@.infohash, old(self)@.pieces, data@) {
                (pieces, Ok(step)) => r matches Ok(x) && x@ == step && final(self)@.pieces
                    == pieces,
                (pieces, Err(e)) => r matches Err(x) && x == e && final(self)@.pieces == pieces,
            },
            r matches Ok(Step::Done(bytes)) ==> sha1(bytes@) == old(self)@.infohash,
            final(self)@.peer == old(self)@.peer,
            final(self)@.infohash == old(self)@.infohash,
            final(self)@.peer_id == old(self)@.peer_id,
            final(self)@.timeout == old(self)@.timeout,
    {
        if data.len() == 0 || data[0] != EXTENDED {
            return Ok(Step::Wait);
        }
        if data.len() < 2 {
            return Err(Error::InvalidPieceMessage);
        }
        let ext: u8 = data[1];
        let body = slice_subrange(data, 2, data.len());
        proof {
            assert(body@ =~= data@.skip(2));
        }
        let to_send = match self.on_extended(ext, body) {
            Ok(to_send) => to_send,
            Err(e) => {
                return Err(e);
            },
        };
        if !self.check_pieces_done() {
            if to_send.len() == 0 {
                proof {
                    assert(messages_view(to_send@) =~= Seq::<Seq<u8>>::empty());
                }
                return Ok(Step::Wait);
            }
            return Ok(Step::Request(to_send));
        }
        let (res, digest) = self.join_pieces();
        match check_digest(res, digest.as_slice(), self.message.infohash.as_slice()) {
            Ok(bytes) => Ok(Step::Done(bytes)),
            Err(e) => Err(e),
        }
    }
}

} // verus!
