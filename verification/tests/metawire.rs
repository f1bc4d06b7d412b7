use btsniffer::bencode;
use btsniffer::metawire::{check_digest, Step};
use btsniffer::wire::{frame, frame_length};
use btsniffer::{Endpoint, Error, IpAddress, Message, MetaWire};

const SHA1_ABCDEF: [u8; 20] = [
    151, 0, 147, 103, 139, 24, 33, 39, 246, 11, 181, 27, 138, 242, 201, 77, 83, 158, 202, 58,
];

fn wire_for(infohash: &[u8]) -> MetaWire {
    let msg = Message::new(IpAddress::v4(1, 2, 3, 4), 6881, infohash);
    MetaWire::new(&msg, 15)
}

fn extended(ext: u8, body: &[u8]) -> Vec<u8> {
    let mut m = vec![20u8, ext];
    m.extend_from_slice(body);
    m
}

fn piece(index: usize, data: &[u8]) -> Vec<u8> {
    let mut body = format!("d8:msg_typei1e5:piecei{}ee", index).into_bytes();
    body.extend_from_slice(data);
    extended(3, &body)
}

fn response(infohash: &[u8]) -> Vec<u8> {
    let mut buf = vec![0x13u8];
    buf.extend_from_slice(b"BitTorrent protocol");
    buf.extend_from_slice(&[0, 0, 0, 0, 0, 0x10, 0, 0x05]);
    buf.extend_from_slice(infohash);
    buf.extend_from_slice(&[7u8; 20]);
    buf
}

#[test]
fn new_session_keeps_the_announcement() {
    let wire = wire_for(&[5u8; 20]);
    assert_eq!(wire.peer(), Endpoint::new(IpAddress::v4(1, 2, 3, 4), 6881));
    assert_eq!(wire.timeout(), 15);
    assert!(wire.check_pieces_done());
}

#[test]
fn handshake_is_header_infohash_and_peer_id() {
    let wire = wire_for(&[5u8; 20]);
    let h = wire.handshake();
    assert_eq!(h.len(), 68);
    assert_eq!(h[0], 0x13);
    assert_eq!(&h[1..20], b"BitTorrent protocol");
    assert_eq!(&h[20..28], &[0, 0, 0, 0, 0, 0x10, 0, 0x01]);
    assert_eq!(&h[28..48], &[5u8; 20]);
    assert_eq!(h[48..].len(), 20);
    let other = wire_for(&[5u8; 20]).handshake();
    assert_ne!(h[48..], other[48..]);
}

#[test]
fn on_handshake_accepts_a_valid_response() {
    let wire = wire_for(&[5u8; 20]);
    assert_eq!(wire.on_handshake(&response(&[5u8; 20])), Ok(()));
}

#[test]
fn on_handshake_without_extension_bit_fails() {
    let wire = wire_for(&[5u8; 20]);
    let mut buf = response(&[5u8; 20]);
    buf[25] = 0x00;
    assert_eq!(wire.on_handshake(&buf), Err(Error::PeerNotExtensions));
    buf[25] = 0xEF;
    assert_eq!(wire.on_handshake(&buf), Err(Error::PeerNotExtensions));
    buf[25] = 0xFF;
    assert_eq!(wire.on_handshake(&buf), Ok(()));
}

#[test]
fn on_handshake_rejects_other_protocols_and_infohashes() {
    let wire = wire_for(&[5u8; 20]);
    let mut buf = response(&[5u8; 20]);
    buf[3] = b'x';
    assert_eq!(wire.on_handshake(&buf), Err(Error::PeerNotBitTorrent));
    let mut buf = response(&[5u8; 20]);
    buf[0] = 0x12;
    buf[25] = 0;
    assert_eq!(wire.on_handshake(&buf), Err(Error::PeerNotBitTorrent));
    assert_eq!(
        wire.on_handshake(&response(&[6u8; 20])),
        Err(Error::InvalidHandshakeResponse)
    );
    assert_eq!(
        wire.on_handshake(&response(&[5u8; 20])[..67]),
        Err(Error::InvalidHandshakeResponse)
    );
    assert_eq!(wire.on_handshake(&[]), Err(Error::InvalidHandshakeResponse));
}

#[test]
fn ext_handshake_is_a_framed_message() {
    let wire = wire_for(&[5u8; 20]);
    let mut expected = vec![0u8, 0, 0, 26, 20, 0];
    expected.extend_from_slice(b"d1:md11:ut_metadatai1eee");
    assert_eq!(wire.ext_handshake(), expected);
}

#[test]
fn request_piece_is_a_framed_message() {
    let wire = wire_for(&[5u8; 20]);
    let mut expected = vec![0u8, 0, 0, 27, 20, 2];
    expected.extend_from_slice(b"d8:msg_typei0e5:piecei3ee");
    assert_eq!(wire.request_piece(3, 2), expected);
    let mut expected = vec![0u8, 0, 0, 30, 20, 255];
    expected.extend_from_slice(b"d8:msg_typei0e5:piecei1023ee");
    assert_eq!(wire.request_piece(1023, 255), expected);
}

#[test]
fn frame_puts_the_length_first() {
    assert_eq!(frame(b""), vec![0, 0, 0, 0]);
    assert_eq!(frame(b"ab"), vec![0, 0, 0, 2, b'a', b'b']);
    let long = vec![1u8; 0x01_02_03];
    let framed = frame(&long);
    assert_eq!(framed[..4], [0, 1, 2, 3]);
    assert_eq!(framed.len(), long.len() + 4);
    assert_eq!(frame_length([0, 1, 2, 3]), 0x01_02_03);
    assert_eq!(frame_length([0xff, 0xff, 0xff, 0xff]), u32::MAX);
    assert_eq!(frame_length([0, 0, 0, 0]), 0);
}

#[test]
fn read_ext_handshake_gives_size_and_id() {
    assert_eq!(
        MetaWire::read_ext_handshake(b"d1:md11:ut_metadatai2ee13:metadata_sizei31235ee"),
        Ok((31235, 2))
    );
    assert_eq!(
        MetaWire::read_ext_handshake(b"d1:md11:ut_metadatai258ee13:metadata_sizei0ee"),
        Ok((0, 2))
    );
    assert_eq!(
        MetaWire::read_ext_handshake(b"d1:md11:ut_metadatai-1ee13:metadata_sizei16777216ee"),
        Ok((16777216, 255))
    );
}

#[test]
fn read_ext_handshake_errors() {
    assert_eq!(
        MetaWire::read_ext_handshake(b"d1:md11:ut_metadatai2eee"),
        Err(Error::DictNotFound("metadata_size"))
    );
    assert_eq!(
        MetaWire::read_ext_handshake(b"d13:metadata_sizei5ee"),
        Err(Error::DictNotFound("m"))
    );
    assert_eq!(
        MetaWire::read_ext_handshake(b"d1:mde13:metadata_sizei5ee"),
        Err(Error::DictNotFound("ut_metadata"))
    );
    assert_eq!(
        MetaWire::read_ext_handshake(b"d1:md11:ut_metadatai2ee13:metadata_sizei-1ee"),
        Err(Error::MetadataSizeOutOfRange)
    );
    assert_eq!(
        MetaWire::read_ext_handshake(b"d1:md11:ut_metadatai2ee13:metadata_sizei16777217ee"),
        Err(Error::MetadataSizeOutOfRange)
    );
    assert_eq!(
        MetaWire::read_ext_handshake(b"d1:mi1e13:metadata_sizei5ee"),
        Err(Error::Bencode(bencode::Error::NotDictType))
    );
    assert_eq!(
        MetaWire::read_ext_handshake(b"d13:metadata_size1:xe"),
        Err(Error::Bencode(bencode::Error::NotIntegerType))
    );
    assert_eq!(
        MetaWire::read_ext_handshake(b"li1ee"),
        Err(Error::Bencode(bencode::Error::NotDictType))
    );
    assert_eq!(
        MetaWire::read_ext_handshake(b"d1:m"),
        Err(Error::Bencode(bencode::Error::Eof))
    );
}

#[test]
fn on_ext_handshake_asks_for_every_piece() {
    let mut wire = wire_for(&[5u8; 20]);
    let requests = wire
        .on_ext_handshake(b"d1:md11:ut_metadatai2ee13:metadata_sizei32769ee")
        .unwrap();
    assert_eq!(requests.len(), 3);
    for (i, r) in requests.iter().enumerate() {
        assert_eq!(*r, wire.request_piece(i as i64, 2));
    }
    assert!(!wire.check_pieces_done());
    let requests = wire
        .on_ext_handshake(b"d1:md11:ut_metadatai2ee13:metadata_sizei16384ee")
        .unwrap();
    assert_eq!(requests.len(), 1);
    let requests = wire
        .on_ext_handshake(b"d1:md11:ut_metadatai2ee13:metadata_sizei16777216ee")
        .unwrap();
    assert_eq!(requests.len(), 1024);
}

#[test]
fn on_piece_takes_the_bytes_after_the_dictionary() {
    let wire = wire_for(&[5u8; 20]);
    assert_eq!(
        wire.on_piece(b"d8:msg_typei1e5:piecei4eeDATA"),
        Ok((b"DATA".to_vec(), 4))
    );
    // the dictionary holds the bytes "ee" before its end, and so does the piece
    assert_eq!(
        wire.on_piece(b"d8:msg_typei1e4:name2:ee5:piecei0eeeexee"),
        Ok((b"eexee".to_vec(), 0))
    );
    assert_eq!(
        wire.on_piece(b"d8:msg_typei1e5:piecei0e10:total_sizei3ee"),
        Ok((Vec::new(), 0))
    );
}

#[test]
fn on_piece_errors() {
    let wire = wire_for(&[5u8; 20]);
    assert_eq!(
        wire.on_piece(b"d8:msg_typei2e5:piecei0eeX"),
        Err(Error::InvalidPieceMessage)
    );
    assert_eq!(
        wire.on_piece(b"d8:msg_typei0e5:piecei0eeX"),
        Err(Error::InvalidPieceMessage)
    );
    assert_eq!(
        wire.on_piece(b"d8:msg_typei1eeX"),
        Err(Error::DictNotFound("piece"))
    );
    assert_eq!(
        wire.on_piece(b"d5:piecei0eeX"),
        Err(Error::DictNotFound("msg_type"))
    );
    assert_eq!(
        wire.on_piece(b"d5:piece1:0e"),
        Err(Error::Bencode(bencode::Error::NotIntegerType))
    );
    assert_eq!(
        wire.on_piece(b"i1e"),
        Err(Error::Bencode(bencode::Error::NotDictType))
    );
    assert_eq!(wire.on_piece(b""), Err(Error::Bencode(bencode::Error::Eof)));
}

#[test]
fn fetch_of_two_pieces_gives_the_metadata() {
    let mut wire = wire_for(&SHA1_ABCDEF);
    let hello = extended(0, b"d1:md11:ut_metadatai3ee13:metadata_sizei16385ee");
    match wire.on_message(&hello).unwrap() {
        Step::Request(requests) => {
            assert_eq!(requests.len(), 2);
            assert_eq!(requests[0], wire.request_piece(0, 3));
            assert_eq!(requests[1], wire.request_piece(1, 3));
        }
        other => panic!("unexpected step {:?}", other),
    }
    assert_eq!(wire.on_message(&piece(0, b"ABC")), Ok(Step::Wait));
    assert!(!wire.check_pieces_done());
    assert_eq!(
        wire.on_message(&piece(1, b"DEF")),
        Ok(Step::Done(b"ABCDEF".to_vec()))
    );
    assert!(wire.check_pieces_done());
    let (bytes, digest) = wire.join_pieces();
    assert_eq!(bytes, b"ABCDEF".to_vec());
    assert_eq!(digest, SHA1_ABCDEF.to_vec());
}

#[test]
fn fetch_with_another_infohash_is_a_checksum_mismatch() {
    let mut other = SHA1_ABCDEF;
    other[19] ^= 1;
    let mut wire = wire_for(&other);
    let hello = extended(0, b"d1:md11:ut_metadatai3ee13:metadata_sizei16385ee");
    assert!(wire.on_message(&hello).is_ok());
    assert_eq!(wire.on_message(&piece(0, b"ABC")), Ok(Step::Wait));
    assert_eq!(
        wire.on_message(&piece(1, b"DEF")),
        Err(Error::ChecksumMismatch)
    );
    // the digest is not the bytes it was made of
    let mut wire = wire_for(b"ABCDEF");
    assert!(wire.on_message(&hello).is_ok());
    assert_eq!(wire.on_message(&piece(0, b"ABC")), Ok(Step::Wait));
    assert_eq!(
        wire.on_message(&piece(1, b"DEF")),
        Err(Error::ChecksumMismatch)
    );
}

#[test]
fn pieces_may_come_in_any_order() {
    let mut wire = wire_for(&SHA1_ABCDEF);
    let hello = extended(0, b"d1:md11:ut_metadatai3ee13:metadata_sizei16385ee");
    assert!(wire.on_message(&hello).is_ok());
    assert_eq!(wire.on_message(&piece(1, b"DEF")), Ok(Step::Wait));
    assert_eq!(
        wire.on_message(&piece(0, b"ABC")),
        Ok(Step::Done(b"ABCDEF".to_vec()))
    );
}

#[test]
fn a_slot_is_filled_once() {
    let mut wire = wire_for(&SHA1_ABCDEF);
    let hello = extended(0, b"d1:md11:ut_metadatai3ee13:metadata_sizei16385ee");
    assert!(wire.on_message(&hello).is_ok());
    assert_eq!(wire.on_message(&piece(0, b"ABC")), Ok(Step::Wait));
    assert_eq!(wire.on_message(&piece(0, b"XYZ")), Ok(Step::Wait));
    assert_eq!(
        wire.on_message(&piece(1, b"DEF")),
        Ok(Step::Done(b"ABCDEF".to_vec()))
    );
}

#[test]
fn messages_that_are_passed_over_or_refused() {
    let mut wire = wire_for(&SHA1_ABCDEF);
    assert_eq!(wire.on_message(&[]), Ok(Step::Wait));
    assert_eq!(wire.on_message(&[1, 2, 3]), Ok(Step::Wait));
    assert_eq!(wire.on_message(&[20]), Err(Error::InvalidPieceMessage));
    // a piece before any slot was set up
    assert_eq!(
        wire.on_message(&piece(0, b"ABC")),
        Err(Error::InvalidPieceMessage)
    );
    let hello = extended(0, b"d1:md11:ut_metadatai3ee13:metadata_sizei16385ee");
    assert!(wire.on_message(&hello).is_ok());
    assert_eq!(
        wire.on_message(&piece(2, b"ABC")),
        Err(Error::InvalidPieceMessage)
    );
    assert_eq!(
        wire.on_message(&extended(3, b"d8:msg_typei1e5:piecei-1eeABC")),
        Err(Error::InvalidPieceMessage)
    );
    assert_eq!(
        wire.on_message(&extended(0, b"d1:md11:ut_metadatai3eee")),
        Err(Error::DictNotFound("metadata_size"))
    );
}

#[test]
fn metadata_of_size_zero_is_checked_at_once() {
    let mut wire = wire_for(&SHA1_ABCDEF);
    let hello = extended(0, b"d1:md11:ut_metadatai3ee13:metadata_sizei0ee");
    assert_eq!(wire.on_message(&hello), Err(Error::ChecksumMismatch));
    let sha1_of_nothing = [
        0xda, 0x39, 0xa3, 0xee, 0x5e, 0x6b, 0x4b, 0x0d, 0x32, 0x55, 0xbf, 0xef, 0x95, 0x60, 0x18,
        0x90, 0xaf, 0xd8, 0x07, 0x09,
    ];
    let mut wire = wire_for(&sha1_of_nothing);
    assert_eq!(wire.on_message(&hello), Ok(Step::Done(Vec::new())));
}

#[test]
fn check_digest_compares_digest_and_infohash() {
    assert_eq!(
        check_digest(b"m".to_vec(), &[1, 2, 3], &[1, 2, 3]),
        Ok(b"m".to_vec())
    );
    assert_eq!(
        check_digest(b"m".to_vec(), &[1, 2, 3], &[1, 2, 4]),
        Err(Error::ChecksumMismatch)
    );
    assert_eq!(
        check_digest(b"m".to_vec(), &[1, 2, 3], &[1, 2]),
        Err(Error::ChecksumMismatch)
    );
}
