use btsniffer::node::{decode_nodes, Node};
use btsniffer::{Endpoint, Error, IpAddress, Message};

fn record(id: u8, ip: [u8; 4], port: u16) -> Vec<u8> {
    let mut r = vec![id; 20];
    r.extend_from_slice(&ip);
    r.extend_from_slice(&port.to_be_bytes());
    r
}

#[test]
fn node_from_bytes_reads_id_address_and_port() {
    let r = record(7, [192, 168, 1, 2], 6881);
    let node = Node::from_bytes(&r);
    assert_eq!(node.id, vec![7u8; 20]);
    assert_eq!(node.addr.ip, IpAddress::V4(0xC0A8_0102));
    assert_eq!(node.addr.port, 6881);
    assert_eq!(node.addr.ip, IpAddress::v4(192, 168, 1, 2));
}

#[test]
fn decode_nodes_reads_every_record() {
    let mut blob = record(1, [1, 2, 3, 4], 0x1AE1);
    blob.extend(record(2, [255, 254, 253, 252], 65535));
    blob.extend(record(3, [0, 0, 0, 0], 0));
    let nodes = decode_nodes(&blob).unwrap();
    assert_eq!(nodes.len(), 3);
    assert_eq!(nodes[0].id, vec![1u8; 20]);
    assert_eq!(nodes[0].addr, Endpoint::new(IpAddress::V4(0x0102_0304), 6881));
    assert_eq!(nodes[1].id, vec![2u8; 20]);
    assert_eq!(nodes[1].addr, Endpoint::new(IpAddress::V4(0xFFFE_FDFC), 65535));
    assert_eq!(nodes[2].addr, Endpoint::new(IpAddress::V4(0), 0));
}

#[test]
fn decode_nodes_rejects_a_length_that_is_no_positive_multiple_of_26() {
    assert_eq!(decode_nodes(&[]).err(), Some(Error::InvalidNodesLength));
    assert_eq!(decode_nodes(&[0u8; 1]).err(), Some(Error::InvalidNodesLength));
    assert_eq!(decode_nodes(&[0u8; 25]).err(), Some(Error::InvalidNodesLength));
    assert_eq!(decode_nodes(&[0u8; 27]).err(), Some(Error::InvalidNodesLength));
    assert_eq!(decode_nodes(&[0u8; 51]).err(), Some(Error::InvalidNodesLength));
    assert_eq!(decode_nodes(&[0u8; 26]).map(|n| n.len()).ok(), Some(1));
    assert_eq!(decode_nodes(&[0u8; 52]).map(|n| n.len()).ok(), Some(2));
}

#[test]
fn endpoint_text_of_version_4() {
    let e = Endpoint::new(IpAddress::v4(1, 2, 3, 4), 6881);
    assert_eq!(e.to_text(), b"1.2.3.4:6881".to_vec());
    let e = Endpoint::new(IpAddress::v4(0, 0, 0, 0), 0);
    assert_eq!(e.to_text(), b"0.0.0.0:0".to_vec());
    let e = Endpoint::new(IpAddress::v4(255, 255, 255, 255), 65535);
    assert_eq!(e.to_text(), b"255.255.255.255:65535".to_vec());
    let e = Endpoint::new(IpAddress::V4(0x7F00_0001), 80);
    assert_eq!(e.to_text(), b"127.0.0.1:80".to_vec());
}

#[test]
fn endpoint_text_of_version_6() {
    let e = Endpoint::new(IpAddress::V6(1), 6881);
    assert_eq!(e.to_text(), b"[0:0:0:0:0:0:0:1]:6881".to_vec());
    let e = Endpoint::new(
        IpAddress::V6(0x2001_0db8_0000_0000_0000_ff00_0042_8329),
        443,
    );
    assert_eq!(e.to_text(), b"[2001:db8:0:0:0:ff00:42:8329]:443".to_vec());
    let e = Endpoint::new(IpAddress::V6(u128::MAX), 1);
    assert_eq!(
        e.to_text(),
        b"[ffff:ffff:ffff:ffff:ffff:ffff:ffff:ffff]:1".to_vec()
    );
}

#[test]
fn message_new_keeps_peer_and_infohash() {
    let m = Message::new(IpAddress::v4(10, 0, 0, 1), 51413, &[9u8; 20]);
    assert_eq!(m.peer, Endpoint::new(IpAddress::V4(0x0A00_0001), 51413));
    assert_eq!(m.infohash, vec![9u8; 20]);
    let c = m.clone();
    assert_eq!(c.peer, m.peer);
    assert_eq!(c.infohash, m.infohash);
}

#[test]
fn infohash_hex_writes_two_digits_for_each_byte() {
    let m = Message::new(IpAddress::v4(127, 0, 0, 1), 6881, &[0x0a; 20]);
    assert_eq!(m.infohash_hex(), "0a0a0a0a0a0a0a0a0a0a0a0a0a0a0a0a0a0a0a0a");
    let m = Message::new(IpAddress::v4(1, 1, 1, 1), 1, &[0x00, 0x0a, 0x10, 0xff, 0x7b]);
    assert_eq!(m.infohash_hex(), "000a10ff7b");
    let m = Message::new(IpAddress::v4(1, 1, 1, 1), 1, &[0xAB; 20]);
    assert_eq!(m.infohash_hex(), "ab".repeat(20));
    let m = Message::new(IpAddress::v4(1, 1, 1, 1), 1, &[]);
    assert_eq!(m.infohash_hex(), "");
}

#[test]
fn infohash_hex_tells_infohashes_apart() {
    let a = Message::new(IpAddress::v4(1, 1, 1, 1), 1, &[0x01, 0x10]);
    let b = Message::new(IpAddress::v4(1, 1, 1, 1), 1, &[0x11, 0x00]);
    assert_eq!(a.infohash_hex(), "0110");
    assert_eq!(b.infohash_hex(), "1100");
    let mut all: Vec<u8> = (0..=255).collect();
    all.truncate(256);
    let hex = Message::new(IpAddress::v4(1, 1, 1, 1), 1, &all).infohash_hex();
    assert_eq!(hex.len(), 512);
    for (i, b) in all.iter().enumerate() {
        assert_eq!(hex[2 * i..2 * i + 2], format!("{:02x}", b));
    }
}
