use btsniffer::bencode::{self, from_bytes, Value};
use btsniffer::dht::{seeds, Action, DHT_JOIN_COUNT};
use btsniffer::util::neighbor_id;
use btsniffer::{Endpoint, Error, IpAddress, DHT};

const LOCAL: [u8; 20] = [0xBB; 20];

fn secret() -> [u8; 20] {
    let mut s = [0u8; 20];
    for (i, b) in s.iter_mut().enumerate() {
        *b = i as u8;
    }
    s
}

fn dht(limit: usize) -> DHT {
    DHT::with_keys("0.0.0.0", "6881", limit, LOCAL, secret())
}

fn peer() -> Endpoint {
    Endpoint::new(IpAddress::v4(1, 2, 3, 4), 6881)
}

const TOKEN: [u8; 20] = [
    133, 105, 221, 30, 107, 96, 135, 204, 59, 104, 143, 89, 37, 173, 48, 196, 87, 146, 27, 212,
];

fn announce(token: &[u8], extra: &[u8]) -> Vec<u8> {
    let mut p = b"d1:ad2:id20:aaaaaaaaaaaaaaaaaaaa".to_vec();
    p.extend_from_slice(extra);
    p.extend_from_slice(b"9:info_hash20:hhhhhhhhhhhhhhhhhhhh");
    p.extend_from_slice(format!("5:token{}:", token.len()).as_bytes());
    p.extend_from_slice(token);
    p.extend_from_slice(b"e1:q13:announce_peer1:t2:aa1:y1:qe");
    p
}

fn record(id: u8, ip: [u8; 4], port: u16) -> Vec<u8> {
    let mut r = vec![id; 20];
    r.extend_from_slice(&ip);
    r.extend_from_slice(&port.to_be_bytes());
    r
}

fn reply_with(nodes: &[u8]) -> Vec<u8> {
    let mut p = format!("d1:rd5:nodes{}:", nodes.len()).into_bytes();
    p.extend_from_slice(nodes);
    p.extend_from_slice(b"e1:t2:aa1:y1:re");
    p
}

#[test]
fn new_node_listens_on_addr_and_port() {
    let d = DHT::new("127.0.0.1", "6882", 5);
    assert_eq!(d.laddr(), "127.0.0.1:6882");
    assert_eq!(d.local_id().len(), 20);
    assert_ne!(d.local_id(), DHT::new("127.0.0.1", "6882", 5).local_id());
    assert_eq!(dht(1).local_id(), &LOCAL);
}

#[test]
fn token_is_the_digest_of_address_and_secret() {
    let d = dht(1);
    assert_eq!(d.make_token(&peer()), TOKEN.to_vec());
    assert!(d.is_valid_token(&TOKEN, &peer()));
    assert!(!d.is_valid_token(&TOKEN[..19], &peer()));
    assert!(!d.is_valid_token(&TOKEN, &Endpoint::new(IpAddress::v4(1, 2, 3, 4), 6882)));
    assert_ne!(
        DHT::new("0.0.0.0", "6881", 1).make_token(&peer()),
        DHT::new("0.0.0.0", "6881", 1).make_token(&peer())
    );
}

#[test]
fn get_peers_is_answered_by_a_neighbor_of_the_infohash() {
    let mut d = dht(1);
    let query = b"d1:ad2:id20:aaaaaaaaaaaaaaaaaaaa9:info_hash20:hhhhhhhhhhhhhhhhhhhhe1:q9:get_peers1:t2:xy1:y1:qe";
    let reply = match d.on_message(query, &peer()).unwrap() {
        Action::Reply(reply) => reply,
        other => panic!("unexpected action {:?}", other),
    };
    let mut expected = b"d1:rd2:id20:hhhhhhhhhhhhhhh".to_vec();
    expected.extend_from_slice(&[0xBB; 5]);
    expected.extend_from_slice(b"5:nodes0:5:token20:");
    expected.extend_from_slice(&TOKEN);
    expected.extend_from_slice(b"e1:t2:xy1:y1:re");
    assert_eq!(reply, expected);
}

#[test]
fn get_peers_errors() {
    let mut d = dht(1);
    assert_eq!(
        d.on_message(b"d1:ad2:id20:aaaaaaaaaaaaaaaaaaaae1:q9:get_peers1:t2:xy1:y1:qe", &peer())
            .err(),
        Some(Error::DictNotFound("info_hash"))
    );
    assert_eq!(
        d.on_message(b"d1:ad9:info_hash3:abce1:q9:get_peers1:t2:xy1:y1:qe", &peer())
            .err(),
        Some(Error::InvalidPacket)
    );
    assert_eq!(
        d.on_message(b"d1:q9:get_peers1:t2:xy1:y1:qe", &peer()).err(),
        Some(Error::DictNotFound("a"))
    );
    assert_eq!(
        d.on_message(b"d1:ai1e1:q9:get_peers1:t2:xy1:y1:qe", &peer()).err(),
        Some(Error::Bencode(bencode::Error::NotDictType))
    );
    assert_eq!(
        d.on_message(b"d1:ade1:q9:get_peers1:ti1e1:y1:qe", &peer()).err(),
        Some(Error::Bencode(bencode::Error::NotByteStringType))
    );
}

#[test]
fn announce_peer_with_the_token_is_announced() {
    let mut d = dht(1);
    let m = match d.on_message(&announce(&TOKEN, b""), &peer()).unwrap() {
        Action::Announce(m) => m,
        other => panic!("unexpected action {:?}", other),
    };
    assert_eq!(m.peer, peer());
    assert_eq!(m.infohash, b"hhhhhhhhhhhhhhhhhhhh".to_vec());
    assert_eq!(m.infohash.len(), 20);
}

#[test]
fn announce_peer_port() {
    let mut d = dht(1);
    let port_of = |d: &mut DHT, extra: &[u8]| match d
        .on_message(&announce(&TOKEN, extra), &peer())
        .unwrap()
    {
        Action::Announce(m) => {
            assert_eq!(m.peer.ip, IpAddress::v4(1, 2, 3, 4));
            m.peer.port
        }
        other => panic!("unexpected action {:?}", other),
    };
    assert_eq!(port_of(&mut d, b"12:implied_porti1e4:porti1234e"), 6881);
    assert_eq!(port_of(&mut d, b"12:implied_porti1e"), 6881);
    assert_eq!(port_of(&mut d, b"12:implied_port1:0"), 6881);
    let summary = |d: &DHT, body: &[u8]| d.summarize(&from_bytes(body).unwrap(), &peer());
    let with_port =
        b"d1:ad12:implied_porti0e9:info_hash20:hhhhhhhhhhhhhhhhhhhh4:porti1234eee";
    assert_eq!(summary(&d, with_port).unwrap().peer.port, 1234);
    let wrapped =
        b"d1:ad12:implied_porti0e9:info_hash20:hhhhhhhhhhhhhhhhhhhh4:porti65537eee";
    assert_eq!(summary(&d, wrapped).unwrap().peer.port, 1);
    let implied =
        b"d1:ad12:implied_porti1e9:info_hash20:hhhhhhhhhhhhhhhhhhhh4:porti1234eee";
    assert_eq!(summary(&d, implied).unwrap().peer.port, 6881);
    let missing = b"d1:ad12:implied_porti0e9:info_hash20:hhhhhhhhhhhhhhhhhhhhee";
    assert_eq!(summary(&d, missing).err(), Some(Error::DictNotFound("port")));
    let no_number = b"d1:ad12:implied_porti0e9:info_hash20:hhhhhhhhhhhhhhhhhhhh4:port1:xee";
    assert_eq!(
        summary(&d, no_number).err(),
        Some(Error::Bencode(bencode::Error::NotIntegerType))
    );
}

#[test]
fn announce_peer_errors() {
    let mut d = dht(1);
    let mut bad = TOKEN;
    bad[0] ^= 0xff;
    assert_eq!(
        d.on_message(&announce(&bad, b""), &peer()).err(),
        Some(Error::InvalidToken)
    );
    assert_eq!(
        d.on_message(&announce(b"", b""), &peer()).err(),
        Some(Error::InvalidToken)
    );
    let other = Endpoint::new(IpAddress::v4(1, 2, 3, 5), 6881);
    assert_eq!(
        d.on_message(&announce(&TOKEN, b""), &other).err(),
        Some(Error::InvalidToken)
    );
    assert_eq!(
        d.on_message(
            b"d1:ad9:info_hash20:hhhhhhhhhhhhhhhhhhhhe1:q13:announce_peer1:t2:aa1:y1:qe",
            &peer()
        )
        .err(),
        Some(Error::DictNotFound("token"))
    );
    let mut short = b"d1:ad9:info_hash19:hhhhhhhhhhhhhhhhhhh5:token20:".to_vec();
    short.extend_from_slice(&TOKEN);
    short.extend_from_slice(b"e1:q13:announce_peer1:t2:aa1:y1:qe");
    assert_eq!(
        d.on_message(&short, &peer()).err(),
        Some(Error::InvalidPacket)
    );
    let mut none = b"d1:ad5:token20:".to_vec();
    none.extend_from_slice(&TOKEN);
    none.extend_from_slice(b"e1:q13:announce_peer1:t2:aa1:y1:qe");
    assert_eq!(
        d.on_message(&none, &peer()).err(),
        Some(Error::DictNotFound("info_hash"))
    );
}

#[test]
fn other_queries_call_for_nothing() {
    let mut d = dht(1);
    assert!(matches!(
        d.on_message(b"d1:ad2:id20:aaaaaaaaaaaaaaaaaaaae1:q4:ping1:t2:aa1:y1:qe", &peer()),
        Ok(Action::Nothing)
    ));
    assert_eq!(
        d.on_message(b"d1:ade1:q4:ping1:y1:qe", &peer()).err(),
        Some(Error::InvalidPacket)
    );
    assert_eq!(
        d.on_message(b"d1:ade1:t2:aa1:y1:qe", &peer()).err(),
        Some(Error::InvalidPacket)
    );
    assert_eq!(
        d.on_message(b"d1:ade1:qi1e1:t2:aa1:y1:qe", &peer()).err(),
        Some(Error::Bencode(bencode::Error::NotByteStringType))
    );
}

#[test]
fn packets_that_are_no_query_reply_or_error() {
    let mut d = dht(1);
    assert_eq!(
        d.on_message(b"d1:t2:aa1:y1:xe", &peer()).err(),
        Some(Error::InvalidPacket)
    );
    assert_eq!(
        d.on_message(b"d1:t2:aae", &peer()).err(),
        Some(Error::DictNotFound("y"))
    );
    assert_eq!(
        d.on_message(b"d1:yi1ee", &peer()).err(),
        Some(Error::Bencode(bencode::Error::NotByteStringType))
    );
    assert_eq!(
        d.on_message(b"i1e", &peer()).err(),
        Some(Error::Bencode(bencode::Error::NotDictType))
    );
    assert_eq!(
        d.on_message(b"", &peer()).err(),
        Some(Error::Bencode(bencode::Error::Eof))
    );
    assert_eq!(
        d.on_message(b"d1:y1:q", &peer()).err(),
        Some(Error::Bencode(bencode::Error::Eof))
    );
}

#[test]
fn error_packets_are_checked_and_dropped() {
    let mut d = dht(1);
    let packet = b"d1:eli201e23:A Generic Error Ocurrede1:t2:aa1:y1:ee";
    assert!(matches!(d.on_message(packet, &peer()), Ok(Action::Nothing)));
    assert_eq!(
        d.on_error(&from_bytes(packet).unwrap()),
        Ok((201, b"A Generic Error Ocurred".to_vec()))
    );
    assert_eq!(
        d.on_message(b"d1:eli201ee1:t2:aa1:y1:ee", &peer()).err(),
        Some(Error::InvalidPacket)
    );
    assert_eq!(
        d.on_message(b"d1:t2:aa1:y1:ee", &peer()).err(),
        Some(Error::DictNotFound("e"))
    );
    assert_eq!(
        d.on_message(b"d1:e1:x1:t2:aa1:y1:ee", &peer()).err(),
        Some(Error::Bencode(bencode::Error::NotListType))
    );
    assert_eq!(
        d.on_message(b"d1:el1:a1:be1:t2:aa1:y1:ee", &peer()).err(),
        Some(Error::Bencode(bencode::Error::NotIntegerType))
    );
    assert_eq!(
        d.on_message(b"d1:eli1ei2ee1:t2:aa1:y1:ee", &peer()).err(),
        Some(Error::Bencode(bencode::Error::NotByteStringType))
    );
}

#[test]
fn a_reply_leads_to_find_node_queries_within_the_limit() {
    let mut nodes = record(1, [10, 0, 0, 1], 1001);
    nodes.extend(record(2, [10, 0, 0, 2], 1002));
    nodes.extend(record(3, [10, 0, 0, 3], 1003));
    let mut d = dht(2);
    let out = match d.on_message(&reply_with(&nodes), &peer()).unwrap() {
        Action::FindNodes(out) => out,
        other => panic!("unexpected action {:?}", other),
    };
    assert_eq!(out.len(), 2);
    for (k, (addr, packet)) in out.iter().enumerate() {
        let n = k as u8 + 1;
        assert_eq!(*addr, Endpoint::new(IpAddress::v4(10, 0, 0, n), 1000 + n as u16));
        let v = from_bytes(packet).unwrap();
        let dict = v.dict().unwrap();
        assert_eq!(dict.len(), 4);
        assert_eq!(dict.get(b"y").unwrap().bytes(), Ok(b"q".as_ref()));
        assert_eq!(dict.get(b"q").unwrap().bytes(), Ok(b"find_node".as_ref()));
        assert_eq!(dict.get(b"t").unwrap().bytes().unwrap().len(), 2);
        let a = dict.get(b"a").unwrap().dict().unwrap();
        assert_eq!(a.len(), 2);
        assert_eq!(
            a.get(b"id").unwrap().bytes().unwrap(),
            neighbor_id(&[n; 20], &LOCAL).as_slice()
        );
        assert_eq!(a.get(b"target").unwrap().bytes().unwrap().len(), 20);
    }
    // the limiter is full for the rest of the second
    match d.on_message(&reply_with(&nodes), &peer()).unwrap() {
        Action::FindNodes(out) => assert!(out.is_empty()),
        other => panic!("unexpected action {:?}", other),
    }
}

#[test]
fn reply_errors() {
    let mut d = dht(5);
    assert_eq!(
        d.on_message(&reply_with(b""), &peer()).err(),
        Some(Error::InvalidNodesLength)
    );
    assert_eq!(
        d.on_message(&reply_with(&[0u8; 27]), &peer()).err(),
        Some(Error::InvalidNodesLength)
    );
    assert_eq!(
        d.on_message(b"d1:rd2:id2:xxe1:t2:aa1:y1:re", &peer()).err(),
        Some(Error::DictNotFound("nodes"))
    );
    assert_eq!(
        d.on_message(b"d1:t2:aa1:y1:re", &peer()).err(),
        Some(Error::DictNotFound("r"))
    );
    assert_eq!(
        d.on_message(b"d1:r1:x1:t2:aa1:y1:re", &peer()).err(),
        Some(Error::Bencode(bencode::Error::NotDictType))
    );
    assert_eq!(
        d.on_message(b"d1:rd5:nodesi1ee1:t2:aa1:y1:re", &peer()).err(),
        Some(Error::Bencode(bencode::Error::NotByteStringType))
    );
    assert_eq!(
        DHT::reply_nodes(&from_bytes(&reply_with(&[9u8; 52])).unwrap())
            .unwrap()
            .len(),
        2
    );
}

#[test]
fn find_node_query_bytes() {
    let d = dht(1);
    let packet = d.find_node_query(&[0xAA; 20], b"tt", &[0xCC; 20]);
    let mut expected = b"d1:ad2:id20:".to_vec();
    expected.extend_from_slice(&[0xAA; 15]);
    expected.extend_from_slice(&[0xBB; 5]);
    expected.extend_from_slice(b"6:target20:");
    expected.extend_from_slice(&[0xCC; 20]);
    expected.extend_from_slice(b"e1:q9:find_node1:t2:tt1:y1:qe");
    assert_eq!(packet, expected);
    let random = d.find_node(&[0xAA; 20]);
    assert_eq!(random.len(), expected.len());
    assert_ne!(random, d.find_node(&[0xAA; 20]));
}

#[test]
fn make_query_and_make_reply_bytes() {
    let d = dht(1);
    let mut a = bencode::Dict::new();
    a.insert(b"id".to_vec(), Value::from(b"abcd".to_vec()));
    assert_eq!(
        d.make_query(b"aa", b"ping", a.clone()),
        Ok(b"d1:ad2:id4:abcde1:q4:ping1:t2:aa1:y1:qe".to_vec())
    );
    assert_eq!(
        d.make_reply(b"aa", a),
        Ok(b"d1:rd2:id4:abcde1:t2:aa1:y1:re".to_vec())
    );
}

#[test]
fn a_round_of_joining_asks_every_router() {
    let d = dht(1);
    let round = d.join_round();
    assert_eq!(round.len(), 3);
    assert_eq!(seeds()[0], "router.bittorrent.com:6881");
    assert_eq!(seeds()[1], "dht.transmissionbt.com:6881");
    assert_eq!(seeds()[2], "router.utorrent.com:6881");
    assert_eq!(DHT_JOIN_COUNT, 6);
    for (k, (name, packet)) in round.iter().enumerate() {
        assert_eq!(*name, seeds()[k]);
        let v = from_bytes(packet).unwrap();
        let dict = v.dict().unwrap();
        assert_eq!(dict.get(b"q").unwrap().bytes(), Ok(b"find_node".as_ref()));
        let a = dict.get(b"a").unwrap().dict().unwrap();
        assert_eq!(a.get(b"id").unwrap().bytes().unwrap()[15..], [0xBB; 5]);
    }
}
