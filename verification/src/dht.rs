use vstd::prelude::*;
use vstd::slice::slice_to_vec;
use vstd::string::StringExecFns;
use crate::bencode;
use crate::bencode::grammar::{decode, encode};
use crate::bencode::model::{Bencode, dict_get};
use crate::bencode::value::{Dict, Value, bytes_eq, values_view};
use crate::digest::{sha1, sha1_of};
use crate::endpoint::{Endpoint, endpoint_text};
use crate::errors::Error;
use crate::message::{Announcement, Message};
use crate::node::{Node, NodeRecord, decode_nodes, nodes_view, records_of};
use crate::rate::{Rate, RateState, allow_step, passed, state_after};
use crate::util::{key_of, neighbor_id, neighbor_of, rand_infohash_key, rand_transation_id};
use crate::wire::{
    bind, bound, bytes_of, dict_of, extend, find, integer_of, key, list_of, lookup,
};

verus! {

/// How many rounds of `find_node` queries a node sends to join the DHT.
pub const DHT_JOIN_COUNT: usize = 6;

/// The largest packet that is read.
pub const BUFFER_SIZE_MAX: usize = 2048;

/// The names of the routers that a node asks first.
pub open spec fn seed_names() -> Seq<&'static str> {
    seq!["router.bittorrent.com:6881", "dht.transmissionbt.com:6881", "router.utorrent.com:6881"]
}

/// The routers that a node asks first.
pub fn seeds() -> (r: [&'static str; 3])
    ensures
        r@ == seed_names(),
{
    ["router.bittorrent.com:6881", "dht.transmissionbt.com:6881", "router.utorrent.com:6881"]
}

/// A node of the DHT that shows itself to every peer as its close neighbor.
#[derive(Debug)]
pub struct DHT {
    laddr: String,
    local_id: [u8; 20],
    secret: [u8; 20],
    limiter: Rate,
}

/// What a node is: the address it listens on, its id, its secret, and its
/// limiter of outgoing queries.
pub struct DhtState {
    pub laddr: Seq<char>,
    pub local_id: Seq<u8>,
    pub secret: Seq<u8>,
    pub limiter: RateState,
}

/// What a packet leads to.
#[derive(Debug)]
pub enum Action {
    /// Nothing is to be done.
    Nothing,
    /// Send this packet back to where the packet came from.
    Reply(Vec<u8>),
    /// A peer announced a torrent.
    Announce(Message),
    /// Send each of these packets to its node.
    FindNodes(Vec<(Endpoint, Vec<u8>)>),
}

/// What a packet calls for, before the limiter has had its say.
pub enum Outcome {
    Nothing,
    Reply(Seq<u8>),
    Announce(Announcement),
    Probe(Seq<NodeRecord>),
}

impl View for DHT {
    type V = DhtState;

    closed spec fn view(&self) -> DhtState {
        DhtState {
            laddr: self.laddr@,
            local_id: self.local_id@,
            secret: self.secret@,
            limiter: self.limiter@,
        }
    }
}

/// The token for the peer at `addr`: the SHA-1 digest of the text of the
/// address followed by the secret.
pub open spec fn token_of(addr: Endpoint, secret: Seq<u8>) -> Seq<u8> {
    sha1(endpoint_text(addr) + secret)
}

/// The dictionary of a query: the transaction id `t`, `y` set to `q`, the
/// name of the query `q`, its arguments `a`.
pub open spec fn query_dict(tid: Seq<u8>, q: Seq<u8>, a: Seq<(Seq<u8>, Bencode)>) -> Bencode {
    Bencode::Dict(
        bound(
            bound(
                bound(
                    bound(Seq::empty(), "t", Bencode::ByteString(tid)),
                    "y",
                    Bencode::ByteString(key("q")),
                ),
                "q",
                Bencode::ByteString(q),
            ),
            "a",
            Bencode::Dict(a),
        ),
    )
}

/// The dictionary of a reply: the transaction id `t`, `y` set to `r`, the
/// values `r`.
pub open spec fn reply_dict(tid: Seq<u8>, r: Seq<(Seq<u8>, Bencode)>) -> Bencode {
    Bencode::Dict(
        bound(
            bound(
                bound(Seq::empty(), "t", Bencode::ByteString(tid)),
                "y",
                Bencode::ByteString(key("r")),
            ),
            "r",
            Bencode::Dict(r),
        ),
    )
}

/// The `find_node` query that shows this node to the node `target_id` as
/// its neighbor and asks for `target`.
pub open spec fn find_node_packet(
    tid: Seq<u8>,
    target_id: Seq<u8>,
    local: Seq<u8>,
    target: Seq<u8>,
) -> Seq<u8> {
    encode(
        query_dict(
            tid,
            key("find_node"),
            bound(
                bound(Seq::empty(), "id", Bencode::ByteString(neighbor_of(target_id, local))),
                "target",
                Bencode::ByteString(target),
            ),
        ),
    )
}

/// `packet` is a `find_node` query to the node `target_id`, with some
/// transaction id of 2 bytes and some target of 20 bytes.
pub open spec fn is_find_node(packet: Seq<u8>, target_id: Seq<u8>, local: Seq<u8>) -> bool {
    exists|tid: Seq<u8>, target: Seq<u8>|
        tid.len() == 2 && target.len() == 20 && packet == #[trigger] find_node_packet(
            tid,
            target_id,
            local,
            target,
        )
}

/// `packet` is a `find_node` query to some node id of 20 bytes.
pub open spec fn is_join_query(packet: Seq<u8>, local: Seq<u8>) -> bool {
    exists|id: Seq<u8>| id.len() == 20 && #[trigger] is_find_node(packet, id, local)
}

/// The reply to a `get_peers` query for `infohash`: the id of a neighbor of
/// the infohash, no nodes, and a token.
pub open spec fn get_peers_reply(
    tid: Seq<u8>,
    infohash: Seq<u8>,
    local: Seq<u8>,
    token: Seq<u8>,
) -> Seq<u8> {
    encode(
        reply_dict(
            tid,
            bound(
                bound(
                    bound(Seq::empty(), "id", Bencode::ByteString(neighbor_of(infohash, local))),
                    "nodes",
                    Bencode::ByteString(Seq::empty()),
                ),
                "token",
                Bencode::ByteString(token),
            ),
        ),
    )
}

/// The arguments `a` of a query.
pub open spec fn arguments_of(v: Bencode) -> Result<Seq<(Seq<u8>, Bencode)>, Error> {
    match dict_of(v) {
        Err(e) => Err(e),
        Ok(dict) => match lookup(dict, "a") {
            Err(e) => Err(e),
            Ok(a) => dict_of(a),
        },
    }
}

/// The bytes under the key `name`.
pub open spec fn bytes_under(entries: Seq<(Seq<u8>, Bencode)>, name: &'static str) -> Result<
    Seq<u8>,
    Error,
> {
    match lookup(entries, name) {
        Err(e) => Err(e),
        Ok(x) => bytes_of(x),
    }
}

/// The port of the peer that announces: the port `port` of the arguments
/// where `implied_port` is there and 0, else the port that the packet came
/// from.
pub open spec fn announced_port(a: Seq<(Seq<u8>, Bencode)>, addr: Endpoint) -> Result<u16, Error> {
    if dict_get(a, key("implied_port")) == Some(Bencode::Integer(0)) {
        match lookup(a, "port") {
            Err(e) => Err(e),
            Ok(x) => match integer_of(x) {
                Err(e) => Err(e),
                Ok(n) => Ok((n as i64) as u16),
            },
        }
    } else {
        Ok(addr.port)
    }
}

/// The announcement that an `announce_peer` query from `addr` makes.
/// `InvalidPacket` unless the infohash has 20 bytes.
pub open spec fn summary_of(v: Bencode, addr: Endpoint) -> Result<Announcement, Error> {
    match arguments_of(v) {
        Err(e) => Err(e),
        Ok(a) => match bytes_under(a, "info_hash") {
            Err(e) => Err(e),
            Ok(hash) => if hash.len() != 20 {
                Err(Error::InvalidPacket)
            } else {
                match announced_port(a, addr) {
                    Err(e) => Err(e),
                    Ok(port) => Ok(
                        Announcement { peer: Endpoint { ip: addr.ip, port }, infohash: hash },
                    ),
                }
            },
        },
    }
}

/// The announcement that an `announce_peer` query from `addr` makes, if
/// its token is the one that was handed to `addr`; `InvalidToken` if not.
pub open spec fn announce_of(v: Bencode, addr: Endpoint, secret: Seq<u8>) -> Result<
    Announcement,
    Error,
> {
    match arguments_of(v) {
        Err(e) => Err(e),
        Ok(a) => match bytes_under(a, "token") {
            Err(e) => Err(e),
            Ok(token) => if token != token_of(addr, secret) {
                Err(Error::InvalidToken)
            } else {
                summary_of(v, addr)
            },
        },
    }
}

/// The reply to a `get_peers` query from `addr`. `InvalidPacket` unless the
/// infohash has 20 bytes.
pub open spec fn get_peers_of(
    v: Bencode,
    addr: Endpoint,
    local: Seq<u8>,
    secret: Seq<u8>,
) -> Result<Seq<u8>, Error> {
    match dict_of(v) {
        Err(e) => Err(e),
        Ok(dict) => match bytes_under(dict, "t") {
            Err(e) => Err(e),
            Ok(tid) => match arguments_of(v) {
                Err(e) => Err(e),
                Ok(a) => match bytes_under(a, "info_hash") {
                    Err(e) => Err(e),
                    Ok(hash) => if hash.len() != 20 {
                        Err(Error::InvalidPacket)
                    } else {
                        Ok(get_peers_reply(tid, hash, local, token_of(addr, secret)))
                    },
                },
            },
        },
    }
}

/// What a query from `addr` calls for: a reply to `get_peers`, an
/// announcement for `announce_peer` with a valid token, nothing for any
/// other query. `InvalidPacket` where `t` or `q` is missing.
pub open spec fn query_of(v: Bencode, addr: Endpoint, local: Seq<u8>, secret: Seq<u8>) -> Result<
    Outcome,
    Error,
> {
    match dict_of(v) {
        Err(e) => Err(e),
        Ok(dict) => if dict_get(dict, key("t")) is None {
            Err(Error::InvalidPacket)
        } else {
            match dict_get(dict, key("q")) {
                None => Err(Error::InvalidPacket),
                Some(q) => match bytes_of(q) {
                    Err(e) => Err(e),
                    Ok(name) => if name == key("get_peers") {
                        match get_peers_of(v, addr, local, secret) {
                            Err(e) => Err(e),
                            Ok(reply) => Ok(Outcome::Reply(reply)),
                        }
                    } else if name == key("announce_peer") {
                        match announce_of(v, addr, secret) {
                            Err(e) => Err(e),
                            Ok(a) => Ok(Outcome::Announce(a)),
                        }
                    } else {
                        Ok(Outcome::Nothing)
                    },
                },
            }
        },
    }
}

/// The nodes that a reply names. `InvalidNodesLength` unless the length of
/// `nodes` is a positive multiple of 26.
pub open spec fn nodes_of(v: Bencode) -> Result<Seq<NodeRecord>, Error> {
    match dict_of(v) {
        Err(e) => Err(e),
        Ok(dict) => match lookup(dict, "r") {
            Err(e) => Err(e),
            Ok(r) => match dict_of(r) {
                Err(e) => Err(e),
                Ok(r) => match bytes_under(r, "nodes") {
                    Err(e) => Err(e),
                    Ok(s) => if s.len() == 0 || s.len() % 26 != 0 {
                        Err(Error::InvalidNodesLength)
                    } else {
                        Ok(records_of(s))
                    },
                },
            },
        },
    }
}

/// The code and the description of an error packet. `InvalidPacket` unless
/// `e` is a list of two.
pub open spec fn error_of(v: Bencode) -> Result<(int, Seq<u8>), Error> {
    match dict_of(v) {
        Err(e) => Err(e),
        Ok(dict) => match lookup(dict, "e") {
            Err(e) => Err(e),
            Ok(e) => match list_of(e) {
                Err(e) => Err(e),
                Ok(a) => if a.len() != 2 {
                    Err(Error::InvalidPacket)
                } else {
                    match integer_of(a[0]) {
                        Err(e) => Err(e),
                        Ok(code) => match bytes_of(a[1]) {
                            Err(e) => Err(e),
                            Ok(description) => Ok((code, description)),
                        },
                    }
                },
            },
        },
    }
}

/// What the packet `data` from `addr` calls for. The key `y` decides: `q` a
/// query, `r` a reply, whose nodes are to be probed, `e` an error, which
/// calls for nothing; anything else is `InvalidPacket`.
pub open spec fn packet_of(
    data: Seq<u8>,
    addr: Endpoint,
    local: Seq<u8>,
    secret: Seq<u8>,
) -> Result<Outcome, Error> {
    match decode(data) {
        Err(e) => Err(Error::Bencode(e)),
        Ok(v) => match dict_of(v) {
            Err(e) => Err(e),
            Ok(dict) => match bytes_under(dict, "y") {
                Err(e) => Err(e),
                Ok(y) => if y == key("q") {
                    query_of(v, addr, local, secret)
                } else if y == key("r") {
                    match nodes_of(v) {
                        Err(e) => Err(e),
                        Ok(nodes) => Ok(Outcome::Probe(nodes)),
                    }
                } else if y == key("e") {
                    match error_of(v) {
                        Err(e) => Err(e),
                        Ok(_) => Ok(Outcome::Nothing),
                    }
                } else {
                    Err(Error::InvalidPacket)
                },
            },
        },
    }
}

/// `out` holds a `find_node` query for some of `nodes`, in their order:
/// `picked` says for which.
pub open spec fn probes_picked(
    out: Seq<(Endpoint, Vec<u8>)>,
    nodes: Seq<NodeRecord>,
    local: Seq<u8>,
    picked: Seq<int>,
) -> bool {
    &&& picked.len() == out.len()
    &&& forall|k: int| 0 <= k < picked.len() ==> 0 <= #[trigger] picked[k] < nodes.len()
    &&& forall|j: int, k: int| 0 <= j < k < picked.len() ==> picked[j] < picked[k]
    &&& forall|k: int|
        0 <= k < out.len() ==> (#[trigger] out[k]).0 == nodes[picked[k]].addr && is_find_node(
            out[k].1@,
            nodes[picked[k]].id,
            local,
        )
}

/// The limiter was asked once for each of `nodes`, in order, at the times
/// `times`, which took it from `before` to `after`; `out` holds a
/// `find_node` query to each node that it let pass, in the order of the
/// nodes, and to no other.
pub open spec fn probes_at(
    out: Seq<(Endpoint, Vec<u8>)>,
    nodes: Seq<NodeRecord>,
    local: Seq<u8>,
    before: RateState,
    after: RateState,
    times: Seq<u128>,
) -> bool {
    &&& times.len() == nodes.len()
    &&& after == state_after(before, times)
    &&& probes_picked(out, nodes, local, passed(before, times))
}

/// The limiter was asked once for each of `nodes`, in order, and `out`
/// holds a `find_node` query to each node that it let pass, and to no
/// other: a node that was refused is passed over.
pub open spec fn probes(
    out: Seq<(Endpoint, Vec<u8>)>,
    nodes: Seq<NodeRecord>,
    local: Seq<u8>,
    before: RateState,
    after: RateState,
) -> bool {
    exists|times: Seq<u128>| #[trigger] probes_at(out, nodes, local, before, after, times)
}

/// The bytes under the key `name`.
fn bytes_at<'a>(dict: &'a Dict, name: &'static str) -> (r: Result<&'a [u8], Error>)
    ensures
        match bytes_under(dict@, name) {
            Ok(b) => r matches Ok(x) && x@ == b,
            Err(e) => r matches Err(x) && x == e,
        },
{
    match find(dict, name) {
        Ok(x) => match x.bytes() {
            Ok(b) => Ok(b),
            Err(e) => Err(Error::Bencode(e)),
        },
        Err(e) => Err(e),
    }
}

/// The arguments `a` of a query.
fn arguments<'a>(v: &'a Value) -> (r: Result<&'a Dict, Error>)
    ensures
        match arguments_of(v@) {
            Ok(a) => r matches Ok(x) && x@ == a,
            Err(e) => r matches Err(x) && x == e,
        },
{
    let dict = match v.dict() {
        Ok(dict) => dict,
        Err(e) => {
            return Err(Error::Bencode(e));
        },
    };
    match find(dict, "a") {
        Ok(a) => match a.dict() {
            Ok(a) => Ok(a),
            Err(e) => Err(Error::Bencode(e)),
        },
        Err(e) => Err(e),
    }
}

impl DHT {
    /// A node that listens on `addr` and `port`, with a random id, a random
    /// secret, and a limiter that lets `limit` queries pass each second.
    pub fn new(addr: &str, port: &str, limit: usize) -> (dht: DHT)
        ensures
            dht@.laddr == addr@ + ":"@ + port@,
            dht@.local_id.len() == 20,
            dht@.secret.len() == 20,
            dht@.limiter == (RateState { limit: limit as nat, num: 0, last: 0 }),
    {
        let mut laddr = String::from_str(addr);
        laddr.append(":");
        laddr.append(port);
        let local_id = rand_infohash_key();
        let secret = rand_infohash_key();
        DHT {
            laddr,
            local_id: key_of(local_id.as_slice()),
            secret: key_of(secret.as_slice()),
            limiter: Rate::new(limit),
        }
    }

    /// A node that listens on `addr` and `port` with the id `local_id` and
    /// the secret `secret`.
    pub fn with_keys(
        addr: &str,
        port: &str,
        limit: usize,
        local_id: [u8; 20],
        secret: [u8; 20],
    ) -> (dht: DHT)
        ensures
            dht@ == (DhtState {
                laddr: addr@ + ":"@ + port@,
                local_id: local_id@,
                secret: secret@,
                limiter: RateState { limit: limit as nat, num: 0, last: 0 },
            }),
    {
        let mut laddr = String::from_str(addr);
        laddr.append(":");
        laddr.append(port);
        DHT { laddr, local_id, secret, limiter: Rate::new(limit) }
    }

    /// The address to listen on: `addr:port`.
    pub fn laddr(&self) -> (r: &str)
        ensures
            r@ == self@.laddr,
    {
        self.laddr.as_str()
    }

    /// The id of this node.
    pub fn local_id(&self) -> (r: &[u8])
        ensures
            r@ == self@.local_id,
            r@.len() == 20,
    {
        self.local_id.as_slice()
    }

    /// The token for the peer at `addr`: the SHA-1 digest of the text of
    /// the address followed by the secret.
    pub fn make_token(&self, addr: &Endpoint) -> (token: Vec<u8>)
        ensures
            token@ == token_of(*addr, self@.secret),
            token@.len() == 20,
    {
        let mut text = addr.to_text();
        extend(&mut text, self.secret.as_slice());
        sha1_of(text.as_slice())
    }

    /// Whether `token` is the token for the peer at `addr`.
    pub fn is_valid_token(&self, token: &[u8], addr: &Endpoint) -> (valid: bool)
        ensures
            valid == (token@ == token_of(*addr, self@.secret)),
    {
        let expected = self.make_token(addr);
        bytes_eq(token, expected.as_slice())
    }

    /// The bytes of the query `qr` with the transaction id `tid` and the
    /// arguments `a`.
    pub fn make_query(&self, tid: &[u8], qr: &[u8], a: Dict) -> (r: Result<Vec<u8>, Error>)
        ensures
            r matches Ok(packet) && packet@ == encode(query_dict(tid@, qr@, a@)),
    {
        let mut m = Dict::new();
        bind(&mut m, "t", Value::ByteString(slice_to_vec(tid)));
        bind(&mut m, "y", Value::ByteString(slice_to_vec("q".as_bytes())));
        bind(&mut m, "q", Value::ByteString(slice_to_vec(qr)));
        bind(&mut m, "a", Value::Dict(a));
        match bencode::to_bytes(&Value::Dict(m)) {
            Ok(packet) => Ok(packet),
            Err(e) => Err(Error::Bencode(e)),
        }
    }

    /// The bytes of the reply with the transaction id `tid` and the values
    /// `r`.
    pub fn make_reply(&self, tid: &[u8], r: Dict) -> (packet: Result<Vec<u8>, Error>)
        ensures
            packet matches Ok(bytes) && bytes@ == encode(reply_dict(tid@, r@)),
    {
        let mut m = Dict::new();
        bind(&mut m, "t", Value::ByteString(slice_to_vec(tid)));
        bind(&mut m, "y", Value::ByteString(slice_to_vec("r".as_bytes())));
        bind(&mut m, "r", Value::Dict(r));
        match bencode::to_bytes(&Value::Dict(m)) {
            Ok(bytes) => Ok(bytes),
            Err(e) => Err(Error::Bencode(e)),
        }
    }

    /// The `find_node` query to the node `target_id`, with the transaction
    /// id `tid`, asking for `target`.
    pub fn find_node_query(&self, target_id: &[u8], tid: &[u8], target: &[u8]) -> (packet: Vec<u8>)
        requires
            target_id@.len() >= 15,
        ensures
            packet@ == find_node_packet(tid@, target_id@, self@.local_id, target@),
    {
        let mut a = Dict::new();
        bind(
            &mut a,
            "id",
            Value::ByteString(neighbor_id(target_id, self.local_id.as_slice())),
        );
        bind(&mut a, "target", Value::ByteString(slice_to_vec(target)));
        match self.make_query(tid, "find_node".as_bytes(), a) {
            Ok(packet) => packet,
            Err(_) => Vec::new(),
        }
    }

    /// A `find_node` query to the node `target_id`, with a random
    /// transaction id, asking for a random target.
    pub fn find_node(&self, target_id: &[u8]) -> (packet: Vec<u8>)
        requires
            target_id@.len() >= 15,
        ensures
            is_find_node(packet@, target_id@, self@.local_id),
    {
        let target = rand_infohash_key();
        let tid = rand_transation_id();
        self.find_node_query(target_id, tid.as_slice(), target.as_slice())
    }

    /// One round of joining: for each router a `find_node` query to a
    /// random node id.
    pub fn join_round(&self) -> (out: Vec<(&'static str, Vec<u8>)>)
        ensures
            out@.len() == 3,
            forall|k: int|
                0 <= k < 3 ==> (#[trigger] out@[k]).0 == seed_names()[k] && is_join_query(
                    out@[k].1@,
                    self@.local_id,
                ),
    {
        let names = seeds();
        let mut out: Vec<(&'static str, Vec<u8>)> = Vec::new();
        let mut i: usize = 0;
        while i < 3
            invariant
                i <= 3,
                names@ == seed_names(),
                out@.len() == i,
                forall|k: int|
                    0 <= k < i ==> (#[trigger] out@[k]).0 == seed_names()[k] && is_join_query(
                        out@[k].1@,
                        self@.local_id,
                    ),
            decreases 3 - i,
        {
            let id = rand_infohash_key();
            let packet = self.find_node(id.as_slice());
            proof {
                assert(id@.len() == 20 && is_find_node(packet@, id@, self@.local_id));
                assert(is_join_query(packet@, self@.local_id));
            }
            let ghost before = out@;
            out.push((names[i], packet));
            proof {
                assert forall|k: int| 0 <= k < i + 1 implies (#[trigger] out@[k]).0
                    == seed_names()[k] && is_join_query(out@[k].1@, self@.local_id) by {
                    if k < i {
                        assert(out@[k] == before[k]);
                    }
                }
            }
            i += 1;
        }
        out
    }

    /// Checks an error packet: its code and its description.
    pub fn on_error(&self, v: &Value) -> (r: Result<(i64, Vec<u8>), Error>)
        ensures
            match error_of(v@) {
                Ok((code, description)) => r matches Ok((c, d)) && c == code && d@ == description,
                Err(e) => r matches Err(x) && x == e,
            },
    {
        let dict = match v.dict() {
            Ok(dict) => dict,
            Err(e) => {
                return Err(Error::Bencode(e));
            },
        };
        let e = match find(dict, "e") {
            Ok(e) => e,
            Err(e) => {
                return Err(e);
            },
        };
        let a = match e.list() {
            Ok(a) => a,
            Err(e) => {
                return Err(Error::Bencode(e));
            },
        };
        if a.len() != 2 {
            return Err(Error::InvalidPacket);
        }
        proof {
            assert(values_view(a@)[0] == a@[0]@);
            assert(values_view(a@)[1] == a@[1]@);
        }
        let code = match a[0].integer() {
            Ok(code) => code,
            Err(e) => {
                return Err(Error::Bencode(e));
            },
        };
        let desc = match a[1].bytes() {
            Ok(desc) => desc,
            Err(e) => {
                return Err(Error::Bencode(e));
            },
        };
        Ok((code, slice_to_vec(desc)))
    }

    /// The announcement that an `announce_peer` query from `addr` makes:
    /// the infohash, which has 20 bytes, and the peer at the address the
    /// packet came from, with the port that the query names or implies.
    pub fn summarize(&self, v: &Value, addr: &Endpoint) -> (r: Result<Message, Error>)
        ensures
            match summary_of(v@, *addr) {
                Ok(a) => r matches Ok(m) && m@ == a,
                Err(e) => r matches Err(x) && x == e,
            },
            r matches Ok(m) ==> m.infohash@.len() == 20,
    {
        let a = match arguments(v) {
            Ok(a) => a,
            Err(e) => {
                return Err(e);
            },
        };
        let hash = match bytes_at(a, "info_hash") {
            Ok(hash) => hash,
            Err(e) => {
                return Err(e);
            },
        };
        if hash.len() != 20 {
            return Err(Error::InvalidPacket);
        }
        let mut port: u16 = addr.port;
        let implied: bool = match a.get("implied_port".as_bytes()) {
            Some(Value::Integer(n)) => *n == 0,
            _ => false,
        };
        if implied {
            let n = match find(a, "port") {
                Ok(x) => match x.integer() {
                    Ok(n) => n,
                    Err(e) => {
                        return Err(Error::Bencode(e));
                    },
                },
                Err(e) => {
                    return Err(e);
                },
            };
            port = #[verifier::truncate] (n as u16);
        }
        Ok(Message::new(addr.ip, port, hash))
    }

    /// Takes in an `announce_peer` query from `addr`: the announcement, if
    /// the token is the one that was handed to `addr`.
    pub fn on_announce_peer(&self, v: &Value, addr: &Endpoint) -> (r: Result<Message, Error>)
        ensures
            match announce_of(v@, *addr, self@.secret) {
                Ok(a) => r matches Ok(m) && m@ == a,
                Err(e) => r matches Err(x) && x == e,
            },
            r matches Ok(m) ==> m.infohash@.len() == 20,
    {
        let a = match arguments(v) {
            Ok(a) => a,
            Err(e) => {
                return Err(e);
            },
        };
        let token = match bytes_at(a, "token") {
            Ok(token) => token,
            Err(e) => {
                return Err(e);
            },
        };
        if !self.is_valid_token(token, addr) {
            return Err(Error::InvalidToken);
        }
        self.summarize(v, addr)
    }

    /// Takes in a `get_peers` query from `addr`: the reply, which shows
    /// this node as a neighbor of the infohash, names no nodes, and hands
    /// out the token for `addr`.
    pub fn on_get_peers(&self, v: &Value, addr: &Endpoint) -> (r: Result<Vec<u8>, Error>)
        ensures
            match get_peers_of(v@, *addr, self@.local_id, self@.secret) {
                Ok(reply) => r matches Ok(bytes) && bytes@ == reply,
                Err(e) => r matches Err(x) && x == e,
            },
    {
        let dict = match v.dict() {
            Ok(dict) => dict,
            Err(e) => {
                return Err(Error::Bencode(e));
            },
        };
        let tid = match bytes_at(dict, "t") {
            Ok(tid) => tid,
            Err(e) => {
                return Err(e);
            },
        };
        let a = match arguments(v) {
            Ok(a) => a,
            Err(e) => {
                return Err(e);
            },
        };
        let hash = match bytes_at(a, "info_hash") {
            Ok(hash) => hash,
            Err(e) => {
                return Err(e);
            },
        };
        if hash.len() != 20 {
            return Err(Error::InvalidPacket);
        }
        let mut r = Dict::new();
        bind(&mut r, "id", Value::ByteString(neighbor_id(hash, self.local_id.as_slice())));
        bind(&mut r, "nodes", Value::ByteString(Vec::new()));
        bind(&mut r, "token", Value::ByteString(self.make_token(addr)));
        self.make_reply(tid, r)
    }

    /// Takes in a query from `addr` and says what it calls for.
    pub fn on_query(&self, v: &Value, addr: &Endpoint) -> (r: Result<Action, Error>)
        ensures
            match query_of(v@, *addr, self@.local_id, self@.secret) {
                Ok(Outcome::Nothing) => r matches Ok(Action::Nothing),
                Ok(Outcome::Reply(reply)) => r matches Ok(Action::Reply(bytes)) && bytes@ == reply,
                Ok(Outcome::Announce(a)) => r matches Ok(Action::Announce(m)) && m@ == a
                    && a.infohash.len() == 20,
                Ok(Outcome::Probe(_)) => false,
                Err(e) => r matches Err(x) && x == e,
            },
    {
        let dict = match v.dict() {
            Ok(dict) => dict,
            Err(e) => {
                return Err(Error::Bencode(e));
            },
        };
        if dict.get("t".as_bytes()).is_none() {
            return Err(Error::InvalidPacket);
        }
        let q = match dict.get("q".as_bytes()) {
            Some(q) => match q.bytes() {
                Ok(q) => q,
                Err(e) => {
                    return Err(Error::Bencode(e));
                },
            },
            None => {
                return Err(Error::InvalidPacket);
            },
        };
        if bytes_eq(q, "get_peers".as_bytes()) {
            match self.on_get_peers(v, addr) {
                Ok(reply) => Ok(Action::Reply(reply)),
                Err(e) => Err(e),
            }
        } else if bytes_eq(q, "announce_peer".as_bytes()) {
            match self.on_announce_peer(v, addr) {
                Ok(m) => Ok(Action::Announce(m)),
                Err(e) => Err(e),
            }
        } else {
            Ok(Action::Nothing)
        }
    }

    /// The nodes that a reply names.
    pub fn reply_nodes(v: &Value) -> (r: Result<Vec<Node>, Error>)
        ensures
            match nodes_of(v@) {
                Ok(nodes) => r matches Ok(x) && nodes_view(x@) == nodes,
                Err(e) => r matches Err(x) && x == e,
            },
    {
        let dict = match v.dict() {
            Ok(dict) => dict,
            Err(e) => {
                return Err(Error::Bencode(e));
            },
        };
        let r = match find(dict, "r") {
            Ok(r) => match r.dict() {
                Ok(r) => r,
                Err(e) => {
                    return Err(Error::Bencode(e));
                },
            },
            Err(e) => {
                return Err(e);
            },
        };
        let s = match bytes_at(r, "nodes") {
            Ok(s) => s,
            Err(e) => {
                return Err(e);
            },
        };
        decode_nodes(s)
    }

    /// Takes in a reply: for each node that it names, in order, the limiter
    /// is asked, and a `find_node` query to that node is made if and only
    /// if the limiter lets it pass.
    pub fn on_reply(&mut self, v: &Value) -> (r: Result<Vec<(Endpoint, Vec<u8>)>, Error>)
        ensures
            final(self)@.laddr == old(self)@.laddr,
            final(self)@.local_id == old(self)@.local_id,
            final(self)@.secret == old(self)@.secret,
            match nodes_of(v@) {
                Ok(nodes) => r matches Ok(out) && probes(
                    out@,
                    nodes,
                    old(self)@.local_id,
                    old(self)@.limiter,
                    final(self)@.limiter,
                ),
                Err(e) => r matches Err(x) && x == e && final(self)@.limiter == old(
                    self,
                )@.limiter,
            },
    {
        let nodes = match DHT::reply_nodes(v) {
            Ok(nodes) => nodes,
            Err(e) => {
                return Err(e);
            },
        };
        let ghost records = nodes_view(nodes@);
        let ghost start = self@.limiter;
        let ghost mut picked: Seq<int> = Seq::empty();
        let ghost mut times: Seq<u128> = Seq::empty();
        let mut out: Vec<(Endpoint, Vec<u8>)> = Vec::new();
        let mut i: usize = 0;
        while i < nodes.len()
            invariant
                i <= nodes.len(),
                self@.laddr == old(self)@.laddr,
                self@.local_id == old(self)@.local_id,
                self@.secret == old(self)@.secret,
                records == nodes_view(nodes@),
                nodes_of(v@) == Ok::<Seq<NodeRecord>, Error>(records),
                probes_picked(out@, records, self@.local_id, picked),
                forall|k: int| 0 <= k < picked.len() ==> #[trigger] picked[k] < i,
                times.len() == i,
                self@.limiter == state_after(start, times),
                picked == passed(start, times),
            decreases nodes.len() - i,
        {
            let ghost before = self@.limiter;
            let ghost asked = times;
            let allowed = self.limiter.allow();
            proof {
                let now = choose|now: u128| (self@.limiter, allowed) == allow_step(before, now);
                times = asked.push(now);
                assert(times.drop_last() =~= asked);
                assert(passed(start, times) == if allowed {
                    passed(start, asked).push(i as int)
                } else {
                    passed(start, asked)
                });
            }
            if allowed {
                proof {
                    assert(records[i as int] == nodes@[i as int]@);
                    lemma_record_id(v@, i as int);
                }
                let packet = self.find_node(nodes[i].id.as_slice());
                let ghost old_out = out@;
                out.push((nodes[i].addr, packet));
                proof {
                    let old_picked = picked;
                    picked = picked.push(i as int);
                    assert forall|k: int| 0 <= k < out@.len() implies (#[trigger] out@[k]).0
                        == records[picked[k]].addr && is_find_node(
                        out@[k].1@,
                        records[picked[k]].id,
                        self@.local_id,
                    ) by {
                        if k < old_out.len() {
                            assert(out@[k] == old_out[k]);
                            assert(picked[k] == old_picked[k]);
                        }
                    }
                    assert forall|j: int, k: int| 0 <= j < k < picked.len() implies picked[j]
                        < picked[k] by {
                        if k < old_picked.len() {
                            assert(picked[j] == old_picked[j] && picked[k] == old_picked[k]);
                        } else {
                            assert(picked[j] == old_picked[j]);
                        }
                    }
                }
            }
            i += 1;
        }
        proof {
            assert(probes_at(out@, records, self@.local_id, start, self@.limiter, times));
        }
        Ok(out)
    }

    /// Takes in the packet `data` that came from `from` and says what it
    /// calls for. An announcement is made only for an `announce_peer`
    /// query with a valid token, and its infohash has 20 bytes.
    pub fn on_message(&mut self, data: &[u8], from: &Endpoint) -> (r: Result<Action, Error>)
        ensures
            final(self)@.laddr == old(self)@.laddr,
            final(self)@.local_id == old(self)@.local_id,
            final(self)@.secret == old(self)@.secret,
            match packet_of(data@, *from, old(self)@.local_id, old(self)@.secret) {
                Ok(Outcome::Nothing) => r matches Ok(Action::Nothing) && final(self)@.limiter
                    == old(self)@.limiter,
                Ok(Outcome::Reply(reply)) => r matches Ok(Action::Reply(bytes)) && bytes@ == reply
                    && final(self)@.limiter == old(self)@.limiter,
                Ok(Outcome::Announce(a)) => r matches Ok(Action::Announce(m)) && m@ == a
                    && a.infohash.len() == 20 && final(self)@.limiter == old(self)@.limiter,
                Ok(Outcome::Probe(nodes)) => r matches Ok(Action::FindNodes(out)) && probes(
                    out@,
                    nodes,
                    old(self)@.local_id,
                    old(self)@.limiter,
                    final(self)@.limiter,
                ),
                Err(e) => r matches Err(x) && x == e && final(self)@.limiter == old(
                    self,
                )@.limiter,
            },
    {
        let c = match bencode::from_bytes(data) {
            Ok(c) => c,
            Err(e) => {
                return Err(Error::Bencode(e));
            },
        };
        let dict = match c.dict() {
            Ok(dict) => dict,
            Err(e) => {
                return Err(Error::Bencode(e));
            },
        };
        let y = match bytes_at(dict, "y") {
            Ok(y) => y,
            Err(e) => {
                return Err(e);
            },
        };
        if bytes_eq(y, "q".as_bytes()) {
            self.on_query(&c, from)
        } else if bytes_eq(y, "r".as_bytes()) {
            match self.on_reply(&c) {
                Ok(out) => Ok(Action::FindNodes(out)),
                Err(e) => Err(e),
            }
        } else if bytes_eq(y, "e".as_bytes()) {
            match self.on_error(&c) {
                Ok(_) => Ok(Action::Nothing),
                Err(e) => Err(e),
            }
        } else {
            Err(Error::InvalidPacket)
        }
    }
}

/// The id of every node that a reply names has 20 bytes.
proof fn lemma_record_id(v: Bencode, i: int)
    requires
        nodes_of(v) is Ok,
        0 <= i < nodes_of(v)->Ok_0.len(),
    ensures
        nodes_of(v)->Ok_0[i].id.len() == 20,
{
}

} // verus!
