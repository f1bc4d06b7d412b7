use vstd::prelude::*;
use vstd::slice::{slice_subrange, slice_to_vec};
use crate::endpoint::{Endpoint, IpAddress, ipv4_of};
use crate::errors::Error;

verus! {

/// The length of a compact node record: 20 bytes of id, 4 of address, 2 of
/// port.
pub const NODE_BYTES_LENGTH: usize = 26;

/// A DHT node.
#[derive(Debug)]
pub struct Node {
    pub id: Vec<u8>,
    pub addr: Endpoint,
}

/// What a node is: its id and its address.
pub struct NodeRecord {
    pub id: Seq<u8>,
    pub addr: Endpoint,
}

impl View for Node {
    type V = NodeRecord;

    open spec fn view(&self) -> NodeRecord {
        NodeRecord { id: self.id@, addr: self.addr }
    }
}

/// The node that the first 26 bytes of `s` record: the id, the version 4
/// address and the port, which is big-endian.
pub open spec fn record_of(s: Seq<u8>) -> NodeRecord {
    NodeRecord {
        id: s.take(20),
        addr: Endpoint {
            ip: IpAddress::V4(ipv4_of(s[20], s[21], s[22], s[23])),
            port: (s[24] * 256 + s[25]) as u16,
        },
    }
}

/// The nodes that `s` records, 26 bytes each.
pub open spec fn records_of(s: Seq<u8>) -> Seq<NodeRecord> {
    Seq::new(
        s.len() / 26,
        |i: int| record_of(s.subrange(26 * i, 26 * i + 26)),
    )
}

/// What a sequence of nodes is, node by node.
pub open spec fn nodes_view(nodes: Seq<Node>) -> Seq<NodeRecord> {
    Seq::new(nodes.len(), |i: int| nodes[i]@)
}

/// Decodes a `nodes` payload: a run of compact node records.
/// `InvalidNodesLength` unless the length is a positive multiple of 26.
pub fn decode_nodes(s: &[u8]) -> (r: Result<Vec<Node>, Error>)
    ensures
        match r {
            Ok(nodes) => s@.len() > 0 && s@.len() % 26 == 0 && nodes_view(nodes@) == records_of(
                s@,
            ),
            Err(e) => e == Error::InvalidNodesLength && (s@.len() == 0 || s@.len() % 26 != 0),
        },
{
    if s.len() == 0 || s.len() % NODE_BYTES_LENGTH != 0 {
        return Err(Error::InvalidNodesLength);
    }
    let n: usize = s.len() / NODE_BYTES_LENGTH;
    let mut res: Vec<Node> = Vec::new();
    let mut i: usize = 0;
    let mut pos: usize = 0;
    while i < n
        invariant
            i <= n,
            pos == 26 * i,
            s@.len() == 26 * n,
            s@.len() <= usize::MAX,
            res@.len() == i,
            forall|k: int| 0 <= k < i ==> (#[trigger] res@[k])@ == records_of(s@)[k],
        decreases n - i,
    {
        let node = Node::from_bytes(slice_subrange(s, pos, pos + NODE_BYTES_LENGTH));
        res.push(node);
        pos += NODE_BYTES_LENGTH;
        i += 1;
    }
    proof {
        assert(nodes_view(res@) =~= records_of(s@));
    }
    Ok(res)
}

impl Node {
    /// The node that the first 26 bytes of `s` record.
    pub fn from_bytes(s: &[u8]) -> (node: Node)
        requires
            s@.len() >= NODE_BYTES_LENGTH,
        ensures
            node@ == record_of(s@),
            node.id@.len() == 20,
    {
        let id = slice_to_vec(slice_subrange(s, 0, 20));
        let ip = IpAddress::v4(s[20], s[21], s[22], s[23]);
        let port: u16 = (s[24] as u16) * 256 + (s[25] as u16);
        let addr = Endpoint::new(ip, port);
        proof {
            assert(id@ =~= s@.take(20));
        }
        Node { id, addr }
    }
}

} // verus!
