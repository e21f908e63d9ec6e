//! Static cluster topology: the voters and, for every node, where it listens.
//!
//! Reading the topology from a TOML file and resolving host names are left
//! to the host program; this module answers questions about a topology
//! already read, and builds the TCP address of a resolved host.

use libp2p::Multiaddr;
use vstd::prelude::*;

use crate::raft::types::NodeId;
use crate::text::{decimal_digits, decimal_string};

verus! {

#[derive(Debug)]
pub struct ClusterConfig {
    pub voters: Vec<NodeId>,
    /// When set, this node proposes `"hello"` after ~1s as stable leader.
    pub propose_hello_node: Option<NodeId>,
    pub nodes: Vec<ClusterNodeSpec>,
}

#[derive(Debug)]
pub struct ClusterNodeSpec {
    pub id: NodeId,
    pub host: String,
    pub port: u16,
}

impl Clone for ClusterNodeSpec {
    fn clone(&self) -> (res: Self)
        ensures
            res.id == self.id,
            res.host@ == self.host@,
            res.port == self.port,
    {
        ClusterNodeSpec { id: self.id, host: self.host.clone(), port: self.port }
    }
}

/// The ids of the nodes, in order.
pub open spec fn ids_of(nodes: Seq<ClusterNodeSpec>) -> Seq<NodeId> {
    nodes.map_values(|n: ClusterNodeSpec| n.id)
}

/// The port of the first node with id `id`.
pub open spec fn first_port(nodes: Seq<ClusterNodeSpec>, id: NodeId) -> Option<u16>
    decreases nodes.len(),
{
    if nodes.len() == 0 {
        None
    } else if nodes[0].id == id {
        Some(nodes[0].port)
    } else {
        first_port(nodes.drop_first(), id)
    }
}

/// The nodes other than `self_id`, in order.
pub open spec fn others_of(nodes: Seq<ClusterNodeSpec>, self_id: NodeId) -> Seq<ClusterNodeSpec>
    decreases nodes.len(),
{
    if nodes.len() == 0 {
        Seq::empty()
    } else if nodes.last().id == self_id {
        others_of(nodes.drop_last(), self_id)
    } else {
        others_of(nodes.drop_last(), self_id).push(nodes.last())
    }
}

/// The spec values of node entries agree: same id, host text and port.
pub open spec fn same_nodes(a: Seq<ClusterNodeSpec>, b: Seq<ClusterNodeSpec>) -> bool {
    &&& a.len() == b.len()
    &&& forall|i: int|
        0 <= i < a.len() ==> (#[trigger] a[i]).id == b[i].id && a[i].host@ == b[i].host@ && a[i].port
            == b[i].port
}

impl ClusterConfig {
    pub fn node_ids(&self) -> (ids: Vec<NodeId>)
        ensures
            ids@ == ids_of(self.nodes@),
    {
        let mut ids: Vec<NodeId> = Vec::new();
        let mut i: usize = 0;
        while i < self.nodes.len()
            invariant
                0 <= i <= self.nodes.len(),
                ids@ == ids_of(self.nodes@.take(i as int)),
            decreases self.nodes.len() - i,
        {
            ids.push(self.nodes[i].id);
            assert(ids_of(self.nodes@.take(i + 1)) =~= ids_of(self.nodes@.take(i as int)).push(self.nodes@[i as int].id));
            i = i + 1;
        }
        assert(self.nodes@.take(self.nodes.len() as int) =~= self.nodes@);
        ids
    }

    /// The port the node `node_id` listens on, if the topology lists it.
    pub fn listen_port(&self, node_id: NodeId) -> (port: Option<u16>)
        ensures
            port == first_port(self.nodes@, node_id),
    {
        let mut i: usize = 0;
        assert(self.nodes@.skip(0) =~= self.nodes@);
        while i < self.nodes.len()
            invariant
                0 <= i <= self.nodes.len(),
                first_port(self.nodes@, node_id) == first_port(self.nodes@.skip(i as int), node_id),
            decreases self.nodes.len() - i,
        {
            assert(self.nodes@.skip(i as int).drop_first() =~= self.nodes@.skip(i + 1));
            if self.nodes[i].id == node_id {
                return Some(self.nodes[i].port);
            }
            i = i + 1;
        }
        None
    }

    /// The nodes a node other than `self_id` should treat as peers, in the
    /// order the topology lists them.
    pub fn peer_nodes(&self, self_id: NodeId) -> (out: Vec<ClusterNodeSpec>)
        ensures
            same_nodes(out@, others_of(self.nodes@, self_id)),
    {
        let mut out: Vec<ClusterNodeSpec> = Vec::new();
        let mut i: usize = 0;
        while i < self.nodes.len()
            invariant
                0 <= i <= self.nodes.len(),
                same_nodes(out@, others_of(self.nodes@.take(i as int), self_id)),
            decreases self.nodes.len() - i,
        {
            let ghost prefix = self.nodes@.take(i + 1);
            assert(prefix.drop_last() =~= self.nodes@.take(i as int));
            assert(prefix.last() == self.nodes@[i as int]);
            if self.nodes[i].id != self_id {
                let node = self.nodes[i].clone();
                out.push(node);
            }
            i = i + 1;
        }
        assert(self.nodes@.take(self.nodes.len() as int) =~= self.nodes@);
        out
    }
}

/// Whether `Multiaddr`'s `FromStr` accepts `text`.
pub uninterp spec fn multiaddr_parses(text: Seq<char>) -> bool;

/// The address `Multiaddr`'s `FromStr` reads from `text`.
pub uninterp spec fn multiaddr_of(text: Seq<char>) -> Multiaddr;

/// Calls `Multiaddr`'s `FromStr`, which reads the text protocol by protocol
/// and depends on the text alone; whether it accepts the text and what it
/// reads are named, not described. A refusal is handed on as its text.
#[verifier::external_body]
fn parse_multiaddr(text: &str) -> (r: Result<Multiaddr, String>)
    ensures
        r is Ok <==> multiaddr_parses(text@),
        r is Ok ==> r->Ok_0 == multiaddr_of(text@),
{
    text.parse::<Multiaddr>().map_err(|e| e.to_string())
}

/// The text of the TCP address of `ip` (written as an IPv4 address when
/// `ipv4`, else as IPv6) and `port`.
pub open spec fn tcp_address_text(ip: Seq<char>, ipv4: bool, port: u16) -> Seq<char> {
    (if ipv4 {
        "/ip4/"@
    } else {
        "/ip6/"@
    }) + ip + "/tcp/"@ + decimal_digits(port as nat)
}

/// The TCP address `/ip4/{ip}/tcp/{port}` (or `/ip6/...`) of a resolved host.
pub fn tcp_address(ip: &str, ipv4: bool, port: u16) -> (r: Result<Multiaddr, String>)
    ensures
        r is Ok <==> multiaddr_parses(tcp_address_text(ip@, ipv4, port)),
        r is Ok ==> r->Ok_0 == multiaddr_of(tcp_address_text(ip@, ipv4, port)),
{
    let head = if ipv4 {
        String::from_str("/ip4/")
    } else {
        String::from_str("/ip6/")
    };
    let text = head.concat(ip).concat("/tcp/").concat(decimal_string(port as u64).as_str());
    assert(text@ =~= tcp_address_text(ip@, ipv4, port));
    parse_multiaddr(text.as_str())
}

} // verus!
