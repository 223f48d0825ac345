use crate::network::{NetworkLink, NetworkNode};
use crate::text::{append_decimal, decimal};
use std::collections::HashMap;
use vstd::prelude::*;

verus! {

broadcast use vstd::std_specs::hash::group_hash_axioms;

/// An index of a node in an indexable graph.
pub type NodeIndex = usize;

/// An index of a link in an indexable graph.
pub type LinkIndex = usize;

/// A directed graph in compressed sparse row form: the outgoing edges of node `i` are the
/// indices `first_out[i] .. first_out[i + 1]`, and `head[j]` is the end node of edge `j`.
#[derive(Clone, Debug)]
pub struct CsrGraph {
    pub first_out: Vec<LinkIndex>,
    pub head: Vec<NodeIndex>,
}

impl CsrGraph {
    /// Creates a graph from its two vectors, unchanged.
    pub fn new(first_out: Vec<LinkIndex>, head: Vec<NodeIndex>) -> (g: CsrGraph)
        ensures
            g.first_out@ == first_out@,
            g.head@ == head@,
    {
        CsrGraph { first_out, head }
    }

    /// `first_out` describes `n` nodes and `m` edges: it has `n + 1` entries, starts at 0, ends
    /// at `m` and never decreases; and every head is one of the `n` nodes.
    pub open spec fn valid(&self, n: nat, m: nat) -> bool {
        &&& self.first_out@.len() == n + 1
        &&& self.head@.len() == m
        &&& self.first_out@[0] == 0
        &&& self.first_out@[n as int] == m
        &&& forall|i: int, j: int|
            0 <= i <= j <= n ==> self.first_out@[i] <= self.first_out@[j]
        &&& forall|e: int| 0 <= e < m ==> (#[trigger] self.head@[e]) < n
    }

    /// Edge `e` is one of the edges that leave node `i`.
    pub open spec fn leaves(&self, i: int, e: int) -> bool {
        &&& 0 <= i < self.first_out@.len() - 1
        &&& self.first_out@[i] <= e < self.first_out@[i + 1]
    }
}

/// Errors of graph lookups: an id or an index that the graph does not hold.
#[derive(Debug, Clone, PartialEq, Eq, Structural)]
pub enum GraphError {
    LinkIdNotFound(u64),
    LinkIndexNotFound(LinkIndex),
    NodeIdNotFound(u64),
    NodeIndexNotFound(NodeIndex),
}

/// The text of a graph error.
pub open spec fn graph_error_text(e: GraphError) -> Seq<char> {
    match e {
        GraphError::LinkIdNotFound(id) => "no link with id "@ + decimal(id as nat) + " found in the graph"@,
        GraphError::NodeIdNotFound(id) => "no node with id "@ + decimal(id as nat) + " found in the graph"@,
        GraphError::LinkIndexNotFound(i) => "no link with index "@ + decimal(i as nat)
            + " found in the graph"@,
        GraphError::NodeIndexNotFound(i) => "no node with index "@ + decimal(i as nat)
            + " found in the graph."@,
    }
}

impl GraphError {
    /// The text of the error, naming the id or index that was not found.
    pub fn to_message(&self) -> (r: String)
        ensures
            r@ == graph_error_text(*self),
    {
        let (mut s, tail) = match self {
            GraphError::LinkIdNotFound(id) => {
                let mut s = String::from_str("no link with id ");
                append_decimal(&mut s, *id);
                (s, " found in the graph")
            },
            GraphError::NodeIdNotFound(id) => {
                let mut s = String::from_str("no node with id ");
                append_decimal(&mut s, *id);
                (s, " found in the graph")
            },
            GraphError::LinkIndexNotFound(i) => {
                let mut s = String::from_str("no link with index ");
                append_decimal(&mut s, *i as u64);
                (s, " found in the graph")
            },
            GraphError::NodeIndexNotFound(i) => {
                let mut s = String::from_str("no node with index ");
                append_decimal(&mut s, *i as u64);
                (s, " found in the graph.")
            },
        };
        s.append(tail);
        s
    }
}

/// `ids` and `index_by_id` are inverse to each other: `ids[i]` is stored under index `i`, and
/// every stored id sits at its index in `ids`.
pub open spec fn ids_inverse(ids: Seq<u64>, index_by_id: Map<u64, usize>) -> bool {
    &&& forall|i: int|
        0 <= i < ids.len() ==> #[trigger] index_by_id.contains_key(ids[i]) && index_by_id[ids[i]]
            == i
    &&& forall|k: u64| #[trigger]
        index_by_id.contains_key(k) ==> index_by_id[k] < ids.len() && ids[index_by_id[k] as int]
            == k
}

/// A directed graph whose nodes and edges are network nodes and links, stored twice in
/// compressed sparse row form: once forward (outgoing edges) and once backward (incoming
/// edges), with the maps between ids and indices of both.
#[derive(Clone)]
pub struct ForwardBackwardRoutingGraph {
    pub forward_graph: CsrGraph,
    pub backward_graph: CsrGraph,
    pub node_by_node_id: HashMap<u64, NetworkNode>,
    pub link_by_link_id: HashMap<u64, NetworkLink>,
    pub node_index_by_id: HashMap<u64, NodeIndex>,
    pub node_id_by_index: Vec<u64>,
    pub forward_link_id_by_index: Vec<u64>,
    pub backward_link_id_by_index: Vec<u64>,
    pub forward_link_index_by_id: HashMap<u64, LinkIndex>,
    pub backward_link_index_by_id: HashMap<u64, LinkIndex>,
}

impl ForwardBackwardRoutingGraph {
    /// Number of nodes.
    pub open spec fn n(&self) -> nat {
        self.node_id_by_index@.len()
    }

    /// Number of links.
    pub open spec fn m(&self) -> nat {
        self.forward_link_id_by_index@.len()
    }

    /// Both graphs are valid compressed sparse rows over the same nodes and links, and the maps
    /// between ids and indices are inverse to the id vectors.
    pub open spec fn wf(&self) -> bool {
        &&& self.forward_graph.valid(self.n(), self.m())
        &&& self.backward_graph.valid(self.n(), self.m())
        &&& self.backward_link_id_by_index@.len() == self.m()
        &&& ids_inverse(self.node_id_by_index@, self.node_index_by_id@)
        &&& ids_inverse(self.forward_link_id_by_index@, self.forward_link_index_by_id@)
        &&& ids_inverse(self.backward_link_id_by_index@, self.backward_link_index_by_id@)
    }

    /// The backward index of the link with forward index `e`.
    pub open spec fn backward_of(&self, e: int) -> int {
        self.backward_link_index_by_id@[self.forward_link_id_by_index@[e]] as int
    }

    /// Well formed, and the backward graph holds the same edges as the forward one, reversed:
    /// a link that leaves node `i` and enters node `h` forward enters `i` and leaves `h`
    /// backward.
    pub open spec fn consistent(&self) -> bool {
        &&& self.wf()
        &&& forall|e: int| #![trigger self.forward_link_id_by_index@[e]]
            0 <= e < self.m() ==> self.backward_link_index_by_id@.contains_key(
                self.forward_link_id_by_index@[e],
            )
        &&& forall|k: int| #![trigger self.backward_link_id_by_index@[k]]
            0 <= k < self.m() ==> self.forward_link_index_by_id@.contains_key(
                self.backward_link_id_by_index@[k],
            )
        &&& forall|i: int, e: int| #[trigger]
            self.forward_graph.leaves(i, e) ==> self.backward_graph.head@[self.backward_of(e)]
                == i && self.backward_graph.leaves(
                self.forward_graph.head@[e] as int,
                self.backward_of(e),
            )
    }

    /// Creates the graph from its parts, unchanged.
    pub fn new(
        forward_graph: CsrGraph,
        backward_graph: CsrGraph,
        node_by_node_id: HashMap<u64, NetworkNode>,
        link_by_link_id: HashMap<u64, NetworkLink>,
        node_index_by_id: HashMap<u64, NodeIndex>,
        node_id_by_index: Vec<u64>,
        forward_link_id_by_index: Vec<u64>,
        backward_link_id_by_index: Vec<u64>,
        forward_link_index_by_id: HashMap<u64, LinkIndex>,
        backward_link_index_by_id: HashMap<u64, LinkIndex>,
    ) -> (g: Self)
        requires
            forward_graph.head@.len() == backward_graph.head@.len(),
            forward_graph.first_out@.len() == backward_graph.first_out@.len(),
        ensures
            g.forward_graph == forward_graph,
            g.backward_graph == backward_graph,
            g.node_by_node_id@ == node_by_node_id@,
            g.link_by_link_id@ == link_by_link_id@,
            g.node_index_by_id@ == node_index_by_id@,
            g.node_id_by_index@ == node_id_by_index@,
            g.forward_link_id_by_index@ == forward_link_id_by_index@,
            g.backward_link_id_by_index@ == backward_link_id_by_index@,
            g.forward_link_index_by_id@ == forward_link_index_by_id@,
            g.backward_link_index_by_id@ == backward_link_index_by_id@,
    {
        Self {
            forward_graph,
            backward_graph,
            node_by_node_id,
            link_by_link_id,
            node_index_by_id,
            node_id_by_index,
            forward_link_id_by_index,
            backward_link_id_by_index,
            forward_link_index_by_id,
            backward_link_index_by_id,
        }
    }

    /// The id of the node with the given index.
    pub fn get_node_id(&self, idx: NodeIndex) -> (r: Result<u64, GraphError>)
        ensures
            idx < self.n() ==> r == Ok::<u64, GraphError>(self.node_id_by_index@[idx as int]),
            idx >= self.n() ==> r == Err::<u64, GraphError>(GraphError::NodeIndexNotFound(idx)),
    {
        if idx < self.node_id_by_index.len() {
            Ok(self.node_id_by_index[idx])
        } else {
            Err(GraphError::NodeIndexNotFound(idx))
        }
    }

    /// The id of the link with the given forward index.
    pub fn get_link_id(&self, idx: LinkIndex) -> (r: Result<u64, GraphError>)
        ensures
            idx < self.m() ==> r == Ok::<u64, GraphError>(self.forward_link_id_by_index@[idx as int]),
            idx >= self.m() ==> r == Err::<u64, GraphError>(GraphError::LinkIndexNotFound(idx)),
    {
        if idx < self.forward_link_id_by_index.len() {
            Ok(self.forward_link_id_by_index[idx])
        } else {
            Err(GraphError::LinkIndexNotFound(idx))
        }
    }

    /// The backward index of the link with the given forward index.
    pub fn get_backward_link_index(&self, forward_link_idx: LinkIndex) -> (r: Result<
        LinkIndex,
        GraphError,
    >)
        ensures
            forward_link_idx >= self.m() ==> r == Err::<LinkIndex, GraphError>(
                GraphError::LinkIndexNotFound(forward_link_idx),
            ),
            forward_link_idx < self.m() ==> {
                let id = self.forward_link_id_by_index@[forward_link_idx as int];
                if self.backward_link_index_by_id@.contains_key(id) {
                    r == Ok::<LinkIndex, GraphError>(self.backward_link_index_by_id@[id])
                } else {
                    r == Err::<LinkIndex, GraphError>(GraphError::LinkIdNotFound(id))
                }
            },
    {
        let link_id = self.get_link_id(forward_link_idx)?;
        match self.backward_link_index_by_id.get(&link_id) {
            Some(i) => Ok(*i),
            None => Err(GraphError::LinkIdNotFound(link_id)),
        }
    }

    /// The network node with the given id.
    pub fn node(&self, id: u64) -> (r: Result<&NetworkNode, GraphError>)
        ensures
            self.node_by_node_id@.contains_key(id) ==> (r matches Ok(n) && *n == self.node_by_node_id@[id]),
            !self.node_by_node_id@.contains_key(id) ==> (r matches Err(e) && e == GraphError::NodeIdNotFound(id)),
    {
        match self.node_by_node_id.get(&id) {
            Some(n) => Ok(n),
            None => Err(GraphError::NodeIdNotFound(id)),
        }
    }

    /// The network link with the given id.
    pub fn edge(&self, id: u64) -> (r: Result<&NetworkLink, GraphError>)
        ensures
            self.link_by_link_id@.contains_key(id) ==> (r matches Ok(l) && *l == self.link_by_link_id@[id]),
            !self.link_by_link_id@.contains_key(id) ==> (r matches Err(e) && e == GraphError::LinkIdNotFound(id)),
    {
        match self.link_by_link_id.get(&id) {
            Some(l) => Ok(l),
            None => Err(GraphError::LinkIdNotFound(id)),
        }
    }

    /// The ids of the links that leave the node with the given id, in forward order.
    pub fn outgoing_edges(&self, node: u64) -> (r: &[u64])
        requires
            self.wf(),
            self.node_index_by_id@.contains_key(node),
        ensures
            ({
                let i = self.node_index_by_id@[node] as int;
                r@ == self.forward_link_id_by_index@.subrange(
                    self.forward_graph.first_out@[i] as int,
                    self.forward_graph.first_out@[i + 1] as int,
                )
            }),
    {
        let node_idx = *self.node_index_by_id.get(&node).unwrap();
        let a = self.forward_graph.first_out[node_idx];
        let rows = self.forward_graph.first_out.len();
        assert(node_idx + 1 < rows);
        let b = self.forward_graph.first_out[node_idx + 1];
        vstd::slice::slice_subrange(self.forward_link_id_by_index.as_slice(), a, b)
    }

    /// The ids of the links that enter the node with the given id, in backward order.
    pub fn incoming_edges(&self, node: u64) -> (r: &[u64])
        requires
            self.wf(),
            self.node_index_by_id@.contains_key(node),
        ensures
            ({
                let i = self.node_index_by_id@[node] as int;
                r@ == self.backward_link_id_by_index@.subrange(
                    self.backward_graph.first_out@[i] as int,
                    self.backward_graph.first_out@[i + 1] as int,
                )
            }),
    {
        let node_idx = *self.node_index_by_id.get(&node).unwrap();
        let a = self.backward_graph.first_out[node_idx];
        let rows = self.backward_graph.first_out.len();
        assert(node_idx + 1 < rows);
        let b = self.backward_graph.first_out[node_idx + 1];
        vstd::slice::slice_subrange(self.backward_link_id_by_index.as_slice(), a, b)
    }

    /// The number of nodes: one less than the length of the forward `first_out`.
    pub fn num_nodes(&self) -> (r: usize)
        requires
            self.forward_graph.first_out@.len() >= 1,
        ensures
            r == self.forward_graph.first_out@.len() - 1,
    {
        self.forward_graph.first_out.len() - 1
    }

    /// The id of the end node of the link with the given id.
    pub fn get_end_node(&self, link_id: u64) -> (r: Result<u64, GraphError>)
        requires
            self.wf(),
        ensures
            self.forward_link_index_by_id@.contains_key(link_id) ==> r == Ok::<u64, GraphError>(
                self.node_id_by_index@[self.forward_graph.head@[self.forward_link_index_by_id@[link_id] as int] as int],
            ),
            !self.forward_link_index_by_id@.contains_key(link_id) ==> r == Err::<u64, GraphError>(
                GraphError::LinkIdNotFound(link_id),
            ),
    {
        let link_id_index = self.get_link_idx_from_id(link_id)?;
        let node_idx = self.forward_graph.head[link_id_index];
        Ok(self.node_id_by_index[node_idx])
    }

    /// The id of the start node of the link with the given id, looked up in the backward graph.
    pub fn get_start_node(&self, link_id: u64) -> (r: Result<u64, GraphError>)
        requires
            self.wf(),
        ensures
            !self.forward_link_index_by_id@.contains_key(link_id) ==> r == Err::<u64, GraphError>(
                GraphError::LinkIdNotFound(link_id),
            ),
            self.forward_link_index_by_id@.contains_key(link_id) && !self.backward_link_index_by_id@.contains_key(link_id)
                ==> r == Err::<u64, GraphError>(GraphError::LinkIdNotFound(link_id)),
            self.forward_link_index_by_id@.contains_key(link_id) && self.backward_link_index_by_id@.contains_key(link_id)
                ==> r == Ok::<u64, GraphError>(
                self.node_id_by_index@[self.backward_graph.head@[self.backward_link_index_by_id@[link_id] as int] as int],
            ),
    {
        let link_index = self.get_link_idx_from_id(link_id)?;
        let backward_link_index = self.get_backward_link_index(link_index)?;
        let start_node_idx = match self.backward_graph.head.get(backward_link_index) {
            Some(i) => *i,
            None => {
                return Err(GraphError::LinkIndexNotFound(backward_link_index));
            },
        };
        self.get_node_id(start_node_idx)
    }

    /// The index of the end node of the link with the given forward index.
    pub fn get_end_node_as_idx(&self, edge: LinkIndex) -> (r: Result<NodeIndex, GraphError>)
        ensures
            edge < self.forward_graph.head@.len() ==> r == Ok::<NodeIndex, GraphError>(
                self.forward_graph.head@[edge as int],
            ),
            edge >= self.forward_graph.head@.len() ==> r == Err::<NodeIndex, GraphError>(
                GraphError::LinkIndexNotFound(edge),
            ),
    {
        match self.forward_graph.head.get(edge) {
            Some(i) => Ok(*i),
            None => Err(GraphError::LinkIndexNotFound(edge)),
        }
    }

    /// The index of the start node of the link with the given forward index, looked up in the
    /// backward graph.
    pub fn get_start_node_as_idx(&self, edge: LinkIndex) -> (r: Result<NodeIndex, GraphError>)
        requires
            self.wf(),
        ensures
            edge >= self.m() ==> r == Err::<NodeIndex, GraphError>(
                GraphError::LinkIndexNotFound(edge),
            ),
            edge < self.m() && !self.backward_link_index_by_id@.contains_key(
                self.forward_link_id_by_index@[edge as int],
            ) ==> r == Err::<NodeIndex, GraphError>(
                GraphError::LinkIdNotFound(self.forward_link_id_by_index@[edge as int]),
            ),
            edge < self.m() && self.backward_link_index_by_id@.contains_key(
                self.forward_link_id_by_index@[edge as int],
            ) ==> r == Ok::<NodeIndex, GraphError>(
                self.backward_graph.head@[self.backward_of(edge as int)],
            ),
    {
        let backward_link_index = self.get_backward_link_index(edge)?;
        match self.backward_graph.head.get(backward_link_index) {
            Some(i) => Ok(*i),
            None => Err(GraphError::LinkIndexNotFound(backward_link_index)),
        }
    }

    /// The forward index of the link with the given id.
    pub fn get_link_idx_from_id(&self, link_id: u64) -> (r: Result<LinkIndex, GraphError>)
        ensures
            self.forward_link_index_by_id@.contains_key(link_id) ==> r == Ok::<
                LinkIndex,
                GraphError,
            >(self.forward_link_index_by_id@[link_id]),
            !self.forward_link_index_by_id@.contains_key(link_id) ==> r == Err::<
                LinkIndex,
                GraphError,
            >(GraphError::LinkIdNotFound(link_id)),
    {
        match self.forward_link_index_by_id.get(&link_id) {
            Some(i) => Ok(*i),
            None => Err(GraphError::LinkIdNotFound(link_id)),
        }
    }

    /// The index of the node with the given id.
    pub fn get_node_idx_from_id(&self, node_id: u64) -> (r: NodeIndex)
        requires
            self.node_index_by_id@.contains_key(node_id),
        ensures
            r == self.node_index_by_id@[node_id],
    {
        *self.node_index_by_id.get(&node_id).unwrap()
    }

    /// The id of the link with the given forward index.
    pub fn get_link_id_from_idx(&self, idx: LinkIndex) -> (r: Result<u64, GraphError>)
        ensures
            idx < self.m() ==> r == Ok::<u64, GraphError>(self.forward_link_id_by_index@[idx as int]),
            idx >= self.m() ==> r == Err::<u64, GraphError>(GraphError::LinkIndexNotFound(idx)),
    {
        self.get_link_id(idx)
    }

    /// The id of the node with the given index.
    pub fn get_node_id_from_idx(&self, idx: NodeIndex) -> (r: Result<u64, GraphError>)
        ensures
            idx < self.n() ==> r == Ok::<u64, GraphError>(self.node_id_by_index@[idx as int]),
            idx >= self.n() ==> r == Err::<u64, GraphError>(GraphError::NodeIndexNotFound(idx)),
    {
        self.get_node_id(idx)
    }

    /// The network link with the given forward index.
    pub fn get_link_from_idx(&self, idx: LinkIndex) -> (r: Result<&NetworkLink, GraphError>)
        ensures
            idx >= self.m() ==> (r matches Err(e) && e == GraphError::LinkIndexNotFound(idx)),
            idx < self.m() ==> {
                let id = self.forward_link_id_by_index@[idx as int];
                &&& self.link_by_link_id@.contains_key(id) ==> (r matches Ok(l) && *l == self.link_by_link_id@[id])
                &&& !self.link_by_link_id@.contains_key(id) ==> (r matches Err(e) && e == GraphError::LinkIdNotFound(id))
            },
    {
        let id = self.get_link_id_from_idx(idx)?;
        self.edge(id)
    }

    /// The network node with the given index.
    pub fn get_node_from_idx(&self, idx: NodeIndex) -> (r: Result<&NetworkNode, GraphError>)
        ensures
            idx >= self.n() ==> (r matches Err(e) && e == GraphError::NodeIndexNotFound(idx)),
            idx < self.n() ==> {
                let id = self.node_id_by_index@[idx as int];
                &&& self.node_by_node_id@.contains_key(id) ==> (r matches Ok(n) && *n == self.node_by_node_id@[id])
                &&& !self.node_by_node_id@.contains_key(id) ==> (r matches Err(e) && e == GraphError::NodeIdNotFound(id))
            },
    {
        let id = self.get_node_id_from_idx(idx)?;
        self.node(id)
    }

    /// The forward indices of the links that leave the given node, in ascending order.
    pub fn outgoing_edges_as_idx(&self, node: NodeIndex) -> (r: Vec<LinkIndex>)
        requires
            self.wf(),
            node < self.n(),
        ensures
            r@.len() == self.forward_graph.first_out@[node + 1] - self.forward_graph.first_out@[node as int],
            forall|k: int|
                0 <= k < r@.len() ==> #[trigger] r@[k] == self.forward_graph.first_out@[node as int]
                    + k,
    {
        let a = self.forward_graph.first_out[node];
        let rows = self.forward_graph.first_out.len();
        assert(node + 1 < rows);
        let b = self.forward_graph.first_out[node + 1];
        let mut r: Vec<LinkIndex> = Vec::new();
        let mut e = a;
        while e < b
            invariant
                a <= e <= b,
                r@.len() == e - a,
                forall|k: int| 0 <= k < r@.len() ==> #[trigger] r@[k] == a + k,
            decreases b - e,
        {
            r.push(e);
            e = e + 1;
        }
        r
    }

    /// The forward indices of the links that enter the given node, in backward order.
    pub fn incoming_edges_as_idx(&self, node: NodeIndex) -> (r: Vec<LinkIndex>)
        requires
            self.consistent(),
            node < self.n(),
        ensures
            ({
                let a = self.backward_graph.first_out@[node as int];
                let b = self.backward_graph.first_out@[node + 1];
                &&& r@.len() == b - a
                &&& forall|k: int|
                    0 <= k < r@.len() ==> #[trigger] r@[k] == self.forward_link_index_by_id@[
                        self.backward_link_id_by_index@[a + k]]
            }),
    {
        let a = self.backward_graph.first_out[node];
        let rows = self.backward_graph.first_out.len();
        assert(node + 1 < rows);
        let b = self.backward_graph.first_out[node + 1];
        let mut r: Vec<LinkIndex> = Vec::new();
        let mut k = a;
        while k < b
            invariant
                self.consistent(),
                node < self.n(),
                a == self.backward_graph.first_out@[node as int],
                b == self.backward_graph.first_out@[node + 1],
                a <= k <= b,
                r@.len() == k - a,
                forall|t: int|
                    0 <= t < r@.len() ==> #[trigger] r@[t] == self.forward_link_index_by_id@[
                        self.backward_link_id_by_index@[a + t]],
            decreases b - k,
        {
            let id = self.backward_link_id_by_index[k];
            proof {
                assert(self.backward_link_index_by_id@.contains_key(id));
                assert(self.forward_link_index_by_id@.contains_key(id));
            }
            let f = *self.forward_link_index_by_id.get(&id).unwrap();
            r.push(f);
            k = k + 1;
        }
        r
    }
}

proof fn lemma_edge_source_from(g: &CsrGraph, n: nat, m: nat, e: int, k: int)
    requires
        g.valid(n, m),
        0 <= e < m,
        0 <= k <= n,
        g.first_out@[k] <= e,
    ensures
        exists|i: int| g.leaves(i, e),
    decreases n - k,
{
    if k < n {
        if g.first_out@[k + 1] > e {
            assert(g.leaves(k, e));
        } else {
            lemma_edge_source_from(g, n, m, e, k + 1);
        }
    }
}

/// Every edge of a valid graph leaves exactly one node.
pub proof fn lemma_edge_source(g: &CsrGraph, n: nat, m: nat, e: int)
    requires
        g.valid(n, m),
        0 <= e < m,
    ensures
        exists|i: int| g.leaves(i, e),
        forall|i: int, j: int| g.leaves(i, e) && g.leaves(j, e) ==> i == j,
{
    lemma_edge_source_from(g, n, m, e, 0);
    assert forall|i: int, j: int| g.leaves(i, e) && g.leaves(j, e) implies i == j by {
        if i < j {
            assert(g.first_out@[i + 1] <= g.first_out@[j]);
        }
        if j < i {
            assert(g.first_out@[j + 1] <= g.first_out@[i]);
        }
    }
}

/// Ids and indices convert back and forth without loss: the index of the id at a node index
/// is that index and the id at the index of a node id is that id, and likewise for links.
pub proof fn lemma_ids_roundtrip(g: &ForwardBackwardRoutingGraph)
    requires
        g.wf(),
    ensures
        forall|i: int|
            0 <= i < g.n() ==> g.node_index_by_id@[#[trigger] g.node_id_by_index@[i]] == i,
        forall|id: u64|
            #[trigger] g.node_index_by_id@.contains_key(id) ==> g.node_id_by_index@[g.node_index_by_id@[id] as int] == id,
        forall|e: int|
            0 <= e < g.m() ==> g.forward_link_index_by_id@[#[trigger] g.forward_link_id_by_index@[e]] == e,
        forall|id: u64|
            #[trigger] g.forward_link_index_by_id@.contains_key(id) ==> g.forward_link_id_by_index@[g.forward_link_index_by_id@[id] as int] == id,
{
    assert forall|i: int| 0 <= i < g.n() implies g.node_index_by_id@[#[trigger] g.node_id_by_index@[i]] == i by {
        assert(g.node_index_by_id@.contains_key(g.node_id_by_index@[i]));
    }
    assert forall|e: int| 0 <= e < g.m() implies g.forward_link_index_by_id@[#[trigger] g.forward_link_id_by_index@[e]] == e by {
        assert(g.forward_link_index_by_id@.contains_key(g.forward_link_id_by_index@[e]));
    }
}

/// The start node that the graph reports for a link leaving a node is that node.
pub proof fn lemma_outgoing_start(g: &ForwardBackwardRoutingGraph, i: int, e: int)
    requires
        g.consistent(),
        g.forward_graph.leaves(i, e),
    ensures
        0 <= e < g.m(),
        g.backward_link_index_by_id@.contains_key(g.forward_link_id_by_index@[e]),
        g.backward_graph.head@[g.backward_of(e)] == i,
{
    assert(g.forward_graph.first_out@[i + 1] <= g.forward_graph.first_out@[g.n() as int]);
}

/// Every link that the graph reports as entering a node ends at that node: the backward edge
/// at position `kb` of the node's row stands for a forward link whose end node is the node.
pub proof fn lemma_incoming_end(g: &ForwardBackwardRoutingGraph, node: int, kb: int)
    requires
        g.consistent(),
        g.backward_graph.leaves(node, kb),
    ensures
        g.forward_link_index_by_id@.contains_key(g.backward_link_id_by_index@[kb]),
        g.forward_link_index_by_id@[g.backward_link_id_by_index@[kb]] < g.m(),
        g.forward_graph.head@[g.forward_link_index_by_id@[g.backward_link_id_by_index@[kb]] as int]
            == node,
{
    assert(g.backward_graph.first_out@[node + 1] <= g.backward_graph.first_out@[g.n() as int]);
    let id = g.backward_link_id_by_index@[kb];
    assert(g.forward_link_index_by_id@.contains_key(id));
    let e = g.forward_link_index_by_id@[id] as int;
    assert(g.forward_link_id_by_index@[e] == id);
    assert(g.backward_of(e) == kb);
    lemma_edge_source(&g.forward_graph, g.n(), g.m(), e);
    let i = choose|i: int| g.forward_graph.leaves(i, e);
    assert(g.backward_graph.leaves(g.forward_graph.head@[e] as int, kb));
    lemma_edge_source(&g.backward_graph, g.n(), g.m(), kb);
}

} // verus!
