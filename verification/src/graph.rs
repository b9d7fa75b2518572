//! The precedence relation of a project, held in an adjacency matrix.
//!
//! The matrix is `petgraph`'s. Nothing in this file is proved: each function
//! states what the matrix graph's source shows of the call it makes.

use petgraph::matrix_graph::MatrixGraph;
use petgraph::matrix_graph::NodeIndex;
use petgraph::Direction;
use vstd::prelude::*;

verus! {

/// A directed graph over the nodes `0 .. node_total`: `petgraph`'s
/// `MatrixGraph`, an adjacency matrix that tells in constant time whether an
/// edge is there. Nothing inside it is seen by the proofs: what it holds goes
/// by the names `node_total` and `edge_set`.
#[verifier::external_body]
pub struct PrecedenceGraph {
    inner: MatrixGraph<u8, u8>,
}

/// The number of nodes that a graph holds.
pub uninterp spec fn node_total(g: PrecedenceGraph) -> nat;

/// The edges that a graph holds, each as the pair of its tail and its head.
pub uninterp spec fn edge_set(g: PrecedenceGraph) -> Set<(int, int)>;

/// `MatrixGraph::new`: a directed graph without nodes and without edges.
#[verifier::external_body]
pub(crate) fn graph_new() -> (g: PrecedenceGraph)
    ensures
        node_total(g) == 0,
        edge_set(g) == Set::<(int, int)>::empty(),
{
    PrecedenceGraph { inner: MatrixGraph::new() }
}

/// `MatrixGraph::add_node`: the new node gets the next free index, which is
/// the number of nodes so far since no node is ever removed; no edge changes.
#[verifier::external_body]
pub(crate) fn graph_add_node(g: &mut PrecedenceGraph, weight: u8) -> (index: usize)
    requires
        node_total(*old(g)) < 256,
    ensures
        index == node_total(*old(g)),
        node_total(*final(g)) == node_total(*old(g)) + 1,
        edge_set(*final(g)) == edge_set(*old(g)),
{
    g.inner.add_node(weight).index()
}

/// `MatrixGraph::add_edge`: the edge from `a` to `b` joins the graph. The call
/// panics where the edge is there already, so that is left out.
#[verifier::external_body]
pub(crate) fn graph_add_edge(g: &mut PrecedenceGraph, a: u8, b: u8)
    requires
        a < node_total(*old(g)),
        b < node_total(*old(g)),
        !edge_set(*old(g)).contains((a as int, b as int)),
    ensures
        node_total(*final(g)) == node_total(*old(g)),
        edge_set(*final(g)) == edge_set(*old(g)).insert((a as int, b as int)),
{
    g.inner.add_edge(NodeIndex::new(a as usize), NodeIndex::new(b as usize), 0);
}

/// `MatrixGraph::has_edge`: whether the edge from `a` to `b` is in the graph.
#[verifier::external_body]
pub(crate) fn graph_has_edge(g: &PrecedenceGraph, a: u8, b: u8) -> (present: bool)
    requires
        a < node_total(*g),
        b < node_total(*g),
    ensures
        present == edge_set(*g).contains((a as int, b as int)),
{
    g.inner.has_edge(NodeIndex::new(a as usize), NodeIndex::new(b as usize))
}

/// `MatrixGraph::neighbors_directed` with `Incoming`: the tails of the edges
/// that lead to `a`. The iterator walks the column of `a` from the first row
/// down, so they come in ascending order, each once.
#[verifier::external_body]
pub(crate) fn graph_predecessors(g: &PrecedenceGraph, a: u8) -> (tails: Vec<u8>)
    requires
        a < node_total(*g),
        node_total(*g) <= 256,
    ensures
        forall|i: int|
            0 <= i < tails.len() ==> edge_set(*g).contains((#[trigger] tails[i] as int, a as int)),
        forall|u: int|
            0 <= u < 256 && #[trigger] edge_set(*g).contains((u, a as int)) ==> tails@.contains(
                u as u8,
            ),
        forall|i: int, j: int| 0 <= i < j < tails.len() ==> tails[i] < tails[j],
{
    let mut tails: Vec<u8> = Vec::new();
    for tail in g.inner.neighbors_directed(NodeIndex::new(a as usize), Direction::Incoming) {
        tails.push(tail.index() as u8);
    }
    tails
}

} // verus!
