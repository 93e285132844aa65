//! The parts of `petgraph` that the library uses, with the contracts that its
//! source gives them.  A graph is seen through two names: the sequence of its
//! node weights and the sequence of its edges `(source, target, weight)`, both
//! in index order.
use petgraph::graph::{EdgeIndex, Graph, NodeIndex};
use petgraph::visit::EdgeRef;
use petgraph::Undirected;
use vstd::prelude::*;

use crate::model::{Edge, Node};
use crate::reduced_graph::{ReducedClusterEdge, ReducedClusterNode, ReducedGraph};

verus! {

#[verifier::external_type_specification]
#[verifier::external_body]
#[verifier::reject_recursive_types(N)]
#[verifier::reject_recursive_types(E)]
#[verifier::reject_recursive_types(Ty)]
#[verifier::reject_recursive_types(Ix)]
pub struct ExGraph<N, E, Ty, Ix>(Graph<N, E, Ty, Ix>);

#[verifier::external_type_specification]
#[verifier::external_body]
pub struct ExUndirected(Undirected);

/// The undirected multigraph of connectors, buildings, roads and access links.
pub type SpatialGraph = Graph<Node, Edge, Undirected>;

/// The node weights of a graph, in index order.
pub uninterp spec fn graph_nodes(g: Graph<Node, Edge, Undirected>) -> Seq<Node>;

/// The edges of a graph as `(source, target, weight)`, in index order.
pub uninterp spec fn graph_edges(g: Graph<Node, Edge, Undirected>) -> Seq<(usize, usize, Edge)>;

/// The end of `edge` that is not `v` (or `v` itself for a loop).
pub open spec fn other_end(edge: (usize, usize, Edge), v: int) -> int {
    if edge.0 == v {
        edge.1 as int
    } else {
        edge.0 as int
    }
}

/// Whether `edge` touches node `v`.
pub open spec fn touches(edge: (usize, usize, Edge), v: int) -> bool {
    edge.0 == v || edge.1 == v
}

/// `Graph::new_undirected`: an empty graph.
#[verifier::external_body]
pub(crate) fn graph_new() -> (g: SpatialGraph)
    ensures
        graph_nodes(g) =~= Seq::empty(),
        graph_edges(g) =~= Seq::empty(),
{
    Graph::new_undirected()
}

/// `Graph::add_node`: appends a node and returns its index.  The source panics
/// once the `u32` index space is exhausted, which `requires` rules out.
#[verifier::external_body]
pub(crate) fn graph_add_node(g: &mut SpatialGraph, weight: Node) -> (i: usize)
    requires
        graph_nodes(*old(g)).len() < u32::MAX,
    ensures
        graph_nodes(*final(g)) == graph_nodes(*old(g)).push(weight),
        graph_edges(*final(g)) == graph_edges(*old(g)),
        i == graph_nodes(*old(g)).len(),
{
    g.add_node(weight).index()
}

/// `Graph::add_edge`: appends an edge between two existing nodes and returns its
/// index.  The source panics on a missing node or when the `u32` index space is
/// exhausted, which `requires` rules out.
#[verifier::external_body]
pub(crate) fn graph_add_edge(g: &mut SpatialGraph, a: usize, b: usize, weight: Edge) -> (e: usize)
    requires
        a < graph_nodes(*old(g)).len(),
        b < graph_nodes(*old(g)).len(),
        graph_edges(*old(g)).len() < u32::MAX,
    ensures
        graph_nodes(*final(g)) == graph_nodes(*old(g)),
        graph_edges(*final(g)) == graph_edges(*old(g)).push((a, b, weight)),
        e == graph_edges(*old(g)).len(),
{
    g.add_edge(NodeIndex::new(a), NodeIndex::new(b), weight).index()
}

/// `Graph::node_count`.  `add_node`, through which every node comes, refuses
/// the index `u32::MAX`, so a graph never holds more than `u32::MAX` nodes.
#[verifier::external_body]
pub(crate) fn graph_node_count(g: &SpatialGraph) -> (n: usize)
    ensures
        n == graph_nodes(*g).len(),
        n <= u32::MAX,
{
    g.node_count()
}

/// `Graph::edge_count`.  `add_edge`, through which every edge comes, refuses
/// the index `u32::MAX`, so a graph never holds more than `u32::MAX` edges.
#[verifier::external_body]
pub(crate) fn graph_edge_count(g: &SpatialGraph) -> (n: usize)
    ensures
        n == graph_edges(*g).len(),
        n <= u32::MAX,
{
    g.edge_count()
}

/// `Graph::node_weight`: the weight of node `i`.  The index is cast to
/// `u32` on the way in, so only indices below the node count are admitted.
#[verifier::external_body]
pub(crate) fn graph_node_weight(g: &SpatialGraph, i: usize) -> (w: Option<&Node>)
    requires
        i < graph_nodes(*g).len(),
    ensures
        w == Some(&graph_nodes(*g)[i as int]),
{
    g.node_weight(NodeIndex::new(i))
}

/// `Graph::edge_endpoints`: the source and target of edge `e`.  The index
/// is cast to `u32` on the way in, so only indices below the edge count are
/// admitted.  Every edge of a `Graph` joins existing nodes.
#[verifier::external_body]
pub(crate) fn graph_edge_endpoints(g: &SpatialGraph, e: usize) -> (r: Option<(usize, usize)>)
    requires
        e < graph_edges(*g).len(),
    ensures
        r == Some((graph_edges(*g)[e as int].0, graph_edges(*g)[e as int].1)),
        r.unwrap().0 < graph_nodes(*g).len() && r.unwrap().1 < graph_nodes(*g).len(),
{
    g.edge_endpoints(EdgeIndex::new(e)).map(|(a, b)| (a.index(), b.index()))
}

/// `Graph::edge_weight`: the weight of edge `e`.  The index is cast to
/// `u32` on the way in, so only indices below the edge count are admitted.
#[verifier::external_body]
pub(crate) fn graph_edge_weight(g: &SpatialGraph, e: usize) -> (w: Option<&Edge>)
    requires
        e < graph_edges(*g).len(),
    ensures
        w == Some(&graph_edges(*g)[e as int].2),
{
    g.edge_weight(EdgeIndex::new(e))
}

/// `Graph::edges` on an undirected graph: every edge that touches `a`, once
/// each (a loop too), as `(edge index, other end)`.  In the source the
/// iterator's `source()` is always `a`, so `target()` is the other end.  The
/// order (last added first, outgoing before incoming) is not stated.
#[verifier::external_body]
pub(crate) fn graph_edges_at(g: &SpatialGraph, a: usize) -> (r: Vec<(usize, usize)>)
    requires
        a < graph_nodes(*g).len(),
    ensures
        forall|k: int|
            0 <= k < r.len() ==> {
                &&& #[trigger] r[k].0 < graph_edges(*g).len()
                &&& touches(graph_edges(*g)[r[k].0 as int], a as int)
                &&& r[k].1 as int == other_end(graph_edges(*g)[r[k].0 as int], a as int)
                &&& r[k].1 < graph_nodes(*g).len()
            },
        forall|k: int, l: int| 0 <= k < l < r.len() ==> #[trigger] r[k].0 != #[trigger] r[l].0,
        forall|e: int|
            0 <= e < graph_edges(*g).len() && #[trigger] touches(graph_edges(*g)[e], a as int)
                ==> exists|k: int| 0 <= k < r.len() && r[k].0 == e,
{
    g.edges(NodeIndex::new(a)).map(|er| (er.id().index(), er.target().index())).collect()
}


/// The node weights of a reduced graph, in index order.
pub uninterp spec fn reduced_nodes(g: Graph<ReducedClusterNode, ReducedClusterEdge, Undirected>) -> Seq<ReducedClusterNode>;

/// The edges of a reduced graph as `(source, target, weight)`, in index order.
pub uninterp spec fn reduced_edges(g: Graph<ReducedClusterNode, ReducedClusterEdge, Undirected>) -> Seq<(usize, usize, ReducedClusterEdge)>;

/// `Graph::new_undirected` for a reduced graph: an empty graph.
#[verifier::external_body]
pub(crate) fn reduced_new() -> (g: ReducedGraph)
    ensures
        reduced_nodes(g) =~= Seq::empty(),
        reduced_edges(g) =~= Seq::empty(),
{
    Graph::new_undirected()
}

/// `Graph::add_node` on a reduced graph: appends a node and returns its index.
/// The source panics once the `u32` index space is exhausted, which
/// `requires` rules out.
#[verifier::external_body]
pub(crate) fn reduced_add_node(g: &mut ReducedGraph, weight: ReducedClusterNode) -> (i: usize)
    requires
        reduced_nodes(*old(g)).len() < u32::MAX,
    ensures
        reduced_nodes(*final(g)) == reduced_nodes(*old(g)).push(weight),
        reduced_edges(*final(g)) == reduced_edges(*old(g)),
        i == reduced_nodes(*old(g)).len(),
{
    g.add_node(weight).index()
}

/// `Graph::add_edge` on a reduced graph: appends an edge between two existing
/// nodes.  The source panics on a missing node or when the `u32` index space
/// is exhausted, which `requires` rules out.
#[verifier::external_body]
pub(crate) fn reduced_add_edge(g: &mut ReducedGraph, a: usize, b: usize, weight: ReducedClusterEdge)
    requires
        a < reduced_nodes(*old(g)).len(),
        b < reduced_nodes(*old(g)).len(),
        reduced_edges(*old(g)).len() < u32::MAX,
    ensures
        reduced_nodes(*final(g)) == reduced_nodes(*old(g)),
        reduced_edges(*final(g)) == reduced_edges(*old(g)).push((a, b, weight)),
{
    g.add_edge(NodeIndex::new(a), NodeIndex::new(b), weight);
}

} // verus!
