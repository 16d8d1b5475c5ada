//! The boundary to `petgraph`: the graph type, a model of what a graph
//! holds, and one thin call per `petgraph` method that the library uses.
//!
//! Nothing in this file is proved. Each contract restates what the
//! `petgraph` source does, over the two model functions below.

use petgraph::Undirected;
use petgraph::graph::Graph;
use petgraph::graph::NodeIndex;
use vstd::prelude::*;

verus! {

/// `petgraph::graph::Graph`, opaque: what one holds is told by
/// `graph_weights` and `graph_edges` alone.
#[verifier::external_type_specification]
#[verifier::external_body]
#[verifier::reject_recursive_types(N)]
#[verifier::reject_recursive_types(E)]
#[verifier::reject_recursive_types(Ty)]
#[verifier::reject_recursive_types(Ix)]
pub struct ExGraph<N, E, Ty, Ix>(Graph<N, E, Ty, Ix>);

/// `petgraph::Undirected`, the marker of a graph whose edges have no
/// direction.
#[verifier::external_type_specification]
#[verifier::external_body]
pub struct ExUndirected(Undirected);

/// The node weights of a graph, by node index.
pub uninterp spec fn graph_weights(g: Graph<usize, (), Undirected, usize>) -> Seq<usize>;

/// The endpoints of the edges of a graph, by edge index, each as it was given
/// when the edge was added.
pub uninterp spec fn graph_edges(g: Graph<usize, (), Undirected, usize>) -> Seq<(usize, usize)>;

/// For each edge that touches `a`, in edge order, the node at its other end.
/// A loop at `a` contributes `a` once.
pub open spec fn far_ends(edges: Seq<(usize, usize)>, a: usize) -> Seq<usize>
    decreases edges.len(),
{
    if edges.len() == 0 {
        Seq::empty()
    } else {
        let rest = far_ends(edges.drop_last(), a);
        let e = edges.last();
        if e.0 == a {
            rest.push(e.1)
        } else if e.1 == a {
            rest.push(e.0)
        } else {
            rest
        }
    }
}

/// Whether some edge joins `a` and `b`, in either direction.
pub open spec fn joined(edges: Seq<(usize, usize)>, a: usize, b: usize) -> bool {
    exists|k: int| 0 <= k < edges.len() && (#[trigger] edges[k] == (a, b) || edges[k] == (b, a))
}

/// `Graph::default`: a graph without nodes or edges.
#[verifier::external_body]
pub(crate) fn graph_new() -> (g: Graph<usize, (), Undirected, usize>)
    ensures
        graph_weights(g) == Seq::<usize>::empty(),
        graph_edges(g) == Seq::<(usize, usize)>::empty(),
{
    Graph::default()
}

/// `Graph::node_count`: the number of nodes.
#[verifier::external_body]
pub(crate) fn graph_node_count(g: &Graph<usize, (), Undirected, usize>) -> (n: usize)
    ensures
        n == graph_weights(*g).len(),
{
    g.node_count()
}

/// `Graph::edge_count`: the number of edges.
#[verifier::external_body]
pub(crate) fn graph_edge_count(g: &Graph<usize, (), Undirected, usize>) -> (n: usize)
    ensures
        n == graph_edges(*g).len(),
{
    g.edge_count()
}

/// `Graph::add_node`: appends a node with weight `w` and returns its index,
/// which is the number of nodes before the call. Edges are untouched. With
/// `usize` indices the method has no capacity limit of its own.
#[verifier::external_body]
pub(crate) fn graph_add_node(g: &mut Graph<usize, (), Undirected, usize>, w: usize) -> (i: usize)
    ensures
        i == graph_weights(*old(g)).len(),
        graph_weights(*final(g)) == graph_weights(*old(g)).push(w),
        graph_edges(*final(g)) == graph_edges(*old(g)),
{
    g.add_node(w).index()
}

/// Indexing a graph by a node index: the weight of node `i`. The index must
/// name a node, or the call panics.
#[verifier::external_body]
pub(crate) fn graph_weight(g: &Graph<usize, (), Undirected, usize>, i: usize) -> (w: usize)
    requires
        i < graph_weights(*g).len(),
    ensures
        w == graph_weights(*g)[i as int],
{
    g[NodeIndex::new(i)]
}

/// Assigning through a graph indexed by a node index: node `i` gets weight
/// `w`, all else stays. The index must name a node, or the call panics.
#[verifier::external_body]
pub(crate) fn graph_set_weight(g: &mut Graph<usize, (), Undirected, usize>, i: usize, w: usize)
    requires
        i < graph_weights(*old(g)).len(),
    ensures
        graph_weights(*final(g)) == graph_weights(*old(g)).update(i as int, w),
        graph_edges(*final(g)) == graph_edges(*old(g)),
{
    g[NodeIndex::new(i)] = w;
}

/// `Graph::contains_edge` on an undirected graph: whether an edge joins `a`
/// and `b`, whichever way round it was added.
#[verifier::external_body]
pub(crate) fn graph_contains_edge(g: &Graph<usize, (), Undirected, usize>, a: usize, b: usize) -> (r: bool)
    ensures
        r == joined(graph_edges(*g), a, b),
{
    g.contains_edge(NodeIndex::new(a), NodeIndex::new(b))
}

/// `Graph::add_edge`: appends an edge from `a` to `b`, also where one is
/// there already. Nodes are untouched. Both indices must name nodes, or the
/// call panics.
#[verifier::external_body]
pub(crate) fn graph_add_edge(g: &mut Graph<usize, (), Undirected, usize>, a: usize, b: usize)
    requires
        a < graph_weights(*old(g)).len(),
        b < graph_weights(*old(g)).len(),
    ensures
        graph_edges(*final(g)) == graph_edges(*old(g)).push((a, b)),
        graph_weights(*final(g)) == graph_weights(*old(g)),
{
    g.add_edge(NodeIndex::new(a), NodeIndex::new(b), ());
}

/// `Graph::neighbors` on an undirected graph, collected: the far end of
/// every edge at `a`, once per edge, in an order that is left open.
#[verifier::external_body]
pub(crate) fn graph_neighbors(g: &Graph<usize, (), Undirected, usize>, a: usize) -> (r: Vec<usize>)
    ensures
        r@.to_multiset() == far_ends(graph_edges(*g), a).to_multiset(),
{
    g.neighbors(NodeIndex::new(a)).map(|n| n.index()).collect()
}

} // verus!
