//! The dependency graph and its condensation, held in `petgraph` graphs.
//!
//! Nothing in this file is proved: each function states what the `petgraph`
//! function that it calls is documented to do, over the two graphs' contents.

use petgraph::algo::{condensation, toposort};
use petgraph::graph::{Graph, NodeIndex};
use petgraph::Directed;
use vstd::prelude::*;

verus! {

/// `petgraph::graph::Graph`, carried as an opaque value: what it holds is
/// known only through the names below.
#[verifier::external_type_specification]
#[verifier::external_body]
#[verifier::reject_recursive_types(N)]
#[verifier::reject_recursive_types(E)]
#[verifier::reject_recursive_types(Ty)]
#[verifier::reject_recursive_types(Ix)]
pub struct ExGraph<N, E, Ty, Ix>(Graph<N, E, Ty, Ix>);

/// `petgraph::Directed`, the marker of graphs with directed edges.
#[verifier::external_type_specification]
#[verifier::external_body]
pub struct ExDirected(Directed);

/// The weights of the nodes of a dependency graph, by node index.
pub uninterp spec fn graph_nodes(g: Graph<usize, (), Directed, usize>) -> Seq<usize>;

/// The edges of a dependency graph, each as the node indices of its source
/// and target, in the order in which they were added.
pub uninterp spec fn graph_edges(g: Graph<usize, (), Directed, usize>) -> Seq<(usize, usize)>;

/// The weights of the nodes of a condensed graph, by node index: each is the
/// list of the weights of one component's nodes.
pub uninterp spec fn condensed_nodes(c: Graph<Vec<usize>, (), Directed, usize>) -> Seq<Seq<usize>>;

/// The edges of a condensed graph, as pairs of node indices.
pub uninterp spec fn condensed_edges(c: Graph<Vec<usize>, (), Directed, usize>) -> Set<
    (usize, usize),
>;

/// `p` is a walk along `edges`: each of its nodes has an edge to the next.
pub open spec fn edge_walk(edges: Seq<(usize, usize)>, p: Seq<usize>) -> bool {
    &&& p.len() >= 1
    &&& forall|k: int| 0 <= k < p.len() - 1 ==> edges.contains((#[trigger] p[k], p[k + 1]))
}

/// Node `b` can be reached from node `a` along `edges`, in zero or more steps.
pub open spec fn connected(edges: Seq<(usize, usize)>, a: usize, b: usize) -> bool {
    exists|p: Seq<usize>| #[trigger] edge_walk(edges, p) && p.first() == a && p.last() == b
}

/// No walk of one or more steps along `edges` returns to where it began.
pub open spec fn acyclic(edges: Set<(usize, usize)>) -> bool {
    forall|p: Seq<usize>|
        p.len() >= 2 && (forall|k: int|
            0 <= k < p.len() - 1 ==> edges.contains((#[trigger] p[k], p[k + 1]))) ==> p.first()
            != p.last()
}

/// `w` is one of the weights that component `c` lists.
pub open spec fn in_component(comps: Seq<Seq<usize>>, c: int, w: usize) -> bool {
    0 <= c < comps.len() && comps[c].contains(w)
}

/// `comps` and `cedges` are the strongly connected components of the graph
/// with node weights `nodes` (no weight twice) and edges `edges`, and the
/// edges between them.
pub open spec fn is_condensation(
    nodes: Seq<usize>,
    edges: Seq<(usize, usize)>,
    comps: Seq<Seq<usize>>,
    cedges: Set<(usize, usize)>,
) -> bool {
    // a component holds weights of nodes only
    &&& forall|c: int, w: usize| #[trigger] in_component(comps, c, w) ==> nodes.contains(w)
    // every node lies in a component
    &&& forall|i: int|
        0 <= i < nodes.len() ==> exists|c: int| in_component(comps, c, #[trigger] nodes[i])
    // and in one only
    &&& forall|c: int, d: int, w: usize|
        #[trigger] in_component(comps, c, w) && #[trigger] in_component(comps, d, w) ==> c == d
    // the nodes of one component reach one another
    &&& forall|c: int, i: int, j: int|
        0 <= i < nodes.len() && 0 <= j < nodes.len() && #[trigger] in_component(
            comps,
            c,
            nodes[i],
        ) && #[trigger] in_component(comps, c, nodes[j]) ==> connected(
            edges,
            i as usize,
            j as usize,
        )
    // nodes that reach one another share a component
    &&& forall|c: int, d: int, i: int, j: int|
        0 <= i < nodes.len() && 0 <= j < nodes.len() && #[trigger] in_component(
            comps,
            c,
            nodes[i],
        ) && #[trigger] in_component(comps, d, nodes[j]) && connected(
            edges,
            i as usize,
            j as usize,
        ) && connected(edges, j as usize, i as usize) ==> c == d
    // an edge between two components is an edge of the condensed graph
    &&& forall|e: int, c: int, d: int|
        0 <= e < edges.len() && edges[e].0 < nodes.len() && edges[e].1 < nodes.len() && c != d
            && #[trigger] in_component(comps, c, nodes[edges[e].0 as int])
            && #[trigger] in_component(comps, d, nodes[edges[e].1 as int]) ==> cedges.contains(
            (c as usize, d as usize),
        )
    // and the condensed graph has no other edges
    &&& forall|c: usize, d: usize| #[trigger]
        cedges.contains((c, d)) ==> c != d && exists|e: int|
            0 <= e < edges.len() && edges[e].0 < nodes.len() && edges[e].1 < nodes.len()
                && in_component(comps, c as int, nodes[(#[trigger] edges[e]).0 as int])
                && in_component(comps, d as int, nodes[edges[e].1 as int])
    &&& acyclic(cedges)
}

/// `order` lists each of the `n` nodes once, every node before the nodes
/// that its edges lead to.
pub open spec fn is_topological_order(
    order: Seq<usize>,
    n: nat,
    edges: Set<(usize, usize)>,
) -> bool {
    &&& order.len() == n
    &&& order.no_duplicates()
    &&& forall|c: usize| c < n ==> order.contains(c)
    &&& forall|k: int| 0 <= k < order.len() ==> (#[trigger] order[k]) < n
    &&& forall|a: int, b: int|
        0 <= a < order.len() && 0 <= b < order.len() && edges.contains(
            (#[trigger] order[a], #[trigger] order[b]),
        ) ==> a < b
}

/// `Graph::with_capacity`, with both capacities zero: a graph with no node
/// and no edge.
#[verifier::external_body]
pub(crate) fn graph_empty() -> (g: Graph<usize, (), Directed, usize>)
    ensures
        graph_nodes(g) == Seq::<usize>::empty(),
        graph_edges(g) == Seq::<(usize, usize)>::empty(),
{
    Graph::with_capacity(0, 0)
}

/// `Graph::add_node`: the new node comes after the others, and its index is
/// the number of nodes there were. With `usize` indices the graph has no
/// node limit.
#[verifier::external_body]
pub(crate) fn graph_add_node(g: &mut Graph<usize, (), Directed, usize>, weight: usize) -> (index:
    usize)
    ensures
        graph_nodes(*final(g)) == graph_nodes(*old(g)).push(weight),
        graph_edges(*final(g)) == graph_edges(*old(g)),
        index == graph_nodes(*old(g)).len(),
{
    g.add_node(weight).index()
}

/// `Graph::add_edge`, between two nodes that exist: the new edge comes after
/// the others; parallel edges are kept. With `usize` indices the graph has
/// no edge limit.
#[verifier::external_body]
pub(crate) fn graph_add_edge(g: &mut Graph<usize, (), Directed, usize>, a: usize, b: usize)
    requires
        a < graph_nodes(*old(g)).len(),
        b < graph_nodes(*old(g)).len(),
    ensures
        graph_nodes(*final(g)) == graph_nodes(*old(g)),
        graph_edges(*final(g)) == graph_edges(*old(g)).push((a, b)),
{
    g.add_edge(NodeIndex::new(a), NodeIndex::new(b), ());
}

/// `petgraph::algo::condensation` with `make_acyclic` set: every strongly
/// connected component becomes one node, whose weight lists the weights of
/// its nodes; self-loops and parallel edges are left out, so that the result
/// is acyclic.
#[verifier::external_body]
pub(crate) fn graph_condensation(g: Graph<usize, (), Directed, usize>) -> (c: Graph<
    Vec<usize>,
    (),
    Directed,
    usize,
>)
    requires
        graph_nodes(g).no_duplicates(),
    ensures
        is_condensation(graph_nodes(g), graph_edges(g), condensed_nodes(c), condensed_edges(c)),
{
    condensation(g, true)
}

/// `petgraph::algo::toposort`: for an acyclic graph, its nodes with each
/// node before its successors; for a graph with a cycle, nothing.
#[verifier::external_body]
pub(crate) fn condensed_toposort(c: &Graph<Vec<usize>, (), Directed, usize>) -> (order: Option<
    Vec<usize>,
>)
    ensures
        order is Some <==> acyclic(condensed_edges(*c)),
        order matches Some(o) ==> is_topological_order(
            o@,
            condensed_nodes(*c).len(),
            condensed_edges(*c),
        ),
{
    match toposort(c, None) {
        Ok(order) => Some(order.into_iter().map(|n| n.index()).collect()),
        Err(_) => None,
    }
}

/// `Graph::node_weight`: the weight of node `i` of a condensed graph, if
/// there is such a node.
#[verifier::external_body]
pub(crate) fn condensed_members(c: &Graph<Vec<usize>, (), Directed, usize>, i: usize) -> (members:
    Option<Vec<usize>>)
    ensures
        members is Some <==> i < condensed_nodes(*c).len(),
        members matches Some(m) ==> m@ == condensed_nodes(*c)[i as int],
{
    c.node_weight(NodeIndex::new(i)).cloned()
}

} // verus!
