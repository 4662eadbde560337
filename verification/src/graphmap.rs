//! The directed graph that holds the dependency relation.
//!
//! The graph itself lives in `petgraph`'s `GraphMap`, with node identifiers
//! as nodes. Verus cannot look into it, so what it holds is given two names,
//! `graph_nodes` and `graph_edges`, and each operation that this crate uses
//! is a small function whose contract says over those two names what
//! `petgraph` documents of the operation. None of these contracts is proved.
//! What a cycle and a topological order are is defined here, over plain sets
//! and sequences.

use petgraph::algo::Cycle;
use petgraph::graphmap::GraphMap;
use petgraph::Directed;
use vstd::prelude::*;

verus! {

/// `petgraph::graphmap::GraphMap`, of which Verus sees the name only.
#[verifier::external_type_specification]
#[verifier::external_body]
#[verifier::reject_recursive_types(N)]
#[verifier::reject_recursive_types(E)]
#[verifier::reject_recursive_types(Ty)]
pub struct ExGraphMap<N, E, Ty>(GraphMap<N, E, Ty>);

/// `petgraph::Directed`, the marker of graphs whose edges have a direction.
#[verifier::external_type_specification]
#[verifier::external_body]
pub struct ExDirected(Directed);

/// `petgraph::algo::Cycle`, the error of a sort that met a cycle.
#[verifier::external_type_specification]
#[verifier::external_body]
#[verifier::reject_recursive_types(N)]
pub struct ExCycle<N>(Cycle<N>);

/// The nodes that a graph holds.
pub uninterp spec fn graph_nodes(g: GraphMap<usize, i8, Directed>) -> Set<usize>;

/// The edges that a graph holds, each as (source, target).
pub uninterp spec fn graph_edges(g: GraphMap<usize, i8, Directed>) -> Set<(usize, usize)>;

/// Whether `walk` follows edges: it has two nodes or more, and from each of
/// them but the last an edge leads to the next.
pub open spec fn is_walk(edges: Set<(usize, usize)>, walk: Seq<usize>) -> bool {
    &&& walk.len() >= 2
    &&& forall|i: int| 0 <= i < walk.len() - 1 ==> edges.contains((#[trigger] walk[i], walk[i + 1]))
}

/// Whether the edges hold a cycle: a walk that ends where it starts. An edge
/// from a node to itself is one.
pub open spec fn has_cycle(edges: Set<(usize, usize)>) -> bool {
    exists|walk: Seq<usize>| #[trigger] is_walk(edges, walk) && walk.first() == walk.last()
}

/// Whether `order` is a topological order: it holds each node once, and the
/// source of each edge before its target.
pub open spec fn is_topological(
    order: Seq<usize>,
    nodes: Set<usize>,
    edges: Set<(usize, usize)>,
) -> bool {
    &&& order.no_duplicates()
    &&& order.to_set() == nodes
    &&& forall|i: int, j: int|
        0 <= i < order.len() && 0 <= j < order.len() && edges.contains(
            (#[trigger] order[i], #[trigger] order[j]),
        ) ==> i < j
}

/// `GraphMap::new`: a graph without nodes and without edges.
#[verifier::external_body]
pub(crate) fn graph_new() -> (g: GraphMap<usize, i8, Directed>)
    ensures
        graph_nodes(g) == Set::<usize>::empty(),
        graph_edges(g) == Set::<(usize, usize)>::empty(),
{
    GraphMap::new()
}

/// `GraphMap::node_count`: the number of nodes.
#[verifier::external_body]
pub(crate) fn graph_node_count(g: &GraphMap<usize, i8, Directed>) -> (n: usize)
    ensures
        graph_nodes(*g).finite() ==> n == graph_nodes(*g).len(),
{
    g.node_count()
}

/// `GraphMap::add_node`: the node is in the graph afterwards, and nothing
/// else has changed.
#[verifier::external_body]
pub(crate) fn graph_add_node(g: &mut GraphMap<usize, i8, Directed>, n: usize)
    ensures
        graph_nodes(*final(g)) == graph_nodes(*old(g)).insert(n),
        graph_edges(*final(g)) == graph_edges(*old(g)),
{
    g.add_node(n);
}

/// `GraphMap::contains_edge`: whether the graph holds the edge from `a` to `b`.
#[verifier::external_body]
pub(crate) fn graph_contains_edge(g: &GraphMap<usize, i8, Directed>, a: usize, b: usize) -> (r:
    bool)
    ensures
        r == graph_edges(*g).contains((a, b)),
{
    g.contains_edge(a, b)
}

/// `GraphMap::add_edge`: the edge from `a` to `b` is in the graph afterwards,
/// and so are its two ends. The result is the weight that the edge had, if
/// the graph held it before.
#[verifier::external_body]
pub(crate) fn graph_add_edge(
    g: &mut GraphMap<usize, i8, Directed>,
    a: usize,
    b: usize,
    weight: i8,
) -> (r: Option<i8>)
    ensures
        graph_nodes(*final(g)) == graph_nodes(*old(g)).insert(a).insert(b),
        graph_edges(*final(g)) == graph_edges(*old(g)).insert((a, b)),
        r is Some <==> graph_edges(*old(g)).contains((a, b)),
{
    g.add_edge(a, b, weight)
}

/// `GraphMap::neighbors_directed` with `Outgoing`: the targets of the edges
/// that leave `a`, in no stated order.
#[verifier::external_body]
pub(crate) fn graph_successors(g: &GraphMap<usize, i8, Directed>, a: usize) -> (r: Vec<usize>)
    ensures
        forall|b: usize| r@.contains(b) <==> graph_edges(*g).contains((a, b)),
{
    g.neighbors_directed(a, petgraph::Direction::Outgoing).collect()
}

/// `petgraph::algo::toposort`: a topological order of the nodes where the
/// graph holds no cycle, and an error where it holds one. Which of the
/// topological orders comes back is not stated.
#[verifier::external_body]
pub(crate) fn graph_toposort(g: &GraphMap<usize, i8, Directed>) -> (r: Result<
    Vec<usize>,
    Cycle<usize>,
>)
    ensures
        match r {
            Ok(order) => !has_cycle(graph_edges(*g)) && is_topological(
                order@,
                graph_nodes(*g),
                graph_edges(*g),
            ),
            Err(_) => has_cycle(graph_edges(*g)),
        },
{
    petgraph::algo::toposort(g, None)
}

} // verus!
