//! The graph store and search engine, supplied by the petgraph crate.
//!
//! The store is an undirected multigraph holding one [`Network`] per edge;
//! the search is petgraph's A* with a zero heuristic, which is Dijkstra's
//! algorithm. Everything petgraph does is taken on trust through the
//! contracts below; all logic around it is verified against them.

use vstd::prelude::*;

use crate::network::{Network, Objective};
use crate::paths::{is_route, route_weight, table_weight, EdgeEntry};

verus! {

#[verifier::external_type_specification]
#[verifier::external_body]
#[verifier::reject_recursive_types(N)]
#[verifier::reject_recursive_types(E)]
#[verifier::reject_recursive_types(Ty)]
#[verifier::reject_recursive_types(Ix)]
pub struct ExGraph<N, E, Ty, Ix>(petgraph::graph::Graph<N, E, Ty, Ix>);

#[verifier::external_type_specification]
#[verifier::external_body]
pub struct ExUndirected(petgraph::Undirected);

/// The store: datacenter labels on the nodes, whole networks on the edges,
/// undirected, indexed by plain `usize`.
pub type LinkStore = petgraph::graph::Graph<String, Network, petgraph::Undirected, usize>;

/// How many nodes a store holds.
pub uninterp spec fn store_node_count(g: LinkStore) -> int;

/// The edge table a store holds: endpoint node indices with the cost and
/// bandwidth figures of the network stored on each edge, in insertion
/// order.
pub uninterp spec fn store_edges(g: LinkStore) -> Seq<EdgeEntry>;

/// Relies on petgraph's `Graph::with_capacity`: a graph with no nodes and
/// no edges.
#[verifier::external_body]
pub(crate) fn store_new() -> (g: LinkStore)
    ensures
        store_node_count(g) == 0,
        store_edges(g) == Seq::<EdgeEntry>::empty(),
{
    petgraph::graph::Graph::with_capacity(0, 0)
}

/// Relies on petgraph's `Graph::add_node`: appends one node and returns
/// its index, which petgraph assigns consecutively from zero; with `usize`
/// indices it does not panic.
#[verifier::external_body]
pub(crate) fn store_add_node(g: &mut LinkStore, label: String) -> (ix: usize)
    ensures
        store_node_count(*final(g)) == store_node_count(*old(g)) + 1,
        store_edges(*final(g)) == store_edges(*old(g)),
        ix == store_node_count(*old(g)),
{
    g.add_node(label).index()
}

/// Relies on petgraph's `Graph::add_edge`: appends one edge between two
/// existing nodes, keeping parallel edges. It panics on a node index out
/// of bounds, which the precondition rules out; with `usize` indices there
/// is no edge-count limit.
#[verifier::external_body]
pub(crate) fn store_add_edge(g: &mut LinkStore, a: usize, b: usize, network: &Network)
    requires
        a < store_node_count(*old(g)),
        b < store_node_count(*old(g)),
    ensures
        store_node_count(*final(g)) == store_node_count(*old(g)),
        store_edges(*final(g)) == store_edges(*old(g)).push(
            (a as int, b as int, network@.cost, network@.bandwidth),
        ),
{
    let a_ix = petgraph::graph::NodeIndex::new(a);
    let b_ix = petgraph::graph::NodeIndex::new(b);
    g.add_edge(a_ix, b_ix, network.clone());
}

/// Relies on petgraph's `astar` with a zero heuristic, which is Dijkstra's
/// algorithm: over the store's undirected edge table, weighted by the
/// given objective's figure of each edge's network, it returns the weight
/// of a minimum-weight route from `s` to `t` together with that route's
/// stop sequence, or `None` exactly when no route joins `s` to `t`. When
/// `s` is `t` it returns the zero-weight one-stop route at once. The
/// precondition keeps every sum the search forms within `u64`.
#[verifier::external_body]
pub(crate) fn store_min_route(g: &LinkStore, s: usize, t: usize, obj: Objective) -> (r: Option<
    (u64, Vec<usize>),
>)
    requires
        s < store_node_count(*g),
        t < store_node_count(*g),
        2 * table_weight(store_edges(*g), obj) <= u64::MAX,
    ensures
        match r {
            Some(found) => {
                let stop_seq = found.1@.map_values(|v: usize| v as int);
                &&& exists|hops: Seq<int>|
                    is_route(store_edges(*g), hops, stop_seq, s as int, t as int)
                        && route_weight(store_edges(*g), hops, obj) == found.0
                &&& forall|hops: Seq<int>, stops: Seq<int>|
                    is_route(store_edges(*g), hops, stops, s as int, t as int)
                        ==> found.0 <= route_weight(store_edges(*g), hops, obj)
                &&& s == t ==> found.0 == 0 && found.1@.len() == 1
            },
            None => forall|hops: Seq<int>, stops: Seq<int>|
                !is_route(store_edges(*g), hops, stops, s as int, t as int),
        },
{
    petgraph::algo::astar(
        g,
        petgraph::graph::NodeIndex::new(s),
        |n: petgraph::graph::NodeIndex<usize>| n.index() == t,
        |e: petgraph::graph::EdgeReference<'_, Network, usize>| e.weight().weight_under(obj),
        |_n| 0u64,
    ).map(|found| (found.0, found.1.into_iter().map(|n| n.index()).collect()))
}

} // verus!
