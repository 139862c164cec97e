//! Routes over an edge table.
//!
//! An edge table is the sequence of edges a graph holds, each edge a tuple
//! `(a, b, cost, bandwidth)` of its two endpoint node indices and the two
//! scalar figures of the network stored on it. A route is a walk over such
//! a table, given by the edge indices it traverses and the nodes it stops
//! at; its weight under an objective is the sum of the chosen scalar over
//! its edges.

use vstd::prelude::*;

use crate::network::{scalar_under, NetworkModel, Objective};

verus! {

/// An entry of an edge table: endpoints, cost figure, bandwidth figure.
pub type EdgeEntry = (int, int, u64, u64);

/// Whether edge `e` joins nodes `u` and `v` (in either orientation: edges
/// are undirected).
pub open spec fn joins(e: EdgeEntry, u: int, v: int) -> bool {
    (e.0 == u && e.1 == v) || (e.0 == v && e.1 == u)
}

/// The scalar figure of edge `e` under objective `obj`.
pub open spec fn entry_weight(e: EdgeEntry, obj: Objective) -> u64 {
    scalar_under(e.2, e.3, obj)
}

/// Whether `hops` (edge indices) and `stops` (node indices) form a walk
/// through `edges` from node `s` to node `t`: hop `i` joins stop `i` to
/// stop `i + 1`.
pub open spec fn is_route(
    edges: Seq<EdgeEntry>,
    hops: Seq<int>,
    stops: Seq<int>,
    s: int,
    t: int,
) -> bool {
    &&& stops.len() == hops.len() + 1
    &&& stops[0] == s
    &&& stops[stops.len() - 1] == t
    &&& forall|i: int|
        0 <= i < hops.len() ==> 0 <= #[trigger] hops[i] < edges.len() && joins(
            edges[hops[i]],
            stops[i],
            stops[i + 1],
        )
}

/// Whether any route joins `s` to `t` over `edges`.
pub open spec fn has_route(edges: Seq<EdgeEntry>, s: int, t: int) -> bool {
    exists|hops: Seq<int>, stops: Seq<int>| is_route(edges, hops, stops, s, t)
}

/// The summed weight of the edges a route traverses.
pub open spec fn route_weight(edges: Seq<EdgeEntry>, hops: Seq<int>, obj: Objective) -> int
    decreases hops.len(),
{
    if hops.len() == 0 {
        0
    } else {
        route_weight(edges, hops.drop_last(), obj) + entry_weight(edges[hops.last()], obj)
    }
}

/// The summed weight of a whole edge table: every route through distinct
/// edges weighs no more than this.
pub open spec fn table_weight(edges: Seq<EdgeEntry>, obj: Objective) -> int
    decreases edges.len(),
{
    if edges.len() == 0 {
        0
    } else {
        table_weight(edges.drop_last(), obj) + entry_weight(edges.last(), obj)
    }
}

/// The summed weight of a list of networks under an objective.
pub open spec fn networks_weight(nets: Seq<NetworkModel>, obj: Objective) -> int
    decreases nets.len(),
{
    if nets.len() == 0 {
        0
    } else {
        networks_weight(nets.drop_last(), obj) + scalar_under(
            nets.last().cost,
            nets.last().bandwidth,
            obj,
        )
    }
}

/// A route of no hops joins every node to itself.
pub proof fn lemma_trivial_route(edges: Seq<EdgeEntry>, s: int)
    ensures
        has_route(edges, s, s),
{
    let hops = Seq::<int>::empty();
    let stops = seq![s];
    assert(is_route(edges, hops, stops, s, s));
}

/// Appending one joining edge extends a route by one hop and its weight by
/// that edge's.
pub proof fn lemma_route_extend(
    edges: Seq<EdgeEntry>,
    hops: Seq<int>,
    stops: Seq<int>,
    s: int,
    t: int,
    e: int,
    next: int,
    obj: Objective,
)
    requires
        is_route(edges, hops, stops, s, t),
        0 <= e < edges.len(),
        joins(edges[e], t, next),
    ensures
        is_route(edges, hops.push(e), stops.push(next), s, next),
        route_weight(edges, hops.push(e), obj) == route_weight(edges, hops, obj) + entry_weight(
            edges[e],
            obj,
        ),
{
    let hops2 = hops.push(e);
    let stops2 = stops.push(next);
    assert(hops2.drop_last() =~= hops);
    assert(forall|i: int| 0 <= i < hops.len() ==> hops2[i] == #[trigger] hops[i]);
    assert(forall|i: int| 0 <= i < stops.len() ==> stops2[i] == #[trigger] stops[i]);
    assert(is_route(edges, hops2, stops2, s, next));
}

} // verus!
