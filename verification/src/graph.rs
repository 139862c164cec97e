//! The datacenter graph: ingestion of networks and shortest-path queries.

use vstd::prelude::*;

use crate::engine::{
    store_add_edge, store_add_node, store_edges, store_min_route, store_new, store_node_count,
    LinkStore,
};
use crate::network::{objective_of, Network, NetworkModel, Objective};
use crate::paths::{
    entry_weight, has_route, is_route, joins, lemma_route_extend, lemma_trivial_route,
    networks_weight, route_weight, table_weight, EdgeEntry,
};

verus! {

/// Mathematical view of an edge: the two endpoint node indices and the
/// network stored on it.
pub struct EdgeModel {
    pub a: int,
    pub b: int,
    pub network: NetworkModel,
}

impl EdgeModel {
    /// The entry this edge contributes to the engine's edge table.
    pub open spec fn entry(self) -> EdgeEntry {
        (self.a, self.b, self.network.cost, self.network.bandwidth)
    }
}

/// Mathematical view of a [`DatacenterGraph`]: the node table (datacenter
/// identifiers, in order of first appearance), the edge table, and the
/// ingestion history.
pub struct GraphModel {
    pub nodes: Seq<Seq<char>>,
    pub edges: Seq<EdgeModel>,
    pub networks: Seq<NetworkModel>,
}

impl GraphModel {
    /// The engine's view of the edge table.
    pub open spec fn entries(self) -> Seq<EdgeEntry> {
        self.edges.map_values(|e: EdgeModel| e.entry())
    }
}

/// One edge of the graph: the indices of the two datacenter nodes it joins
/// and a value copy of the network that joins them.
pub struct EdgeRec {
    pub a: usize,
    pub b: usize,
    pub network: Network,
}

impl View for EdgeRec {
    type V = EdgeModel;

    open spec fn view(&self) -> EdgeModel {
        EdgeModel { a: self.a as int, b: self.b as int, network: self.network@ }
    }
}

/// Appends to `nodes` the identifiers among `dcs` not already present, in
/// the order `dcs` gives them.
pub open spec fn insert_ids(nodes: Seq<Seq<char>>, dcs: Seq<Seq<char>>) -> Seq<Seq<char>> {
    nodes + dcs.filter(|d: Seq<char>| !nodes.contains(d))
}

/// The index of the first occurrence of `id` in `nodes`, or -1 when absent.
pub open spec fn node_idx(nodes: Seq<Seq<char>>, id: Seq<char>) -> int
    decreases nodes.len(),
{
    if nodes.len() == 0 {
        -1
    } else if nodes[0] == id {
        0
    } else {
        let rest = node_idx(nodes.drop_first(), id);
        if rest < 0 {
            -1
        } else {
            rest + 1
        }
    }
}

pub proof fn lemma_node_idx_first(nodes: Seq<Seq<char>>, id: Seq<char>, m: int)
    requires
        0 <= m < nodes.len(),
        nodes[m] == id,
        forall|k: int| 0 <= k < m ==> nodes[k] != id,
    ensures
        node_idx(nodes, id) == m,
    decreases nodes.len(),
{
    if m > 0 {
        let rest = nodes.drop_first();
        assert(rest[m - 1] == nodes[m]);
        assert forall|k: int| 0 <= k < m - 1 implies rest[k] != id by {
            assert(rest[k] == nodes[k + 1]);
        }
        lemma_node_idx_first(rest, id, m - 1);
    }
}

pub proof fn lemma_concat_contains(s1: Seq<Seq<char>>, s2: Seq<Seq<char>>, id: Seq<char>)
    ensures
        (s1 + s2).contains(id) <==> (s1.contains(id) || s2.contains(id)),
{
    if s1.contains(id) {
        let i = choose|i: int| 0 <= i < s1.len() && s1[i] == id;
        assert((s1 + s2)[i] == id);
    }
    if s2.contains(id) {
        let i = choose|i: int| 0 <= i < s2.len() && s2[i] == id;
        assert((s1 + s2)[s1.len() + i] == id);
    }
    if (s1 + s2).contains(id) {
        let i = choose|i: int| 0 <= i < (s1 + s2).len() && (s1 + s2)[i] == id;
        if i < s1.len() {
            assert(s1[i] == id);
        } else {
            assert(s2[i - s1.len()] == id);
        }
    }
}

/// What a filter keeps was in the list.
pub proof fn lemma_filter_sub(s: Seq<Seq<char>>, pred: spec_fn(Seq<char>) -> bool, x: Seq<char>)
    ensures
        s.filter(pred).contains(x) ==> s.contains(x),
    decreases s.len(),
{
    reveal(Seq::filter);
    if s.len() > 0 && s.filter(pred).contains(x) {
        let sub = s.drop_last().filter(pred);
        lemma_filter_sub(s.drop_last(), pred, x);
        if x == s.last() {
            assert(s[s.len() - 1] == x);
        } else {
            assert(sub.contains(x)) by {
                let i = choose|i: int|
                    0 <= i < s.filter(pred).len() && s.filter(pred)[i] == x;
                if pred(s.last()) {
                    assert(s.filter(pred) == sub.push(s.last()));
                    assert(i < sub.len());
                    assert(sub[i] == x);
                }
            }
            assert(s.drop_last().contains(x));
            let i = choose|i: int| 0 <= i < s.drop_last().len() && s.drop_last()[i] == x;
            assert(s[i] == x);
        }
    }
}

/// A filter that keeps nothing returns the empty list.
pub proof fn lemma_filter_none(s: Seq<Seq<char>>, pred: spec_fn(Seq<char>) -> bool)
    requires
        forall|i: int| 0 <= i < s.len() ==> !pred(s[i]),
    ensures
        s.filter(pred) == Seq::<Seq<char>>::empty(),
    decreases s.len(),
{
    reveal(Seq::filter);
    if s.len() > 0 {
        assert(forall|i: int|
            0 <= i < s.drop_last().len() ==> s.drop_last()[i] == s[i]);
        lemma_filter_none(s.drop_last(), pred);
        assert(!pred(s[s.len() - 1]));
    }
}

/// The edge joining datacenters `p` and `q` of `net`, their identifiers
/// resolved to node indices in `nodes`.
pub open spec fn pair_edge(nodes: Seq<Seq<char>>, net: NetworkModel, p: int, q: int) -> EdgeModel {
    EdgeModel {
        a: node_idx(nodes, net.datacenters[p]),
        b: node_idx(nodes, net.datacenters[q]),
        network: net,
    }
}

/// The edges pairing datacenter `i` of `net` with each later one, in order.
pub open spec fn pair_row(nodes: Seq<Seq<char>>, net: NetworkModel, i: int) -> Seq<EdgeModel> {
    Seq::new((net.datacenters.len() - i - 1) as nat, |t: int| pair_edge(nodes, net, i, i + 1 + t))
}

/// The clique edges of `net` from row `i` on: all rows laid end to end.
pub open spec fn clique_rows(nodes: Seq<Seq<char>>, net: NetworkModel, i: int) -> Seq<EdgeModel>
    decreases net.datacenters.len() - i,
{
    if net.datacenters.len() <= i {
        Seq::empty()
    } else {
        pair_row(nodes, net, i) + clique_rows(nodes, net, i + 1)
    }
}

/// The complete set of pairwise edges generated from one network's
/// datacenter set: one edge per unordered pair, in row order.
pub open spec fn net_clique(nodes: Seq<Seq<char>>, net: NetworkModel) -> Seq<EdgeModel> {
    clique_rows(nodes, net, 0)
}

/// The number of unordered pairs among `k` items: 0 + 1 + ... + (k - 1).
pub open spec fn pair_count(k: int) -> int
    decreases k,
{
    if k <= 0 {
        0
    } else {
        pair_count(k - 1) + (k - 1)
    }
}

pub proof fn lemma_pair_count_closed(k: int)
    requires
        k >= 0,
    ensures
        pair_count(k) == k * (k - 1) / 2,
    decreases k,
{
    if k > 0 {
        lemma_pair_count_closed(k - 1);
        assert(pair_count(k) == pair_count(k - 1) + (k - 1));
        assert(pair_count(k - 1) == (k - 1) * (k - 2) / 2);
        assert((k - 1) * (k - 2) / 2 + (k - 1) == k * (k - 1) / 2) by (nonlinear_arith)
            requires
                k >= 1,
        ;
    } else {
        assert(k * (k - 1) / 2 == 0) by (nonlinear_arith)
            requires
                k == 0,
        ;
    }
}

pub proof fn lemma_clique_rows_len(nodes: Seq<Seq<char>>, net: NetworkModel, i: int)
    requires
        0 <= i <= net.datacenters.len(),
    ensures
        clique_rows(nodes, net, i).len() == pair_count(net.datacenters.len() - i),
    decreases net.datacenters.len() - i,
{
    if i < net.datacenters.len() {
        lemma_clique_rows_len(nodes, net, i + 1);
    }
}

/// Ingesting the same network twice makes a true multigraph: the second
/// ingestion finds every datacenter already registered, so it adds no
/// nodes, and it lays down the same clique of edges once more — two
/// independent parallel edges per unordered pair, one from each
/// ingestion — while the history gains the network a second time. Stated
/// over the model transitions of [`DatacenterGraph::add_network`].
pub proof fn lemma_repeat_ingest(m: GraphModel, net: NetworkModel)
    requires
        net.wf(),
    ensures
        ({
            let once_nodes = insert_ids(m.nodes, net.datacenters);
            let clique = net_clique(once_nodes, net);
            &&& insert_ids(once_nodes, net.datacenters) == once_nodes
            &&& net_clique(insert_ids(once_nodes, net.datacenters), net) == clique
            &&& ((m.edges + clique) + clique) == m.edges + (clique + clique)
            &&& ((m.edges + clique) + clique).len() == m.edges.len() + 2 * pair_count(
                net.datacenters.len() as int,
            )
            &&& (m.networks.push(net)).push(net).len() == m.networks.len() + 2
        }),
{
    let dcs = net.datacenters;
    let keep0 = |d: Seq<char>| !m.nodes.contains(d);
    let once_nodes = insert_ids(m.nodes, dcs);
    let keep1 = |d: Seq<char>| !once_nodes.contains(d);
    assert forall|i: int| 0 <= i < dcs.len() implies !keep1(dcs[i]) by {
        if !m.nodes.contains(dcs[i]) {
            assert(dcs.contains(dcs[i]));
            dcs.lemma_filter_contains(keep0, i);
        }
        lemma_concat_contains(m.nodes, dcs.filter(keep0), dcs[i]);
    }
    lemma_filter_none(dcs, keep1);
    assert(insert_ids(once_nodes, dcs) =~= once_nodes);
    lemma_clique_rows_len(once_nodes, net, 0);
    assert(((m.edges + net_clique(once_nodes, net)) + net_clique(once_nodes, net)) =~= m.edges + (
    net_clique(once_nodes, net) + net_clique(once_nodes, net)));
}

/// Why a shortest-path query failed before any search ran. A genuinely
/// disconnected pair is not a failure: it is reported as an absent path.
#[derive(Clone, Copy, Debug, PartialEq, Eq, Structural)]
pub enum QueryError {
    /// The start or the end identifier names no datacenter in the graph.
    UnknownEndpoint,
    /// The objective string is neither of the two recognized modes.
    UnsupportedObjective,
}

/// A list of networks paired hop by hop with route edges weighs the same
/// as the route.
pub proof fn lemma_route_networks_weight(edges: Seq<EdgeModel>, hops: Seq<int>, obj: Objective)
    requires
        forall|i: int| 0 <= i < hops.len() ==> 0 <= #[trigger] hops[i] < edges.len(),
    ensures
        networks_weight(hops.map_values(|x: int| edges[x].network), obj) == route_weight(
            edges.map_values(|e: EdgeModel| e.entry()),
            hops,
            obj,
        ),
    decreases hops.len(),
{
    if hops.len() > 0 {
        assert(forall|i: int|
            0 <= i < hops.drop_last().len() ==> 0 <= #[trigger] hops.drop_last()[i]
                < edges.len());
        lemma_route_networks_weight(edges, hops.drop_last(), obj);
        assert(hops.map_values(|x: int| edges[x].network).drop_last() =~= hops.drop_last()
            .map_values(|x: int| edges[x].network));
        assert(hops.map_values(|x: int| edges[x].network).last() == edges[hops.last()].network);
        assert(edges.map_values(|e: EdgeModel| e.entry())[hops.last()] == edges[hops.last()].entry());
    }
}

/// Linear scan for a minimum-weight edge joining nodes `u` and `v`.
fn min_edge_between(recs: &Vec<EdgeRec>, u: usize, v: usize, obj: Objective) -> (r: Option<usize>)
    ensures
        ({
            let ems = recs@.map_values(|e: EdgeRec| e@);
            match r {
                Some(ix) => {
                    &&& ix < recs.len()
                    &&& joins(ems[ix as int].entry(), u as int, v as int)
                    &&& forall|m: int|
                        0 <= m < ems.len() && joins(#[trigger] ems[m].entry(), u as int, v as int)
                            ==> entry_weight(ems[ix as int].entry(), obj) <= entry_weight(
                            ems[m].entry(),
                            obj,
                        )
                },
                None => forall|m: int|
                    0 <= m < ems.len() ==> !joins(#[trigger] ems[m].entry(), u as int, v as int),
            }
        }),
{
    let ghost ems = recs@.map_values(|e: EdgeRec| e@);
    let mut best: Option<usize> = None;
    let mut i: usize = 0;
    while i < recs.len()
        invariant
            0 <= i <= recs.len(),
            ems == recs@.map_values(|e: EdgeRec| e@),
            match best {
                Some(ix) => {
                    &&& ix < i
                    &&& joins(ems[ix as int].entry(), u as int, v as int)
                    &&& forall|m: int|
                        0 <= m < i && joins(#[trigger] ems[m].entry(), u as int, v as int)
                            ==> entry_weight(ems[ix as int].entry(), obj) <= entry_weight(
                            ems[m].entry(),
                            obj,
                        )
                },
                None => forall|m: int|
                    0 <= m < i ==> !joins(#[trigger] ems[m].entry(), u as int, v as int),
            },
        decreases recs.len() - i,
    {
        let here = (recs[i].a == u && recs[i].b == v) || (recs[i].a == v && recs[i].b == u);
        proof {
            assert(ems[i as int] == recs@[i as int]@);
            assert(here == joins(ems[i as int].entry(), u as int, v as int));
        }
        if here {
            let w = recs[i].network.weight_under(obj);
            match best {
                None => { best = Some(i); },
                Some(bix) => {
                    let bw = recs[bix].network.weight_under(obj);
                    if w < bw {
                        best = Some(i);
                    }
                },
            }
        }
        i += 1;
    }
    best
}

/// An undirected multigraph of datacenters. Nodes are datacenter
/// identifiers, created the first time any ingested network names them;
/// every ingested network adds one edge per unordered pair of datacenters
/// it connects, and is appended to an ingestion history. Built once by
/// repeated [`DatacenterGraph::add_network`] calls, then queried read-only.
pub struct DatacenterGraph {
    store: LinkStore,
    node_ids: Vec<String>,
    edge_recs: Vec<EdgeRec>,
    networks: Vec<Network>,
}

impl View for DatacenterGraph {
    type V = GraphModel;

    closed spec fn view(&self) -> GraphModel {
        GraphModel {
            nodes: self.node_ids.deep_view(),
            edges: self.edge_recs@.map_values(|e: EdgeRec| e@),
            networks: self.networks@.map_values(|n: Network| n@),
        }
    }
}

/// Whether two string slices hold the same characters.
pub(crate) fn str_eq(a: &str, b: &str) -> (r: bool)
    ensures
        r == (a@ == b@),
{
    let owned_a: String = a.to_owned();
    let owned_b: String = b.to_owned();
    owned_a.eq(&owned_b)
}

/// Linear search for the first identifier in `ids` spelling `id`.
fn find_node(ids: &Vec<String>, id: &str) -> (r: Option<usize>)
    ensures
        match r {
            Some(ix) => ids.deep_view().contains(id@) && ix < ids.len() && ix as int == node_idx(
                ids.deep_view(),
                id@,
            ),
            None => !ids.deep_view().contains(id@),
        },
{
    let ghost dv = ids.deep_view();
    let mut i: usize = 0;
    while i < ids.len()
        invariant
            0 <= i <= ids.len(),
            dv == ids.deep_view(),
            forall|k: int| 0 <= k < i ==> dv[k] != id@,
        decreases ids.len() - i,
    {
        if str_eq(ids[i].as_str(), id) {
            proof {
                assert(ids.deep_view()[i as int] == id@);
                assert(ids.deep_view().contains(id@));
                lemma_node_idx_first(ids.deep_view(), id@, i as int);
            }
            return Some(i);
        }
        assert(dv[i as int] != id@);
        i += 1;
    }
    proof {
        assert(forall|k: int| 0 <= k < dv.len() ==> dv[k] != id@);
    }
    None
}

impl DatacenterGraph {
    /// The graph is well formed: the engine's store mirrors the node and
    /// edge tables, identifiers are distinct, and every edge joins two
    /// existing nodes.
    pub closed spec fn wf(self) -> bool {
        &&& store_node_count(self.store) == self@.nodes.len()
        &&& store_edges(self.store) == self@.entries()
        &&& forall|i: int, j: int|
            0 <= i < j < self@.nodes.len() ==> self@.nodes[i] != self@.nodes[j]
        &&& forall|i: int|
            0 <= i < self@.edges.len() ==> 0 <= #[trigger] self@.edges[i].a < self@.nodes.len()
                && 0 <= self@.edges[i].b < self@.nodes.len()
    }

    /// An empty graph: no datacenters, no edges, no history.
    pub fn new() -> (r: DatacenterGraph)
        ensures
            r.wf(),
            r@.nodes == Seq::<Seq<char>>::empty(),
            r@.edges == Seq::<EdgeModel>::empty(),
            r@.networks == Seq::<NetworkModel>::empty(),
    {
        let r = DatacenterGraph {
            store: store_new(),
            node_ids: Vec::new(),
            edge_recs: Vec::new(),
            networks: Vec::new(),
        };
        proof {
            assert(r@.nodes =~= Seq::<Seq<char>>::empty());
            assert(r@.edges =~= Seq::<EdgeModel>::empty());
            assert(r@.networks =~= Seq::<NetworkModel>::empty());
            assert(r@.entries() =~= Seq::<EdgeEntry>::empty());
        }
        r
    }

    /// Ingests one network: appends it to the history unconditionally,
    /// creates a node for each of its datacenters not yet present, and adds
    /// one edge per unordered pair of its datacenters, each carrying a value
    /// copy of the network. A network naming fewer than two datacenters adds
    /// no edges.
    pub fn add_network(&mut self, network: Network)
        requires
            old(self).wf(),
            network@.wf(),
        ensures
            final(self).wf(),
            final(self)@.networks == old(self)@.networks.push(network@),
            final(self)@.nodes == insert_ids(old(self)@.nodes, network@.datacenters),
            final(self)@.edges == old(self)@.edges + net_clique(final(self)@.nodes, network@),
            final(self)@.edges.len() == old(self)@.edges.len() + network@.datacenters.len() * (
            network@.datacenters.len() - 1) / 2,
            old(self)@.nodes.len() <= final(self)@.nodes.len() <= old(self)@.nodes.len()
                + network@.datacenters.len(),
            network@.datacenters.len() <= 1 ==> final(self)@.edges == old(self)@.edges,
    {
        let ghost nodes0 = old(self)@.nodes;
        let ghost dcs = network@.datacenters;
        let ghost keep = |d: Seq<char>| !nodes0.contains(d);

        self.networks.push(network.clone());
        proof {
            assert(self@.networks =~= old(self)@.networks.push(network@));
        }

        // Register each datacenter of the network that is not yet a node.
        let mut i: usize = 0;
        while i < network.datacenters().len()
            invariant
                0 <= i <= dcs.len(),
                dcs == network@.datacenters,
                network@.wf(),
                keep == (|d: Seq<char>| !nodes0.contains(d)),
                self@.nodes == insert_ids(nodes0, dcs.take(i as int)),
                self@.edges == old(self)@.edges,
                self@.networks == old(self)@.networks.push(network@),
                store_node_count(self.store) == self@.nodes.len(),
                store_edges(self.store) == self@.entries(),
                forall|a: int, b: int|
                    0 <= a < b < self@.nodes.len() ==> self@.nodes[a] != self@.nodes[b],
                forall|e: int|
                    0 <= e < self@.edges.len() ==> 0 <= #[trigger] self@.edges[e].a
                        < self@.nodes.len() && 0 <= self@.edges[e].b < self@.nodes.len(),
            decreases dcs.len() - i,
        {
            let ghost cur = self@.nodes;
            let ghost fore = dcs.take(i as int).filter(keep);
            let id = &network.datacenters()[i];
            proof {
                assert(id@ == dcs[i as int]);
                assert(!dcs.take(i as int).contains(dcs[i as int])) by {
                    if dcs.take(i as int).contains(dcs[i as int]) {
                        let t = choose|t: int|
                            0 <= t < i && dcs.take(i as int)[t] == dcs[i as int];
                        assert(dcs[t] == dcs[i as int]);
                    }
                }
                lemma_filter_sub(dcs.take(i as int), keep, dcs[i as int]);
                lemma_concat_contains(nodes0, fore, dcs[i as int]);
            }
            let found = find_node(&self.node_ids, id.as_str());
            proof {
                reveal_with_fuel(Seq::filter, 2);
                assert(dcs.take(i + 1 as int) =~= dcs.take(i as int) + seq![dcs[i as int]]);
                Seq::filter_distributes_over_add(dcs.take(i as int), seq![dcs[i as int]], keep);
                assert(seq![dcs[i as int]].drop_last() =~= Seq::<Seq<char>>::empty());
                if keep(dcs[i as int]) {
                    assert(seq![dcs[i as int]].filter(keep) =~= seq![dcs[i as int]]);
                } else {
                    assert(seq![dcs[i as int]].filter(keep) =~= Seq::<Seq<char>>::empty());
                }
            }
            if found.is_none() {
                let _ix = store_add_node(&mut self.store, id.clone());
                self.node_ids.push(id.clone());
                proof {
                    assert(self@.nodes =~= cur.push(dcs[i as int]));
                    assert(self@.nodes =~= insert_ids(nodes0, dcs.take(i + 1 as int)));
                    assert forall|a: int, b: int|
                        0 <= a < b < self@.nodes.len() implies self@.nodes[a]
                        != self@.nodes[b] by {
                        if b == self@.nodes.len() - 1 {
                            assert(cur.contains(cur[a]));
                        }
                    }
                    assert(self@.entries() =~= store_edges(self.store));
                }
            } else {
                proof {
                    assert(self@.nodes =~= insert_ids(nodes0, dcs.take(i + 1 as int)));
                }
            }
            i += 1;
        }
        proof {
            assert(dcs.take(dcs.len() as int) =~= dcs);
            dcs.lemma_filter_len(keep);
        }

        // Resolve every datacenter of the network to its node index.
        let ghost new_nodes = self@.nodes;
        let mut idxs: Vec<usize> = Vec::new();
        let mut p: usize = 0;
        while p < network.datacenters().len()
            invariant
                0 <= p <= dcs.len(),
                dcs == network@.datacenters,
                new_nodes == self@.nodes,
                keep == (|d: Seq<char>| !nodes0.contains(d)),
                self@.nodes == insert_ids(nodes0, dcs),
                idxs@.len() == p,
                forall|t: int|
                    0 <= t < p ==> #[trigger] idxs@[t] < new_nodes.len() && idxs@[t] as int
                        == node_idx(new_nodes, dcs[t]),
                forall|a: int, b: int|
                    0 <= a < b < self@.nodes.len() ==> self@.nodes[a] != self@.nodes[b],
            decreases dcs.len() - p,
        {
            let id = &network.datacenters()[p];
            proof {
                assert(id@ == dcs[p as int]);
                if !nodes0.contains(dcs[p as int]) {
                    assert(dcs.contains(dcs[p as int]));
                    dcs.lemma_filter_contains(keep, p as int);
                }
                lemma_concat_contains(nodes0, dcs.filter(keep), dcs[p as int]);
                assert(new_nodes.contains(dcs[p as int]));
            }
            let found = find_node(&self.node_ids, id.as_str());
            match found {
                Some(ix) => { idxs.push(ix); },
                None => {
                    proof {
                        assert(false);
                    }
                },
            }
            p += 1;
        }
        i = 0;
        let ghost net_m = network@;
        let ghost edges0 = old(self)@.edges;
        let ghost total = net_clique(new_nodes, net_m);
        let ghost mut done: Seq<EdgeModel> = Seq::empty();
        proof {
            assert(self@.edges =~= edges0 + done);
        }

        // Add one edge per unordered pair of the network's datacenters.
        let k = idxs.len();
        while i < k
            invariant
                0 <= i <= k,
                k == dcs.len(),
                dcs == net_m.datacenters,
                net_m == network@,
                new_nodes == self@.nodes,
                total == net_clique(new_nodes, net_m),
                self@.networks == old(self)@.networks.push(network@),
                self@.edges == edges0 + done,
                done + clique_rows(new_nodes, net_m, i as int) == total,
                idxs@.len() == k,
                forall|t: int|
                    0 <= t < k ==> #[trigger] idxs@[t] < new_nodes.len() && idxs@[t] as int
                        == node_idx(new_nodes, dcs[t]),
                store_node_count(self.store) == self@.nodes.len(),
                store_edges(self.store) == self@.entries(),
                forall|a: int, b: int|
                    0 <= a < b < self@.nodes.len() ==> self@.nodes[a] != self@.nodes[b],
                forall|e: int|
                    0 <= e < self@.edges.len() ==> 0 <= #[trigger] self@.edges[e].a
                        < self@.nodes.len() && 0 <= self@.edges[e].b < self@.nodes.len(),
            decreases k - i,
        {
            let mut j: usize = i + 1;
            proof {
                assert(clique_rows(new_nodes, net_m, i as int) == pair_row(new_nodes, net_m, i as int)
                    + clique_rows(new_nodes, net_m, i + 1 as int));
                assert(pair_row(new_nodes, net_m, i as int).skip(0) =~= pair_row(
                    new_nodes,
                    net_m,
                    i as int,
                ));
            }
            while j < k
                invariant
                    0 <= i < j <= k,
                    k == dcs.len(),
                    dcs == net_m.datacenters,
                    net_m == network@,
                    new_nodes == self@.nodes,
                    total == net_clique(new_nodes, net_m),
                    self@.networks == old(self)@.networks.push(network@),
                    self@.edges == edges0 + done,
                    done + pair_row(new_nodes, net_m, i as int).skip(j - i - 1) + clique_rows(
                        new_nodes,
                        net_m,
                        i + 1 as int,
                    ) == total,
                    idxs@.len() == k,
                    forall|t: int|
                        0 <= t < k ==> #[trigger] idxs@[t] < new_nodes.len() && idxs@[t] as int
                            == node_idx(new_nodes, dcs[t]),
                    store_node_count(self.store) == self@.nodes.len(),
                    store_edges(self.store) == self@.entries(),
                    forall|a: int, b: int|
                        0 <= a < b < self@.nodes.len() ==> self@.nodes[a] != self@.nodes[b],
                    forall|e: int|
                        0 <= e < self@.edges.len() ==> 0 <= #[trigger] self@.edges[e].a
                            < self@.nodes.len() && 0 <= self@.edges[e].b < self@.nodes.len(),
                decreases k - j,
            {
                let ghost row_rest = pair_row(new_nodes, net_m, i as int).skip(j - i - 1);
                let ghost e = pair_edge(new_nodes, net_m, i as int, j as int);
                let ghost recs0 = self@.edges;
                store_add_edge(&mut self.store, idxs[i], idxs[j], &network);
                self.edge_recs.push(
                    EdgeRec { a: idxs[i], b: idxs[j], network: network.clone() },
                );
                proof {
                    assert(self@.edges =~= recs0.push(e));
                    assert(self@.entries() =~= store_edges(self.store));
                    assert(row_rest =~= seq![e] + pair_row(new_nodes, net_m, i as int).skip(
                        j - i as int,
                    ));
                    done = done.push(e);
                    assert(self@.edges =~= edges0 + done);
                    assert(done + pair_row(new_nodes, net_m, i as int).skip(j - i as int)
                        + clique_rows(new_nodes, net_m, i + 1 as int) =~= total);
                }
                j += 1;
            }
            proof {
                assert(pair_row(new_nodes, net_m, i as int).skip(k - i - 1) =~= Seq::<
                    EdgeModel,
                >::empty());
                assert(done + clique_rows(new_nodes, net_m, i + 1 as int) =~= total);
            }
            i += 1;
        }
        proof {
            assert(clique_rows(new_nodes, net_m, k as int) =~= Seq::<EdgeModel>::empty());
            assert(done =~= total);
            lemma_clique_rows_len(new_nodes, net_m, 0);
            lemma_pair_count_closed(dcs.len() as int);
            if dcs.len() <= 1 {
                assert(self@.edges =~= old(self)@.edges);
            }
        }
    }

    /// Computes a minimum-weight path from `start` to `end` under the
    /// objective that `optimize` names, and returns the ordered list of
    /// networks traversed, one per hop (an empty list when `start` is
    /// `end`). An unknown endpoint and an unrecognized objective are typed
    /// failures; a disconnected pair is `Ok(None)`. The weight bound in the
    /// precondition keeps the search's sums within `u64`.
    pub fn shortest_path(&self, start: &str, end: &str, optimize: &str) -> (r: Result<
        Option<Vec<Network>>,
        QueryError,
    >)
        requires
            self.wf(),
            objective_of(optimize@) matches Some(obj) ==> 2 * table_weight(
                self@.entries(),
                obj,
            ) <= u64::MAX,
        ensures
            ({
                let nodes = self@.nodes;
                let known = nodes.contains(start@) && nodes.contains(end@);
                let entries = self@.entries();
                let s = node_idx(nodes, start@);
                let t = node_idx(nodes, end@);
                &&& (r == Result::<Option<Vec<Network>>, QueryError>::Err(
                    QueryError::UnknownEndpoint,
                ) <==> !known)
                &&& (r == Result::<Option<Vec<Network>>, QueryError>::Err(
                    QueryError::UnsupportedObjective,
                ) <==> known && objective_of(optimize@) is None)
                &&& (known ==> (objective_of(optimize@) matches Some(obj) ==> {
                    &&& r is Ok
                    &&& (r matches Ok(Some(path)) <==> has_route(entries, s, t))
                    &&& (r matches Ok(Some(path)) ==> {
                        &&& exists|hops: Seq<int>, stops: Seq<int>|
                            is_route(entries, hops, stops, s, t) && path@.map_values(
                                |n: Network| n@,
                            ) == hops.map_values(|x: int| self@.edges[x].network)
                        &&& forall|hops: Seq<int>, stops: Seq<int>|
                            is_route(entries, hops, stops, s, t) ==> networks_weight(
                                path@.map_values(|n: Network| n@),
                                obj,
                            ) <= route_weight(entries, hops, obj)
                    })
                    &&& (start@ == end@ ==> (r matches Ok(Some(path)) && path@.len() == 0))
                }))
            }),
    {
        let s_found = find_node(&self.node_ids, start);
        let t_found = find_node(&self.node_ids, end);
        if s_found.is_none() || t_found.is_none() {
            return Err(QueryError::UnknownEndpoint);
        }
        let s = s_found.unwrap();
        let t = t_found.unwrap();
        let obj = if str_eq(optimize, "cost") {
            Objective::Cost
        } else if str_eq(optimize, "bandwidth") {
            Objective::Bandwidth
        } else {
            return Err(QueryError::UnsupportedObjective);
        };
        proof {
            assert(objective_of(optimize@) == Some(obj));
        }
        let ghost entries = self@.entries();
        match store_min_route(&self.store, s, t, obj) {
            None => {
                proof {
                    assert(!has_route(entries, s as int, t as int));
                    if start@ == end@ {
                        lemma_trivial_route(entries, s as int);
                        assert(false);
                    }
                }
                Ok(None)
            },
            Some(pair) => {
                let c = pair.0;
                let stops = pair.1;
                let ghost stop_seq = stops@.map_values(|v: usize| v as int);
                let ghost w_hops = choose|hops: Seq<int>|
                    is_route(entries, hops, stop_seq, s as int, t as int) && route_weight(
                        entries,
                        hops,
                        obj,
                    ) == c;
                let ghost mut my_hops: Seq<int> = Seq::empty();
                let mut nets: Vec<Network> = Vec::new();
                let mut h: usize = 0;
                proof {
                    assert(stop_seq.len() == w_hops.len() + 1);
                    assert(stop_seq.take(1) =~= seq![s as int]);
                    assert(is_route(entries, my_hops, stop_seq.take(1), s as int, s as int));
                    assert(nets@.map_values(|n: Network| n@) =~= my_hops.map_values(
                        |x: int| self@.edges[x].network,
                    ));
                    assert(w_hops.take(0) =~= Seq::<int>::empty());
                }
                while h < stops.len() - 1
                    invariant
                        self.wf(),
                        entries == self@.entries(),
                        1 <= stops@.len(),
                        0 <= h < stops@.len(),
                        stop_seq == stops@.map_values(|v: usize| v as int),
                        stop_seq.len() == w_hops.len() + 1,
                        is_route(entries, w_hops, stop_seq, s as int, t as int),
                        route_weight(entries, w_hops, obj) == c,
                        my_hops.len() == h,
                        is_route(
                            entries,
                            my_hops,
                            stop_seq.take(h + 1 as int),
                            s as int,
                            stop_seq[h as int],
                        ),
                        nets@.map_values(|n: Network| n@) == my_hops.map_values(
                            |x: int| self@.edges[x].network,
                        ),
                        route_weight(entries, my_hops, obj) <= route_weight(
                            entries,
                            w_hops.take(h as int),
                            obj,
                        ),
                    decreases stops@.len() - h,
                {
                    let u = stops[h];
                    let v = stops[h + 1];
                    proof {
                        assert(0 <= w_hops[h as int] < entries.len() && joins(
                            entries[w_hops[h as int]],
                            stop_seq[h as int],
                            stop_seq[h + 1 as int],
                        ));
                        assert(stop_seq[h as int] == u as int);
                        assert(stop_seq[h + 1 as int] == v as int);
                        assert(entries[w_hops[h as int]] == self@.edges[w_hops[h as int]].entry());
                    }
                    match min_edge_between(&self.edge_recs, u, v, obj) {
                        Some(ix) => {
                            let ghost old_nets = nets@;
                            let copied = self.edge_recs[ix].network.clone();
                            let ghost cv = copied@;
                            nets.push(copied);
                            proof {
                                let e = ix as int;
                                let prev = my_hops;
                                assert(cv == self@.edges[e].network);
                                assert(nets@.map_values(|n: Network| n@) =~= old_nets.map_values(
                                    |n: Network| n@,
                                ).push(cv));
                                assert(self@.edges[e].entry() == entries[e]);
                                assert(joins(entries[e], u as int, v as int));
                                let nxt = stop_seq[h + 1 as int];
                                assert(joins(entries[e], stop_seq[h as int], nxt));
                                lemma_route_extend(
                                    entries,
                                    prev,
                                    stop_seq.take(h + 1 as int),
                                    s as int,
                                    stop_seq[h as int],
                                    e,
                                    stop_seq[h + 1 as int],
                                    obj,
                                );
                                my_hops = prev.push(e);
                                assert(stop_seq.take(h + 1 as int).push(stop_seq[h + 1 as int])
                                    =~= stop_seq.take(h + 2 as int));
                                assert(nets@.map_values(|n: Network| n@) =~= my_hops.map_values(
                                    |x: int| self@.edges[x].network,
                                ));
                                assert(w_hops.take(h + 1 as int).drop_last() =~= w_hops.take(
                                    h as int,
                                ));
                                assert(w_hops.take(h + 1 as int).last() == w_hops[h as int]);
                                assert(route_weight(entries, w_hops.take(h + 1 as int), obj)
                                    == route_weight(entries, w_hops.take(h as int), obj)
                                    + entry_weight(entries[w_hops[h as int]], obj));
                                assert(entry_weight(entries[e], obj) <= entry_weight(
                                    entries[w_hops[h as int]],
                                    obj,
                                ));
                            }
                        },
                        None => {
                            proof {
                                assert(joins(
                                    self@.edges[w_hops[h as int]].entry(),
                                    u as int,
                                    v as int,
                                ));
                                assert(false);
                            }
                            return Ok(None);
                        },
                    }
                    h += 1;
                }
                proof {
                    assert(h + 1 == stop_seq.len());
                    assert(stop_seq.take(h + 1 as int) =~= stop_seq);
                    assert(stop_seq[h as int] == stop_seq[stop_seq.len() - 1]);
                    assert(is_route(entries, my_hops, stop_seq, s as int, t as int));
                    assert(w_hops.take(h as int) =~= w_hops);
                    assert(route_weight(entries, my_hops, obj) <= c);
                    assert forall|i: int| 0 <= i < my_hops.len() implies 0 <= #[trigger] my_hops[i]
                        < self@.edges.len() by {}
                    lemma_route_networks_weight(self@.edges, my_hops, obj);
                    assert(entries =~= self@.edges.map_values(|e: EdgeModel| e.entry()));
                    if start@ == end@ {
                        assert(s == t);
                        assert(stops@.len() == 1);
                        assert(my_hops.len() == 0);
                    }
                }
                Ok(Some(nets))
            },
        }
    }

    /// The ingestion history, in order.
    pub fn networks(&self) -> (r: &Vec<Network>)
        ensures
            r@.map_values(|n: Network| n@) == self@.networks,
    {
        &self.networks
    }

    /// The datacenter identifiers, in node-index order.
    pub fn node_labels(&self) -> (r: &Vec<String>)
        ensures
            r.deep_view() == self@.nodes,
    {
        &self.node_ids
    }

    /// The edges, in insertion order.
    pub fn edge_list(&self) -> (r: &Vec<EdgeRec>)
        ensures
            r@.map_values(|e: EdgeRec| e@) == self@.edges,
    {
        &self.edge_recs
    }
}

} // verus!
