use dcnet::graph::{DatacenterGraph, QueryError};
use dcnet::network::Network;

fn net(name: &str, bandwidth: u64, cost: u64, dcs: &[&str]) -> Network {
    let ids: Vec<String> = dcs.iter().map(|d| d.to_string()).collect();
    Network::new(name.to_string(), bandwidth, cost, ids)
}

#[test]
fn clique_edge_count_three_datacenters() {
    let mut g = DatacenterGraph::new();
    g.add_network(net("tri", 10, 3, &["A", "B", "C"]));
    assert_eq!(g.node_labels().len(), 3);
    assert_eq!(g.edge_list().len(), 3);
    assert_eq!(g.networks().len(), 1);

    g.add_network(net("quad", 20, 4, &["B", "C", "D"]));
    assert_eq!(g.node_labels().len(), 4);
    assert_eq!(g.edge_list().len(), 6);
    assert_eq!(g.networks().len(), 2);
}

#[test]
fn empty_datacenter_set_adds_history_only() {
    let mut g = DatacenterGraph::new();
    g.add_network(net("void", 1, 1, &[]));
    assert_eq!(g.networks().len(), 1);
    assert_eq!(g.node_labels().len(), 0);
    assert_eq!(g.edge_list().len(), 0);
}

#[test]
fn single_datacenter_adds_node_but_no_edge() {
    let mut g = DatacenterGraph::new();
    g.add_network(net("lonely", 1, 1, &["A"]));
    assert_eq!(g.networks().len(), 1);
    assert_eq!(g.node_labels().len(), 1);
    assert_eq!(g.node_labels()[0], "A");
    assert_eq!(g.edge_list().len(), 0);
}

#[test]
fn self_path_is_empty_with_incident_edge() {
    let mut g = DatacenterGraph::new();
    g.add_network(net("link", 10, 5, &["A", "B"]));
    let cost_path = g.shortest_path("A", "A", "cost").unwrap().unwrap();
    assert_eq!(cost_path.len(), 0);
    let bw_path = g.shortest_path("A", "A", "bandwidth").unwrap().unwrap();
    assert_eq!(bw_path.len(), 0);
}

#[test]
fn self_path_is_empty_on_isolated_node() {
    let mut g = DatacenterGraph::new();
    g.add_network(net("lonely", 1, 1, &["A"]));
    let path = g.shortest_path("A", "A", "cost").unwrap().unwrap();
    assert_eq!(path.len(), 0);
}

#[test]
fn single_link_cost_and_bandwidth_queries() {
    let mut g = DatacenterGraph::new();
    g.add_network(net("link", 10, 5, &["A", "B"]));

    let by_cost = g.shortest_path("A", "B", "cost").unwrap().unwrap();
    assert_eq!(by_cost.len(), 1);
    assert_eq!(by_cost[0].cost(), 5);
    assert_eq!(by_cost[0].name(), "link");

    let by_bw = g.shortest_path("A", "B", "bandwidth").unwrap().unwrap();
    assert_eq!(by_bw.len(), 1);
    assert_eq!(by_bw[0].bandwidth(), 10);
}

#[test]
fn parallel_links_pick_cheaper() {
    let mut g = DatacenterGraph::new();
    g.add_network(net("dear", 10, 8, &["A", "B"]));
    g.add_network(net("cheap", 10, 2, &["A", "B"]));
    let path = g.shortest_path("A", "B", "cost").unwrap().unwrap();
    assert_eq!(path.len(), 1);
    assert_eq!(path[0].cost(), 2);
    assert_eq!(path[0].name(), "cheap");
}

#[test]
fn disconnected_pair_returns_no_path() {
    let mut g = DatacenterGraph::new();
    g.add_network(net("west", 10, 1, &["A", "B"]));
    g.add_network(net("east", 10, 1, &["C", "D"]));
    let r = g.shortest_path("A", "C", "cost").unwrap();
    assert!(r.is_none());
}

#[test]
fn unsupported_objective_is_distinct_from_no_path() {
    let mut g = DatacenterGraph::new();
    g.add_network(net("west", 10, 1, &["A", "B"]));
    g.add_network(net("east", 10, 1, &["C", "D"]));
    let unsupported = g.shortest_path("A", "C", "latency");
    assert!(matches!(unsupported, Err(QueryError::UnsupportedObjective)));
    let disconnected = g.shortest_path("A", "C", "cost");
    assert!(matches!(disconnected, Ok(None)));
}

#[test]
fn unknown_endpoint_is_a_typed_failure() {
    let mut g = DatacenterGraph::new();
    g.add_network(net("link", 10, 5, &["A", "B"]));
    assert!(matches!(g.shortest_path("A", "Z", "cost"), Err(QueryError::UnknownEndpoint)));
    assert!(matches!(g.shortest_path("Z", "B", "cost"), Err(QueryError::UnknownEndpoint)));
    // The endpoint check comes before the objective check.
    assert!(matches!(g.shortest_path("Z", "B", "latency"), Err(QueryError::UnknownEndpoint)));
}

#[test]
fn repeat_ingest_keeps_parallel_edges() {
    let mut g = DatacenterGraph::new();
    let n = net("twice", 10, 5, &["A", "B"]);
    g.add_network(n.clone());
    g.add_network(n);
    assert_eq!(g.networks().len(), 2);
    assert_eq!(g.node_labels().len(), 2);
    assert_eq!(g.edge_list().len(), 2);
    let e0 = &g.edge_list()[0];
    let e1 = &g.edge_list()[1];
    assert_eq!((e0.a, e0.b), (e1.a, e1.b));
    assert_eq!(e0.network.name(), e1.network.name());
}

#[test]
fn multi_hop_route_beats_expensive_direct_link() {
    let mut g = DatacenterGraph::new();
    g.add_network(net("ab", 10, 1, &["A", "B"]));
    g.add_network(net("bc", 10, 1, &["B", "C"]));
    g.add_network(net("ac", 10, 10, &["A", "C"]));
    let path = g.shortest_path("A", "C", "cost").unwrap().unwrap();
    assert_eq!(path.len(), 2);
    assert_eq!(path[0].name(), "ab");
    assert_eq!(path[1].name(), "bc");
    let total: u64 = path.iter().map(|n| n.cost()).sum();
    assert_eq!(total, 2);
}

#[test]
fn bandwidth_objective_minimizes_summed_bandwidth() {
    // The bandwidth objective sums per-edge bandwidth figures and
    // minimizes the sum; it does not maximize the bottleneck.
    let mut g = DatacenterGraph::new();
    g.add_network(net("ab", 5, 1, &["A", "B"]));
    g.add_network(net("bc", 5, 1, &["B", "C"]));
    g.add_network(net("ac", 100, 1, &["A", "C"]));
    let path = g.shortest_path("A", "C", "bandwidth").unwrap().unwrap();
    assert_eq!(path.len(), 2);
    let total: u64 = path.iter().map(|n| n.bandwidth()).sum();
    assert_eq!(total, 10);
}

#[test]
fn clique_spans_every_pair_of_a_network() {
    let mut g = DatacenterGraph::new();
    g.add_network(net("mesh", 7, 2, &["A", "B", "C"]));
    // Every pair is reachable in one hop over the mesh's clique.
    for (s, t) in [("A", "B"), ("A", "C"), ("B", "C")] {
        let path = g.shortest_path(s, t, "cost").unwrap().unwrap();
        assert_eq!(path.len(), 1);
        assert_eq!(path[0].name(), "mesh");
    }
}
