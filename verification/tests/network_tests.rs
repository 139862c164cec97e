use dcnet::network::{Network, Objective};

fn ids(names: &[&str]) -> Vec<String> {
    names.iter().map(|n| n.to_string()).collect()
}

#[test]
fn record_keeps_its_fields() {
    let n = Network::new("backbone".to_string(), 400, 12, ids(&["FRA", "AMS"]));
    assert_eq!(n.name(), "backbone");
    assert_eq!(n.bandwidth(), 400);
    assert_eq!(n.cost(), 12);
    assert_eq!(n.datacenters().len(), 2);
    assert_eq!(n.datacenters()[0], "FRA");
    assert_eq!(n.datacenters()[1], "AMS");
}

#[test]
fn repeated_identifiers_collapse_to_one() {
    let n = Network::new("loop".to_string(), 1, 1, ids(&["A", "B", "A", "B", "A"]));
    assert_eq!(n.datacenters().len(), 2);
    assert_eq!(n.datacenters()[0], "A");
    assert_eq!(n.datacenters()[1], "B");
}

#[test]
fn weight_under_selects_the_objective_figure() {
    let n = Network::new("link".to_string(), 40, 7, ids(&["A", "B"]));
    assert_eq!(n.weight_under(Objective::Cost), 7);
    assert_eq!(n.weight_under(Objective::Bandwidth), 40);
}

#[test]
fn clone_is_a_value_copy() {
    let n = Network::new("orig".to_string(), 9, 3, ids(&["X", "Y"]));
    let c = n.clone();
    assert_eq!(c.name(), n.name());
    assert_eq!(c.bandwidth(), n.bandwidth());
    assert_eq!(c.cost(), n.cost());
    assert_eq!(c.datacenters(), n.datacenters());
}
