use mcl1_network::InteractionNetwork;
use mcl1_network::ProteinInteraction;

fn edge(a: &str, b: &str) -> ProteinInteraction {
    ProteinInteraction {
        protein_a: a.to_string(),
        protein_b: b.to_string(),
        interaction_type: "binding".to_string(),
        confidence_millis: 500,
    }
}

fn seeds(names: &[&str]) -> Vec<String> {
    names.iter().map(|s| s.to_string()).collect()
}

#[test]
fn test_shortest_path_chain() {
    let mut net = InteractionNetwork::new();
    net.add_interaction(edge("A", "B"));
    net.add_interaction(edge("B", "C"));
    net.add_interaction(edge("C", "D"));
    let path = net.find_shortest_path("A", "D").expect("a path must exist");
    assert_eq!(path, seeds(&["A", "B", "C", "D"]));
}

#[test]
fn test_shortest_path_disconnected() {
    let mut net = InteractionNetwork::new();
    net.add_interaction(edge("A", "B"));
    net.add_interaction(edge("C", "D"));
    assert_eq!(net.find_shortest_path("A", "D"), None);
    assert_eq!(net.find_shortest_path("A", "unknown"), None);
}

#[test]
fn test_shortest_path_self() {
    let net = InteractionNetwork::new();
    // the one-node path comes back even for an id with no edges
    assert_eq!(net.find_shortest_path("X", "X"), Some(seeds(&["X"])));
}

#[test]
fn test_shortest_path_minimum_edge_count() {
    let mut net = InteractionNetwork::new();
    net.add_interaction(edge("A", "B"));
    net.add_interaction(edge("A", "C"));
    net.add_interaction(edge("C", "B"));
    net.add_interaction(edge("B", "D"));
    let path = net.find_shortest_path("A", "D").expect("a path must exist");
    // the two-edge route beats the three-edge route through C
    assert_eq!(path.len(), 3);
    assert_eq!(path, seeds(&["A", "B", "D"]));
}

#[test]
fn test_subnetwork_seed_component() {
    let mut net = InteractionNetwork::new();
    net.add_interaction(edge("A", "B"));
    net.add_interaction(edge("B", "C"));
    net.add_interaction(edge("D", "E"));
    let sub = net.extract_subnetwork(&seeds(&["A"]));
    assert_eq!(sub.get_protein_count(), 3);
    assert_eq!(sub.get_interaction_count(), 2);
    assert_eq!(sub.get_degree("A"), 1);
    assert_eq!(sub.get_degree("B"), 2);
    assert_eq!(sub.get_degree("C"), 1);
    assert_eq!(sub.get_degree("D"), 0);
    assert_eq!(sub.get_degree("E"), 0);
}

#[test]
fn test_subnetwork_idempotent() {
    let mut net = InteractionNetwork::new();
    net.add_interaction(edge("A", "B"));
    net.add_interaction(edge("B", "C"));
    net.add_interaction(edge("C", "A"));
    net.add_interaction(edge("D", "E"));
    net.add_node_attribute("B", "role", "hub");
    let s = seeds(&["A"]);
    let first = net.extract_subnetwork(&s);
    let second = net.extract_subnetwork(&s);
    assert_eq!(first.get_protein_count(), second.get_protein_count());
    assert_eq!(first.get_interaction_count(), second.get_interaction_count());
    for n in ["A", "B", "C", "D", "E"] {
        assert_eq!(first.get_neighbors(n), second.get_neighbors(n));
        assert_eq!(first.get_node_attribute(n, "role"), second.get_node_attribute(n, "role"));
    }
}

#[test]
fn test_subnetwork_keeps_each_edge_once() {
    let mut net = InteractionNetwork::new();
    // a cycle: every node reaches the others two ways
    net.add_interaction(edge("A", "B"));
    net.add_interaction(edge("B", "C"));
    net.add_interaction(edge("C", "A"));
    let sub = net.extract_subnetwork(&seeds(&["A"]));
    // the result holds each parent edge once, never duplicated
    assert_eq!(sub.get_interaction_count(), 3);
}

#[test]
fn test_subnetwork_copies_attributes_of_component() {
    let mut net = InteractionNetwork::new();
    net.add_interaction(edge("A", "B"));
    net.add_interaction(edge("D", "E"));
    net.add_node_attribute("B", "role", "kinase");
    net.add_node_attribute("D", "role", "ligase");
    let sub = net.extract_subnetwork(&seeds(&["A"]));
    assert_eq!(sub.get_node_attribute("B", "role"), Some("kinase".to_string()));
    assert_eq!(sub.get_node_attribute("D", "role"), None);
}

#[test]
fn test_subnetwork_seed_without_edges() {
    let mut net = InteractionNetwork::new();
    net.add_interaction(edge("A", "B"));
    net.add_node_attribute("F", "role", "orphan");
    let sub = net.extract_subnetwork(&seeds(&["F"]));
    // the seed is in its own closure, so its attributes come along,
    // but no edge touches it and the node set stays empty
    assert_eq!(sub.get_interaction_count(), 0);
    assert_eq!(sub.get_protein_count(), 0);
    assert_eq!(sub.get_node_attribute("F", "role"), Some("orphan".to_string()));
}

#[test]
fn test_subnetwork_multiple_seeds() {
    let mut net = InteractionNetwork::new();
    net.add_interaction(edge("A", "B"));
    net.add_interaction(edge("C", "D"));
    net.add_interaction(edge("E", "F"));
    let sub = net.extract_subnetwork(&seeds(&["A", "C"]));
    assert_eq!(sub.get_protein_count(), 4);
    assert_eq!(sub.get_interaction_count(), 2);
    assert_eq!(sub.get_degree("E"), 0);
}
