use mcl1_network::InteractionNetwork;
use mcl1_network::ProteinInteraction;

fn edge(a: &str, b: &str, kind: &str, conf: u32) -> ProteinInteraction {
    ProteinInteraction {
        protein_a: a.to_string(),
        protein_b: b.to_string(),
        interaction_type: kind.to_string(),
        confidence_millis: conf,
    }
}

#[test]
fn test_round_trip_neighbors() {
    let mut net = InteractionNetwork::new();
    net.add_interaction(edge("P1", "P2", "binding", 900));
    let n1 = net.get_neighbors("P1");
    let n2 = net.get_neighbors("P2");
    assert!(n1.iter().any(|s| s == "P2"));
    assert!(n2.iter().any(|s| s == "P1"));
}

#[test]
fn test_degree_counts_per_field_match() {
    let mut net = InteractionNetwork::new();
    net.add_interaction(edge("A", "B", "binding", 500));
    net.add_interaction(edge("A", "C", "binding", 500));
    net.add_interaction(edge("D", "D", "binding", 500));
    assert_eq!(net.get_degree("A"), 2);
    assert_eq!(net.get_degree("B"), 1);
    assert_eq!(net.get_degree("C"), 1);
    // a self-loop matches both endpoint fields, so it counts twice
    assert_eq!(net.get_degree("D"), 2);
    assert_eq!(net.get_degree("E"), 0);
}

#[test]
fn test_neighbors_len_equals_degree() {
    let mut net = InteractionNetwork::new();
    net.add_interaction(edge("A", "B", "binding", 500));
    net.add_interaction(edge("B", "C", "inhibition", 600));
    net.add_interaction(edge("D", "D", "binding", 700));
    for n in ["A", "B", "C", "D", "missing"] {
        assert_eq!(net.get_neighbors(n).len(), net.get_degree(n));
    }
}

#[test]
fn test_neighbors_order_and_duplicates() {
    let mut net = InteractionNetwork::new();
    net.add_interaction(edge("A", "B", "binding", 500));
    net.add_interaction(edge("C", "A", "binding", 500));
    net.add_interaction(edge("A", "B", "binding", 500));
    // one entry per matching edge side, in edge-insertion order
    assert_eq!(net.get_neighbors("A"), vec!["B".to_string(), "C".to_string(), "B".to_string()]);
    // a self-loop yields two entries
    let mut loop_net = InteractionNetwork::new();
    loop_net.add_interaction(edge("X", "X", "binding", 500));
    assert_eq!(loop_net.get_neighbors("X"), vec!["X".to_string(), "X".to_string()]);
}

#[test]
fn test_attribute_only_node() {
    let mut net = InteractionNetwork::new();
    net.add_node_attribute("X", "role", "kinase");
    assert_eq!(net.get_degree("X"), 0);
    assert!(net.get_neighbors("X").is_empty());
    assert_eq!(net.get_node_attribute("X", "role"), Some("kinase".to_string()));
    // an attribute-only node does not enter the node set
    assert_eq!(net.get_protein_count(), 0);
}

#[test]
fn test_attribute_overwrite_and_missing() {
    let mut net = InteractionNetwork::new();
    net.add_node_attribute("A", "role", "kinase");
    net.add_node_attribute("A", "role", "phosphatase");
    net.add_node_attribute("A", "family", "BCL2");
    assert_eq!(net.get_node_attribute("A", "role"), Some("phosphatase".to_string()));
    assert_eq!(net.get_node_attribute("A", "family"), Some("BCL2".to_string()));
    assert_eq!(net.get_node_attribute("A", "missing"), None);
    assert_eq!(net.get_node_attribute("B", "role"), None);
}

#[test]
fn test_counts_with_repeated_edges() {
    let mut net = InteractionNetwork::new();
    assert_eq!(net.get_protein_count(), 0);
    assert_eq!(net.get_interaction_count(), 0);
    net.add_interaction(edge("A", "B", "binding", 500));
    net.add_interaction(edge("A", "B", "binding", 500));
    // the multigraph keeps both edge records, the node set neither
    assert_eq!(net.get_interaction_count(), 2);
    assert_eq!(net.get_protein_count(), 2);
}

#[test]
fn test_filter_by_confidence() {
    let mut net = InteractionNetwork::new();
    net.add_interaction(edge("A", "B", "binding", 900));
    net.add_interaction(edge("B", "C", "binding", 400));
    net.add_interaction(edge("C", "D", "binding", 500));
    let kept = net.filter_by_confidence(500);
    assert_eq!(kept.len(), 2);
    assert_eq!(kept[0].protein_a, "A");
    assert_eq!(kept[0].confidence_millis, 900);
    assert_eq!(kept[1].protein_a, "C");
    assert_eq!(kept[1].confidence_millis, 500);
}
