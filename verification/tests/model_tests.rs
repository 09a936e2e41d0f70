use mcl1_network::DrugTarget;
use mcl1_network::InteractionType;
use mcl1_network::MetabolicPathway;
use mcl1_network::ModelBuilder;
use mcl1_network::PathwayActivation;
use mcl1_network::PathwayCollection;
use mcl1_network::Protein;
use mcl1_network::protein::Domain;
use mcl1_network::protein::Interaction;

fn pathway(id: &str, score: i64) -> MetabolicPathway {
    MetabolicPathway::new(
        id.to_string(),
        format!("{} name", id),
        "a pathway".to_string(),
        vec!["MCL1".to_string()],
        score,
    )
}

fn partner(id: &str, kind: InteractionType) -> Interaction {
    Interaction {
        partner_id: id.to_string(),
        partner_name: format!("{} protein", id),
        binding_affinity_millis: -8_500,
        interaction_type: kind,
        evidence: "experimental".to_string(),
    }
}

#[test]
fn test_protein_domains_and_lookup() {
    let mut p = Protein::new(
        "P1".to_string(),
        "MCL1".to_string(),
        "MAAGV".to_string(),
        37_337_000,
        5_100,
    );
    assert_eq!(p.molecular_weight_millis, 37_337_000);
    p.add_domain(Domain {
        id: "d1".to_string(),
        name: "BH3".to_string(),
        start: 10,
        end: 30,
        description: "binding groove".to_string(),
    });
    p.add_domain(Domain {
        id: "d2".to_string(),
        name: "BH3".to_string(),
        start: 40,
        end: 60,
        description: "second copy".to_string(),
    });
    let hit = p.get_domain_by_name("BH3").expect("domain must be found");
    // the first matching domain wins
    assert_eq!(hit.id, "d1");
    assert!(p.get_domain_by_name("TM").is_none());
}

#[test]
fn test_protein_interaction_filters() {
    let mut p = Protein::new(
        "P1".to_string(),
        "MCL1".to_string(),
        "MAAGV".to_string(),
        37_337_000,
        5_100,
    );
    p.add_interaction(partner("BAX", InteractionType::Binding));
    p.add_interaction(partner("NOXA", InteractionType::Inhibition));
    p.add_interaction(partner("BAK1", InteractionType::Binding));
    p.add_interaction(partner("AKT1", InteractionType::Activation));
    let binding = p.get_binding_partners();
    assert_eq!(binding.len(), 2);
    assert_eq!(binding[0].partner_id, "BAX");
    assert_eq!(binding[1].partner_id, "BAK1");
    let inhibitors = p.get_inhibitors();
    assert_eq!(inhibitors.len(), 1);
    assert_eq!(inhibitors[0].partner_id, "NOXA");
    let activators = p.get_activators();
    assert_eq!(activators.len(), 1);
    assert_eq!(activators[0].partner_id, "AKT1");
    assert_eq!(p.get_interactions_by_type(&InteractionType::Modification).len(), 0);
}

#[test]
fn test_pathway_states() {
    let mut pw = pathway("glycolysis", 750);
    assert!(matches!(pw.activation_state, PathwayActivation::Conditional));
    assert!(!pw.is_active());
    assert!(!pw.is_inactive());
    pw.set_activation_state(PathwayActivation::Active);
    assert!(pw.is_active());
    pw.set_activation_state(PathwayActivation::Inactive);
    assert!(pw.is_inactive());
}

#[test]
fn test_pathway_collection_insert_and_overwrite() {
    let mut c = PathwayCollection::new();
    c.add_pathway(pathway("p1", 100));
    c.add_pathway(pathway("p2", 200));
    c.add_pathway(pathway("p1", 900));
    // the overwrite lands in place: two entries, p1 first, new score
    assert_eq!(c.all_pathways().len(), 2);
    assert_eq!(c.all_pathways()[0].id, "p1");
    let p1 = c.get_pathway("p1").expect("p1 must be present");
    assert_eq!(p1.mcl1_interaction_score_millis, 900);
    assert!(c.get_pathway("p3").is_none());
}

#[test]
fn test_pathway_collection_get_mut() {
    let mut c = PathwayCollection::new();
    c.add_pathway(pathway("p1", 100));
    {
        let p = c.get_mut_pathway("p1").expect("p1 must be present");
        p.set_activation_state(PathwayActivation::Active);
    }
    assert!(c.get_pathway("p1").unwrap().is_active());
    assert!(c.get_mut_pathway("p2").is_none());
}

#[test]
fn test_pathway_collection_state_filters() {
    let mut c = PathwayCollection::new();
    c.add_pathway(pathway("p1", 100));
    c.add_pathway(pathway("p2", 200));
    c.add_pathway(pathway("p3", 300));
    c.get_mut_pathway("p1").unwrap().set_activation_state(PathwayActivation::Active);
    c.get_mut_pathway("p3").unwrap().set_activation_state(PathwayActivation::Inactive);
    let active = c.active_pathways();
    assert_eq!(active.len(), 1);
    assert_eq!(active[0].id, "p1");
    let inactive = c.inactive_pathways();
    assert_eq!(inactive.len(), 1);
    assert_eq!(inactive[0].id, "p3");
    assert_eq!(c.all_pathways().len(), 3);
}

#[test]
fn test_drug_target_thresholds() {
    let make = |risk: u32, sel: u32| {
        DrugTarget::new(
            "d1".to_string(),
            "inhibitor".to_string(),
            "MCL1".to_string(),
            "BH3 mimetic".to_string(),
            risk,
            9_000,
            sel,
        )
    };
    // safe strictly below 0.3; highly selective strictly above 0.8
    assert!(make(299, 800).is_safe_for_cardiac_use());
    assert!(!make(300, 800).is_safe_for_cardiac_use());
    assert!(make(0, 801).is_highly_selective());
    assert!(!make(0, 800).is_highly_selective());
}

#[test]
fn test_model_builder_parameters() {
    let mut b = ModelBuilder::new();
    b.add_parameter("mcl1_threshold", 700);
    b.add_parameter("metabolism_weight", 800);
    b.add_parameter("mcl1_threshold", 750);
    let m = b.build_model();
    assert_eq!(m.get_parameter("mcl1_threshold"), Some(750));
    assert_eq!(m.get_parameter("metabolism_weight"), Some(800));
    assert_eq!(m.get_parameter("missing"), None);
}

#[test]
fn test_model_interactions_by_type() {
    let mut b = ModelBuilder::new();
    b.add_interaction("MCL1", "BAX", 850, "binding");
    b.add_interaction("MCL1", "NOXA", -300, "inhibition");
    b.add_interaction("MCL1", "BCL2", 720, "binding");
    let m = b.build_model();
    let binding = m.get_interactions_by_type("binding");
    assert_eq!(binding.len(), 2);
    assert_eq!(binding[0].target, "BAX");
    assert_eq!(binding[0].weight_millis, 850);
    assert_eq!(binding[1].target, "BCL2");
    assert_eq!(m.get_interactions_by_type("activation").len(), 0);
}
