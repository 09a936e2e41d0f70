//! A verified model of a protein-protein interaction network: a store of
//! nodes, edges and per-node attributes, with neighbor/degree queries,
//! unweighted shortest paths and seeded subnetwork extraction, plus the
//! protein, pathway, drug-target and model records that surround it.

pub mod attributes;
pub mod drug_target;
pub mod model;
pub mod network;
pub mod pathway;
pub mod protein;
pub mod reach;
pub mod traverse;

pub use drug_target::DrugTarget;
pub use model::Model;
pub use model::ModelBuilder;
pub use network::InteractionNetwork;
pub use network::ProteinInteraction;
pub use pathway::MetabolicPathway;
pub use pathway::PathwayActivation;
pub use pathway::PathwayCollection;
pub use protein::Domain;
pub use protein::InteractionType;
pub use protein::Protein;
