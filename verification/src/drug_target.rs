//! Drug-target records and their safety predicates. Scores are held in
//! fixed point as thousandths, so the thresholds are exact integers.

use vstd::prelude::*;

verus! {

/// The cardiotoxicity-risk threshold, in thousandths: risks strictly
/// below it count as safe for cardiac use.
pub const CARDIAC_RISK_LIMIT_MILLIS: u32 = 300;

/// The selectivity threshold, in thousandths: scores strictly above it
/// count as highly selective.
pub const HIGH_SELECTIVITY_MILLIS: u32 = 800;

/// A drug and the protein it targets, with its scores in thousandths.
pub struct DrugTarget {
    pub id: String,
    pub name: String,
    pub target_protein: String,
    pub mechanism_of_action: String,
    /// Cardiotoxicity risk in thousandths of the unit scale.
    pub cardiotoxicity_risk_millis: u32,
    /// Binding affinity in thousandths.
    pub binding_affinity_millis: u32,
    /// Selectivity score in thousandths of the unit scale.
    pub selectivity_score_millis: u32,
}

impl DrugTarget {
    /// A record with the given fields.
    pub fn new(
        id: String,
        name: String,
        target_protein: String,
        mechanism_of_action: String,
        cardiotoxicity_risk_millis: u32,
        binding_affinity_millis: u32,
        selectivity_score_millis: u32,
    ) -> (r: Self)
        ensures
            r.id == id,
            r.name == name,
            r.target_protein == target_protein,
            r.mechanism_of_action == mechanism_of_action,
            r.cardiotoxicity_risk_millis == cardiotoxicity_risk_millis,
            r.binding_affinity_millis == binding_affinity_millis,
            r.selectivity_score_millis == selectivity_score_millis,
    {
        DrugTarget {
            id,
            name,
            target_protein,
            mechanism_of_action,
            cardiotoxicity_risk_millis,
            binding_affinity_millis,
            selectivity_score_millis,
        }
    }

    /// Whether the cardiotoxicity risk is strictly below the cardiac
    /// limit.
    pub fn is_safe_for_cardiac_use(&self) -> (r: bool)
        ensures
            r == (self.cardiotoxicity_risk_millis < CARDIAC_RISK_LIMIT_MILLIS),
    {
        self.cardiotoxicity_risk_millis < CARDIAC_RISK_LIMIT_MILLIS
    }

    /// Whether the selectivity score is strictly above the high
    /// threshold.
    pub fn is_highly_selective(&self) -> (r: bool)
        ensures
            r == (self.selectivity_score_millis > HIGH_SELECTIVITY_MILLIS),
    {
        self.selectivity_score_millis > HIGH_SELECTIVITY_MILLIS
    }
}

} // verus!
