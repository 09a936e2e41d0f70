//! Protein records: domains, typed partner interactions, and lookups
//! over them. Physical quantities are held in fixed point as
//! thousandths of their customary unit.

use vstd::prelude::*;

verus! {

/// A named region of a protein sequence.
pub struct Domain {
    pub id: String,
    pub name: String,
    pub start: usize,
    pub end: usize,
    pub description: String,
}

/// How a partner acts on the protein.
#[derive(PartialEq, Eq, Structural, Clone, Copy, Debug)]
pub enum InteractionType {
    Binding,
    Inhibition,
    Activation,
    Modification,
    Unknown,
}

/// One recorded partner of a protein.
pub struct Interaction {
    pub partner_id: String,
    pub partner_name: String,
    /// Binding affinity in thousandths; negative values are allowed.
    pub binding_affinity_millis: i64,
    pub interaction_type: InteractionType,
    pub evidence: String,
}

impl Clone for Interaction {
    fn clone(&self) -> (r: Self)
        ensures
            r == *self,
    {
        Interaction {
            partner_id: self.partner_id.clone(),
            partner_name: self.partner_name.clone(),
            binding_affinity_millis: self.binding_affinity_millis,
            interaction_type: self.interaction_type,
            evidence: self.evidence.clone(),
        }
    }
}

/// A protein with its physical constants, domains and partners.
pub struct Protein {
    pub id: String,
    pub name: String,
    pub sequence: String,
    /// Molecular weight in thousandths of a dalton.
    pub molecular_weight_millis: u64,
    /// Isoelectric point in thousandths of a pH unit.
    pub isoelectric_point_millis: u64,
    pub domains: Vec<Domain>,
    pub interactions: Vec<Interaction>,
}

/// The predicate `get_interactions_by_type` selects by.
pub open spec fn has_type(t: InteractionType) -> spec_fn(Interaction) -> bool {
    |x: Interaction| x.interaction_type == t
}

impl Protein {
    /// A protein with the given constants and no domains or partners.
    pub fn new(
        id: String,
        name: String,
        sequence: String,
        molecular_weight_millis: u64,
        isoelectric_point_millis: u64,
    ) -> (r: Self)
        ensures
            r.id == id,
            r.name == name,
            r.sequence == sequence,
            r.molecular_weight_millis == molecular_weight_millis,
            r.isoelectric_point_millis == isoelectric_point_millis,
            r.domains@ == Seq::<Domain>::empty(),
            r.interactions@ == Seq::<Interaction>::empty(),
    {
        let r = Protein {
            id,
            name,
            sequence,
            molecular_weight_millis,
            isoelectric_point_millis,
            domains: Vec::new(),
            interactions: Vec::new(),
        };
        proof {
            assert(r.domains@ =~= Seq::<Domain>::empty());
            assert(r.interactions@ =~= Seq::<Interaction>::empty());
        }
        r
    }

    /// Appends a domain record.
    pub fn add_domain(&mut self, domain: Domain)
        ensures
            final(self).domains@ == old(self).domains@.push(domain),
            final(self).interactions@ == old(self).interactions@,
            final(self).id == old(self).id,
            final(self).name == old(self).name,
            final(self).sequence == old(self).sequence,
            final(self).molecular_weight_millis == old(self).molecular_weight_millis,
            final(self).isoelectric_point_millis == old(self).isoelectric_point_millis,
    {
        self.domains.push(domain);
    }

    /// Appends a partner record.
    pub fn add_interaction(&mut self, interaction: Interaction)
        ensures
            final(self).interactions@ == old(self).interactions@.push(interaction),
            final(self).domains@ == old(self).domains@,
            final(self).id == old(self).id,
            final(self).name == old(self).name,
            final(self).sequence == old(self).sequence,
            final(self).molecular_weight_millis == old(self).molecular_weight_millis,
            final(self).isoelectric_point_millis == old(self).isoelectric_point_millis,
    {
        self.interactions.push(interaction);
    }

    /// The first domain carrying `name`, if any.
    pub fn get_domain_by_name(&self, name: &str) -> (r: Option<&Domain>)
        ensures
            match r {
                Some(d) => d.name@ == name@ && exists|i: int|
                    0 <= i < self.domains@.len() && self.domains@[i] == *d && (forall|j: int|
                        0 <= j < i ==> (#[trigger] self.domains@[j]).name@ != name@),
                None => forall|i: int|
                    0 <= i < self.domains@.len() ==> (#[trigger] self.domains@[i]).name@ != name@,
            },
    {
        let n = name.to_owned();
        let mut i: usize = 0;
        while i < self.domains.len()
            invariant
                0 <= i <= self.domains@.len(),
                n@ == name@,
                forall|j: int| 0 <= j < i ==> (#[trigger] self.domains@[j]).name@ != name@,
            decreases self.domains@.len() - i,
        {
            if self.domains[i].name == n {
                return Some(&self.domains[i]);
            }
            i += 1;
        }
        None
    }

    /// All partners of the given type, in insertion order.
    pub fn get_interactions_by_type(&self, interaction_type: &InteractionType) -> (r: Vec<
        Interaction,
    >)
        ensures
            r@ == self.interactions@.filter(has_type(*interaction_type)),
    {
        let mut r: Vec<Interaction> = Vec::new();
        let mut i: usize = 0;
        proof {
            reveal(Seq::filter);
            assert(r@ =~= self.interactions@.take(0).filter(has_type(*interaction_type)));
        }
        while i < self.interactions.len()
            invariant
                0 <= i <= self.interactions@.len(),
                r@ == self.interactions@.take(i as int).filter(has_type(*interaction_type)),
            decreases self.interactions@.len() - i,
        {
            let ghost prefix = self.interactions@.take(i as int);
            let ghost e = self.interactions@[i as int];
            if self.interactions[i].interaction_type == *interaction_type {
                let c = self.interactions[i].clone();
                r.push(c);
            }
            proof {
                reveal(Seq::filter);
                assert(self.interactions@.take(i + 1).drop_last() =~= prefix);
                assert(self.interactions@.take(i + 1).last() == e);
            }
            i += 1;
        }
        proof {
            assert(self.interactions@.take(self.interactions@.len() as int)
                =~= self.interactions@);
        }
        r
    }

    /// The partners recorded as binding.
    pub fn get_binding_partners(&self) -> (r: Vec<Interaction>)
        ensures
            r@ == self.interactions@.filter(has_type(InteractionType::Binding)),
    {
        self.get_interactions_by_type(&InteractionType::Binding)
    }

    /// The partners recorded as inhibiting.
    pub fn get_inhibitors(&self) -> (r: Vec<Interaction>)
        ensures
            r@ == self.interactions@.filter(has_type(InteractionType::Inhibition)),
    {
        self.get_interactions_by_type(&InteractionType::Inhibition)
    }

    /// The partners recorded as activating.
    pub fn get_activators(&self) -> (r: Vec<Interaction>)
        ensures
            r@ == self.interactions@.filter(has_type(InteractionType::Activation)),
    {
        self.get_interactions_by_type(&InteractionType::Activation)
    }
}

} // verus!
