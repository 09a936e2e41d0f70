//! Metabolic pathways and an id-keyed collection of them. Scores are
//! held in fixed point as thousandths.

use vstd::prelude::*;

verus! {

use vstd::pervasive::VecAdditionalExecFns;

/// Whether a pathway is currently switched on.
#[derive(PartialEq, Eq, Structural, Clone, Copy, Debug)]
pub enum PathwayActivation {
    Active,
    Inactive,
    Conditional,
}

/// A metabolic pathway with the genes it involves and its interaction
/// score in thousandths.
pub struct MetabolicPathway {
    pub id: String,
    pub name: String,
    pub description: String,
    pub genes_involved: Vec<String>,
    pub activation_state: PathwayActivation,
    /// Interaction score in thousandths.
    pub mcl1_interaction_score_millis: i64,
}

impl Clone for MetabolicPathway {
    fn clone(&self) -> (r: Self)
        ensures
            r.id == self.id,
            r.name == self.name,
            r.description == self.description,
            r.genes_involved@ == self.genes_involved@,
            r.activation_state == self.activation_state,
            r.mcl1_interaction_score_millis == self.mcl1_interaction_score_millis,
    {
        MetabolicPathway {
            id: self.id.clone(),
            name: self.name.clone(),
            description: self.description.clone(),
            genes_involved: crate::network::clone_string_vec(&self.genes_involved),
            activation_state: self.activation_state,
            mcl1_interaction_score_millis: self.mcl1_interaction_score_millis,
        }
    }
}

impl MetabolicPathway {
    /// A pathway in the `Conditional` state.
    pub fn new(
        id: String,
        name: String,
        description: String,
        genes_involved: Vec<String>,
        mcl1_interaction_score_millis: i64,
    ) -> (r: Self)
        ensures
            r.id == id,
            r.name == name,
            r.description == description,
            r.genes_involved == genes_involved,
            r.activation_state == PathwayActivation::Conditional,
            r.mcl1_interaction_score_millis == mcl1_interaction_score_millis,
    {
        MetabolicPathway {
            id,
            name,
            description,
            genes_involved,
            activation_state: PathwayActivation::Conditional,
            mcl1_interaction_score_millis,
        }
    }

    /// Replaces the activation state.
    pub fn set_activation_state(&mut self, state: PathwayActivation)
        ensures
            final(self).activation_state == state,
            final(self).id == old(self).id,
            final(self).name == old(self).name,
            final(self).description == old(self).description,
            final(self).genes_involved == old(self).genes_involved,
            final(self).mcl1_interaction_score_millis == old(self).mcl1_interaction_score_millis,
    {
        self.activation_state = state;
    }

    /// Whether the pathway is in the `Active` state.
    pub fn is_active(&self) -> (r: bool)
        ensures
            r == (self.activation_state == PathwayActivation::Active),
    {
        self.activation_state == PathwayActivation::Active
    }

    /// Whether the pathway is in the `Inactive` state.
    pub fn is_inactive(&self) -> (r: bool)
        ensures
            r == (self.activation_state == PathwayActivation::Inactive),
    {
        self.activation_state == PathwayActivation::Inactive
    }
}

/// The ids of a pathway list.
pub open spec fn pathway_ids(ps: Seq<MetabolicPathway>) -> Seq<Seq<char>> {
    ps.map_values(|p: MetabolicPathway| p.id@)
}

/// The predicate `active_pathways` selects by.
pub open spec fn is_active_spec() -> spec_fn(MetabolicPathway) -> bool {
    |p: MetabolicPathway| p.activation_state == PathwayActivation::Active
}

/// The predicate `inactive_pathways` selects by.
pub open spec fn is_inactive_spec() -> spec_fn(MetabolicPathway) -> bool {
    |p: MetabolicPathway| p.activation_state == PathwayActivation::Inactive
}

/// The index of the first pathway carrying `id`, by linear search.
pub open spec fn first_id_index(ps: Seq<MetabolicPathway>, id: Seq<char>) -> int
    decreases ps.len(),
{
    if ps.len() == 0 {
        0
    } else if ps.first().id@ == id {
        0
    } else {
        1 + first_id_index(ps.drop_first(), id)
    }
}

/// At the first match of a linear search, `first_id_index` is exactly
/// the index reached.
proof fn lemma_first_id_index(ps: Seq<MetabolicPathway>, id: Seq<char>, i: int)
    requires
        0 <= i < ps.len(),
        ps[i].id@ == id,
        forall|j: int| 0 <= j < i ==> (#[trigger] ps[j]).id@ != id,
    ensures
        first_id_index(ps, id) == i,
    decreases ps.len(),
{
    if i == 0 {
    } else {
        assert(ps[0].id@ != id);
        assert forall|j: int| 0 <= j < i - 1 implies (#[trigger] ps.drop_first()[j]).id@ != id by {
            assert(ps.drop_first()[j] == ps[j + 1]);
        }
        assert(ps.drop_first()[i - 1] == ps[i]);
        lemma_first_id_index(ps.drop_first(), id, i - 1);
    }
}

/// The pathway values a sequence of borrows stands for.
pub open spec fn deref_views(rs: Seq<&MetabolicPathway>) -> Seq<MetabolicPathway> {
    rs.map_values(|p: &MetabolicPathway| *p)
}

/// A collection of pathways, keyed by id: no id occurs twice, and
/// insertion order is kept.
pub struct PathwayCollection {
    pub pathways: Vec<MetabolicPathway>,
}

impl PathwayCollection {
    /// No id occurs twice.
    pub open spec fn wf(&self) -> bool {
        pathway_ids(self.pathways@).no_duplicates()
    }

    /// An empty collection.
    pub fn new() -> (r: Self)
        ensures
            r.wf(),
            r.pathways@ == Seq::<MetabolicPathway>::empty(),
    {
        let r = PathwayCollection { pathways: Vec::new() };
        proof {
            assert(r.pathways@ =~= Seq::<MetabolicPathway>::empty());
            assert(pathway_ids(r.pathways@) =~= Seq::<Seq<char>>::empty());
        }
        r
    }

    /// Inserts a pathway under its id, replacing an earlier pathway
    /// with the same id and keeping its position; a new id goes to the
    /// end.
    #[verifier::loop_isolation(false)]
    pub fn add_pathway(&mut self, pathway: MetabolicPathway)
        requires
            old(self).wf(),
        ensures
            final(self).wf(),
            (exists|i: int|
                0 <= i < old(self).pathways@.len() && (#[trigger] old(self).pathways@[i]).id@
                    == pathway.id@) ==> exists|i: int|
                0 <= i < old(self).pathways@.len() && (#[trigger] old(self).pathways@[i]).id@
                    == pathway.id@ && final(self).pathways@ == old(self).pathways@.update(
                    i,
                    pathway,
                ),
            (forall|i: int|
                0 <= i < old(self).pathways@.len() ==> (#[trigger] old(self).pathways@[i]).id@
                    != pathway.id@) ==> final(self).pathways@ == old(self).pathways@.push(pathway),
    {
        let ghost ps0 = self.pathways@;
        let mut i: usize = 0;
        while i < self.pathways.len()
            invariant
                0 <= i <= ps0.len(),
                self.pathways@ == ps0,
                forall|j: int| 0 <= j < i ==> (#[trigger] ps0[j]).id@ != pathway.id@,
            decreases ps0.len() - i,
        {
            if self.pathways[i].id == pathway.id {
                let ghost w = i as int;
                self.pathways.set(i, pathway);
                proof {
                    assert(pathway_ids(self.pathways@) =~= pathway_ids(ps0));
                    assert((#[trigger] ps0[w]).id@ == pathway.id@ && self.pathways@ == ps0.update(
                        w,
                        pathway,
                    ));
                }
                return ;
            }
            i += 1;
        }
        self.pathways.push(pathway);
        proof {
            assert(pathway_ids(self.pathways@) =~= pathway_ids(ps0).push(pathway.id@));
            if pathway_ids(ps0).contains(pathway.id@) {
                let w = choose|w: int|
                    0 <= w < ps0.len() && pathway_ids(ps0)[w] == pathway.id@;
                assert(ps0[w].id@ == pathway.id@);
            }
            crate::network::lemma_no_dup_push(pathway_ids(ps0), pathway.id@);
        }
    }

    /// The pathway stored under `id`, if any.
    pub fn get_pathway(&self, id: &str) -> (r: Option<&MetabolicPathway>)
        ensures
            match r {
                Some(p) => p.id@ == id@ && exists|i: int|
                    0 <= i < self.pathways@.len() && self.pathways@[i] == *p && (forall|j: int|
                        0 <= j < i ==> (#[trigger] self.pathways@[j]).id@ != id@),
                None => forall|i: int|
                    0 <= i < self.pathways@.len() ==> (#[trigger] self.pathways@[i]).id@ != id@,
            },
    {
        let n = id.to_owned();
        let mut i: usize = 0;
        while i < self.pathways.len()
            invariant
                0 <= i <= self.pathways@.len(),
                n@ == id@,
                forall|j: int| 0 <= j < i ==> (#[trigger] self.pathways@[j]).id@ != id@,
            decreases self.pathways@.len() - i,
        {
            if self.pathways[i].id == n {
                return Some(&self.pathways[i]);
            }
            i += 1;
        }
        None
    }

    /// A mutable borrow of the pathway stored under `id`, if any; the
    /// collection afterwards holds, in place, whatever the caller
    /// wrote through the borrow.
    #[verifier::loop_isolation(false)]
    pub fn get_mut_pathway(&mut self, id: &str) -> (r: Option<&mut MetabolicPathway>)
        requires
            old(self).wf(),
        ensures
            match r {
                Some(p) => *p == old(self).pathways@[first_id_index(old(self).pathways@, id@)]
                    && p.id@ == id@ && 0 <= first_id_index(old(self).pathways@, id@) < old(
                    self,
                ).pathways@.len() && final(self).pathways@ == old(self).pathways@.update(
                    first_id_index(old(self).pathways@, id@),
                    *final(p),
                ),
                None => *final(self) == *old(self) && forall|i: int|
                    0 <= i < old(self).pathways@.len() ==> (#[trigger] old(
                        self,
                    ).pathways@[i]).id@ != id@,
            },
    {
        let n = id.to_owned();
        let mut i: usize = 0;
        while i < self.pathways.len()
            invariant
                0 <= i <= self.pathways@.len(),
                self.pathways == old(self).pathways,
                n@ == id@,
                forall|j: int| 0 <= j < i ==> (#[trigger] self.pathways@[j]).id@ != id@,
            decreases self.pathways@.len() - i,
        {
            if self.pathways[i].id == n {
                proof {
                    assert(first_id_index(self.pathways@, id@) == i as int) by {
                        lemma_first_id_index(self.pathways@, id@, i as int);
                    }
                }
                return Some(&mut self.pathways[i]);
            }
            i += 1;
        }
        None
    }

    /// All pathways, in insertion order.
    pub fn all_pathways(&self) -> (r: &Vec<MetabolicPathway>)
        ensures
            r@ == self.pathways@,
    {
        &self.pathways
    }

    /// The pathways in the `Active` state, in insertion order.
    #[verifier::loop_isolation(false)]
    pub fn active_pathways(&self) -> (r: Vec<&MetabolicPathway>)
        ensures
            deref_views(r@) == self.pathways@.filter(is_active_spec()),
    {
        let mut r: Vec<&MetabolicPathway> = Vec::new();
        let ghost pred = is_active_spec();
        let mut i: usize = 0;
        proof {
            reveal(Seq::filter);
            assert(r@.map_values(|p: &MetabolicPathway| *p) =~= self.pathways@.take(0).filter(
                pred,
            ));
        }
        while i < self.pathways.len()
            invariant
                0 <= i <= self.pathways@.len(),
                deref_views(r@) == self.pathways@.take(i as int).filter(pred),
            decreases self.pathways@.len() - i,
        {
            let ghost prefix = self.pathways@.take(i as int);
            let ghost e = self.pathways@[i as int];
            let ghost before = r@;
            if self.pathways[i].is_active() {
                r.push(&self.pathways[i]);
                proof {
                    assert(deref_views(r@) =~= deref_views(before).push(e));
                    assert(pred(e));
                }
            } else {
                proof {
                    assert(!pred(e));
                }
            }
            proof {
                reveal(Seq::filter);
                assert(self.pathways@.take(i + 1).drop_last() =~= prefix);
                assert(self.pathways@.take(i + 1).last() == e);
                assert(self.pathways@.take(i + 1).filter(pred) == (if pred(e) {
                    prefix.filter(pred).push(e)
                } else {
                    prefix.filter(pred)
                }));
            }
            i += 1;
        }
        proof {
            assert(self.pathways@.take(self.pathways@.len() as int) =~= self.pathways@);
        }
        r
    }

    /// The pathways in the `Inactive` state, in insertion order.
    #[verifier::loop_isolation(false)]
    pub fn inactive_pathways(&self) -> (r: Vec<&MetabolicPathway>)
        ensures
            deref_views(r@) == self.pathways@.filter(is_inactive_spec()),
    {
        let mut r: Vec<&MetabolicPathway> = Vec::new();
        let ghost pred = is_inactive_spec();
        let mut i: usize = 0;
        proof {
            reveal(Seq::filter);
            assert(r@.map_values(|p: &MetabolicPathway| *p) =~= self.pathways@.take(0).filter(
                pred,
            ));
        }
        while i < self.pathways.len()
            invariant
                0 <= i <= self.pathways@.len(),
                deref_views(r@) == self.pathways@.take(i as int).filter(pred),
            decreases self.pathways@.len() - i,
        {
            let ghost prefix = self.pathways@.take(i as int);
            let ghost e = self.pathways@[i as int];
            let ghost before = r@;
            if self.pathways[i].is_inactive() {
                r.push(&self.pathways[i]);
                proof {
                    assert(deref_views(r@) =~= deref_views(before).push(e));
                    assert(pred(e));
                }
            } else {
                proof {
                    assert(!pred(e));
                }
            }
            proof {
                reveal(Seq::filter);
                assert(self.pathways@.take(i + 1).drop_last() =~= prefix);
                assert(self.pathways@.take(i + 1).last() == e);
                assert(self.pathways@.take(i + 1).filter(pred) == (if pred(e) {
                    prefix.filter(pred).push(e)
                } else {
                    prefix.filter(pred)
                }));
            }
            i += 1;
        }
        proof {
            assert(self.pathways@.take(self.pathways@.len() as int) =~= self.pathways@);
        }
        r
    }
}

} // verus!
