//! A builder for a named-parameter interaction model, and the built
//! model's lookups. Parameter values and edge weights are held in
//! fixed point as thousandths.

use vstd::prelude::*;

verus! {

use vstd::pervasive::VecAdditionalExecFns;

/// A named numeric parameter, in thousandths.
pub struct Parameter {
    pub name: String,
    pub value_millis: i64,
}

/// A weighted, typed edge of the model.
pub struct Interaction {
    pub source: String,
    pub target: String,
    /// Weight in thousandths; negative weights are allowed.
    pub weight_millis: i64,
    pub type_: String,
}

impl Clone for Interaction {
    fn clone(&self) -> (r: Self)
        ensures
            r == *self,
    {
        Interaction {
            source: self.source.clone(),
            target: self.target.clone(),
            weight_millis: self.weight_millis,
            type_: self.type_.clone(),
        }
    }
}

/// The names of a parameter list.
pub open spec fn parameter_names(ps: Seq<Parameter>) -> Seq<Seq<char>> {
    ps.map_values(|p: Parameter| p.name@)
}

/// The predicate `get_interactions_by_type` selects by.
pub open spec fn has_kind(t: Seq<char>) -> spec_fn(Interaction) -> bool {
    |x: Interaction| x.type_@ == t
}

/// Accumulates parameters and interactions, then hands out an
/// immutable model.
pub struct ModelBuilder {
    pub parameters: Vec<Parameter>,
    pub interactions: Vec<Interaction>,
}

/// The built model: the builder's data, frozen.
pub struct Model {
    pub parameters: Vec<Parameter>,
    pub interactions: Vec<Interaction>,
}

impl ModelBuilder {
    /// No parameter name occurs twice.
    pub open spec fn wf(&self) -> bool {
        parameter_names(self.parameters@).no_duplicates()
    }

    /// An empty builder.
    pub fn new() -> (r: Self)
        ensures
            r.wf(),
            r.parameters@ == Seq::<Parameter>::empty(),
            r.interactions@ == Seq::<Interaction>::empty(),
    {
        let r = ModelBuilder { parameters: Vec::new(), interactions: Vec::new() };
        proof {
            assert(r.parameters@ =~= Seq::<Parameter>::empty());
            assert(r.interactions@ =~= Seq::<Interaction>::empty());
            assert(parameter_names(r.parameters@) =~= Seq::<Seq<char>>::empty());
        }
        r
    }

    /// Sets parameter `name` to `value_millis`, overwriting an earlier
    /// value in place; a new name goes to the end.
    #[verifier::loop_isolation(false)]
    pub fn add_parameter(&mut self, name: &str, value_millis: i64)
        requires
            old(self).wf(),
        ensures
            final(self).wf(),
            final(self).interactions@ == old(self).interactions@,
            (exists|i: int|
                0 <= i < old(self).parameters@.len()
                    && (#[trigger] old(self).parameters@[i]).name@ == name@) ==> exists|i: int|
                0 <= i < old(self).parameters@.len()
                    && (#[trigger] old(self).parameters@[i]).name@ == name@
                    && final(self).parameters@ == old(self).parameters@.update(
                    i,
                    Parameter { name: old(self).parameters@[i].name, value_millis },
                ),
            (forall|i: int|
                0 <= i < old(self).parameters@.len()
                    ==> (#[trigger] old(self).parameters@[i]).name@ != name@) ==> final(
                self).parameters@.len() == old(self).parameters@.len() + 1
                && final(self).parameters@.take(old(self).parameters@.len() as int) == old(
                self).parameters@ && final(self).parameters@.last().name@ == name@
                && final(self).parameters@.last().value_millis == value_millis,
    {
        let n = name.to_owned();
        let ghost ps0 = self.parameters@;
        let mut i: usize = 0;
        while i < self.parameters.len()
            invariant
                0 <= i <= ps0.len(),
                self.parameters@ == ps0,
                self.interactions@ == old(self).interactions@,
                n@ == name@,
                forall|j: int| 0 <= j < i ==> (#[trigger] ps0[j]).name@ != name@,
            decreases ps0.len() - i,
        {
            if self.parameters[i].name == n {
                let ghost w = i as int;
                let p = &mut self.parameters[i];
                p.value_millis = value_millis;
                proof {
                    assert(self.parameters@ == ps0.update(
                        w,
                        Parameter { name: ps0[w].name, value_millis },
                    ));
                    assert(parameter_names(self.parameters@) =~= parameter_names(ps0));
                    assert((#[trigger] ps0[w]).name@ == name@);
                }
                return ;
            }
            i += 1;
        }
        let entry = Parameter { name: n, value_millis };
        self.parameters.push(entry);
        proof {
            assert(parameter_names(self.parameters@) =~= parameter_names(ps0).push(name@));
            if parameter_names(ps0).contains(name@) {
                let w = choose|w: int| 0 <= w < ps0.len() && parameter_names(ps0)[w] == name@;
                assert(ps0[w].name@ == name@);
            }
            crate::network::lemma_no_dup_push(parameter_names(ps0), name@);
            assert(self.parameters@.take(ps0.len() as int) =~= ps0);
        }
    }

    /// Appends a weighted, typed edge.
    pub fn add_interaction(&mut self, source: &str, target: &str, weight_millis: i64, type_: &str)
        ensures
            final(self).parameters@ == old(self).parameters@,
            final(self).interactions@.len() == old(self).interactions@.len() + 1,
            final(self).interactions@.take(old(self).interactions@.len() as int) == old(
                self).interactions@,
            final(self).interactions@.last().source@ == source@,
            final(self).interactions@.last().target@ == target@,
            final(self).interactions@.last().weight_millis == weight_millis,
            final(self).interactions@.last().type_@ == type_@,
    {
        let rec = Interaction {
            source: source.to_owned(),
            target: target.to_owned(),
            weight_millis,
            type_: type_.to_owned(),
        };
        let ghost is0 = self.interactions@;
        self.interactions.push(rec);
        proof {
            assert(self.interactions@.take(is0.len() as int) =~= is0);
        }
    }

    /// A frozen copy of the builder's data.
    pub fn build_model(&self) -> (r: Model)
        ensures
            r.parameters@.len() == self.parameters@.len(),
            forall|i: int|
                0 <= i < self.parameters@.len() ==> (#[trigger] r.parameters@[i]).name@
                    == self.parameters@[i].name@ && r.parameters@[i].value_millis
                    == self.parameters@[i].value_millis,
            r.interactions@ == self.interactions@,
    {
        let mut parameters: Vec<Parameter> = Vec::new();
        let mut i: usize = 0;
        while i < self.parameters.len()
            invariant
                0 <= i <= self.parameters@.len(),
                parameters@.len() == i,
                forall|j: int|
                    0 <= j < i ==> (#[trigger] parameters@[j]).name@ == self.parameters@[j].name@
                        && parameters@[j].value_millis == self.parameters@[j].value_millis,
            decreases self.parameters@.len() - i,
        {
            let p = Parameter {
                name: self.parameters[i].name.clone(),
                value_millis: self.parameters[i].value_millis,
            };
            parameters.push(p);
            i += 1;
        }
        let mut interactions: Vec<Interaction> = Vec::new();
        let mut j: usize = 0;
        while j < self.interactions.len()
            invariant
                0 <= j <= self.interactions@.len(),
                interactions@ == self.interactions@.take(j as int),
            decreases self.interactions@.len() - j,
        {
            let c = self.interactions[j].clone();
            interactions.push(c);
            proof {
                assert(self.interactions@.take(j + 1) =~= self.interactions@.take(j as int).push(
                    self.interactions@[j as int],
                ));
            }
            j += 1;
        }
        proof {
            assert(self.interactions@.take(self.interactions@.len() as int)
                =~= self.interactions@);
        }
        Model { parameters, interactions }
    }
}

impl Model {
    /// The value stored under `name`, in thousandths, if any.
    pub fn get_parameter(&self, name: &str) -> (r: Option<i64>)
        ensures
            match r {
                Some(v) => exists|i: int|
                    0 <= i < self.parameters@.len() && (#[trigger] self.parameters@[i]).name@
                        == name@ && self.parameters@[i].value_millis == v && (forall|j: int|
                        0 <= j < i ==> (#[trigger] self.parameters@[j]).name@ != name@),
                None => forall|i: int|
                    0 <= i < self.parameters@.len() ==> (#[trigger] self.parameters@[i]).name@
                        != name@,
            },
    {
        let n = name.to_owned();
        let mut i: usize = 0;
        while i < self.parameters.len()
            invariant
                0 <= i <= self.parameters@.len(),
                n@ == name@,
                forall|j: int| 0 <= j < i ==> (#[trigger] self.parameters@[j]).name@ != name@,
            decreases self.parameters@.len() - i,
        {
            if self.parameters[i].name == n {
                return Some(self.parameters[i].value_millis);
            }
            i += 1;
        }
        None
    }

    /// The edges of the given type, in insertion order.
    #[verifier::loop_isolation(false)]
    pub fn get_interactions_by_type(&self, type_: &str) -> (r: Vec<Interaction>)
        ensures
            r@ == self.interactions@.filter(has_kind(type_@)),
    {
        let t = type_.to_owned();
        let mut r: Vec<Interaction> = Vec::new();
        let mut i: usize = 0;
        proof {
            reveal(Seq::filter);
            assert(r@ =~= self.interactions@.take(0).filter(has_kind(type_@)));
        }
        while i < self.interactions.len()
            invariant
                0 <= i <= self.interactions@.len(),
                r@ == self.interactions@.take(i as int).filter(has_kind(type_@)),
            decreases self.interactions@.len() - i,
        {
            let ghost prefix = self.interactions@.take(i as int);
            let ghost e = self.interactions@[i as int];
            if self.interactions[i].type_ == t {
                let c = self.interactions[i].clone();
                r.push(c);
            }
            proof {
                reveal(Seq::filter);
                assert(self.interactions@.take(i + 1).drop_last() =~= prefix);
                assert(self.interactions@.take(i + 1).last() == e);
            }
            i += 1;
        }
        proof {
            assert(self.interactions@.take(self.interactions@.len() as int)
                =~= self.interactions@);
        }
        r
    }
}

} // verus!
