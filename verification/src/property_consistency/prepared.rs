use vstd::prelude::*;

use crate::pairs::{PairSetMap, TripleSet};
use crate::property_consistency::plan::PropertyCharacteristicPlan;
use crate::relation::{index_by, lemma_index_by_empty, lemma_index_by_insert};

verus! {

/// The assertions of `a` whose property is in `c`.
pub open spec fn constrained_assertions(a: Set<(u32, u32, u32)>, c: Set<u32>) -> Set<(u32, u32, u32)> {
    a.filter(|t: (u32, u32, u32)| c.contains(t.1))
}

/// Files an assertion under `(property, subject)`.
pub open spec fn property_subject() -> spec_fn((u32, u32, u32)) -> (u32, u32) {
    |t: (u32, u32, u32)| (t.1, t.0)
}

/// Files an assertion under `(property, object)`.
pub open spec fn property_object() -> spec_fn((u32, u32, u32)) -> (u32, u32) {
    |t: (u32, u32, u32)| (t.1, t.2)
}

/// Files an assertion under `(subject, object)`.
pub open spec fn subject_object() -> spec_fn((u32, u32, u32)) -> (u32, u32) {
    |t: (u32, u32, u32)| (t.0, t.2)
}

/// The subject of an assertion.
pub open spec fn subject_of() -> spec_fn((u32, u32, u32)) -> u32 {
    |t: (u32, u32, u32)| t.0
}

/// The property of an assertion.
pub open spec fn property_of() -> spec_fn((u32, u32, u32)) -> u32 {
    |t: (u32, u32, u32)| t.1
}

/// The object of an assertion.
pub open spec fn object_of() -> spec_fn((u32, u32, u32)) -> u32 {
    |t: (u32, u32, u32)| t.2
}

/// The self-loops `(subject, property)` among the assertions `a`.
pub open spec fn self_loop_set(a: Set<(u32, u32, u32)>) -> Set<(u32, u32)> {
    Set::new(|l: (u32, u32)| a.contains((l.0, l.1, l.0)))
}

/// The effective assertions of constrained properties, filed the ways the
/// consistency checks and identity inference look them up.
pub struct PreparedPropertyAssertions {
    self_loops: Vec<(u32, u32)>,
    outgoing_objects_by_property_subject: PairSetMap,
    incoming_subjects_by_property_object: PairSetMap,
    predicates_by_subject_object: PairSetMap,
    assertions: Ghost<Set<(u32, u32, u32)>>,
}

impl PreparedPropertyAssertions {
    #[verifier::type_invariant]
    spec fn inv(&self) -> bool {
        let a = self.assertions@;
        &&& self.self_loops@.no_duplicates()
        &&& self.self_loops@.to_set() == self_loop_set(a)
        &&& self.outgoing_objects_by_property_subject@ == index_by(a, property_subject(), object_of())
        &&& self.incoming_subjects_by_property_object@ == index_by(a, property_object(), subject_of())
        &&& self.predicates_by_subject_object@ == index_by(a, subject_object(), property_of())
    }

    /// The constrained assertions that were filed.
    pub closed spec fn filed(&self) -> Set<(u32, u32, u32)> {
        self.assertions@
    }

    /// Files the assertions of `assertions` whose property `plan`
    /// constrains.
    pub fn build(plan: &PropertyCharacteristicPlan, assertions: &TripleSet) -> (r: PreparedPropertyAssertions)
        ensures
            r.filed() == constrained_assertions(assertions@, plan.constrained()),
    {
        let items = assertions.as_slice();
        let n = items.len();
        let ghost c = plan.constrained();
        let mut self_loops: Vec<(u32, u32)> = Vec::new();
        let mut outgoing = PairSetMap::new();
        let mut incoming = PairSetMap::new();
        let mut by_pair = PairSetMap::new();
        let ghost mut done: Set<(u32, u32, u32)> = Set::empty();
        proof {
            lemma_index_by_empty(property_subject(), object_of());
            lemma_index_by_empty(property_object(), subject_of());
            lemma_index_by_empty(subject_object(), property_of());
            assert(self_loops@.to_set() =~= self_loop_set(done));
            assert(items@.take(0).to_set() =~= Set::<(u32, u32, u32)>::empty());
            assert(constrained_assertions(Set::empty(), c) =~= Set::<(u32, u32, u32)>::empty());
        }
        let mut i: usize = 0;
        while i < n
            invariant
                n == items@.len(),
                items@.no_duplicates(),
                items@.to_set() == assertions@,
                c == plan.constrained(),
                i <= n,
                done == constrained_assertions(items@.take(i as int).to_set(), c),
                self_loops@.no_duplicates(),
                self_loops@.to_set() == self_loop_set(done),
                outgoing@ == index_by(done, property_subject(), object_of()),
                incoming@ == index_by(done, property_object(), subject_of()),
                by_pair@ == index_by(done, subject_object(), property_of()),
            decreases n - i,
        {
            let (s, p, o) = items[i];
            proof {
                crate::idset::lemma_take_succ_to_set(items@, i as int);
            }
            if plan.is_constrained_predicate(p) {
                let t = (s, p, o);
                proof {
                    assert(!done.contains(t)) by {
                        if done.contains(t) {
                            let j = choose|j: int| 0 <= j < i && items@.take(i as int)[j] == t;
                            assert(items@[j] == items@[i as int]);
                        }
                    }
                    lemma_index_by_insert(done, property_subject(), object_of(), t);
                    lemma_index_by_insert(done, property_object(), subject_of(), t);
                    lemma_index_by_insert(done, subject_object(), property_of(), t);
                }
                let ghost pre = self_loops@;
                if s == o {
                    proof {
                        assert(!self_loops@.contains((s, p))) by {
                            if self_loops@.contains((s, p)) {
                                assert(self_loops@.to_set().contains((s, p)));
                            }
                        }
                    }
                    self_loops.push((s, p));
                    proof {
                        pre.lemma_push_to_set_commute((s, p));
                    }
                }
                outgoing.insert((p, s), o);
                incoming.insert((p, o), s);
                by_pair.insert((s, o), p);
                proof {
                    let next = done.insert(t);
                    assert(next =~= constrained_assertions(items@.take(i + 1).to_set(), c));
                    if s == o {
                        assert(self_loop_set(next) =~= self_loop_set(done).insert((s, p)));
                    } else {
                        assert(self_loop_set(next) =~= self_loop_set(done));
                    }
                    done = next;
                }
            } else {
                proof {
                    assert(done =~= constrained_assertions(items@.take(i + 1).to_set(), c));
                }
            }
            i += 1;
        }
        proof {
            assert(items@.take(n as int) =~= items@);
        }
        PreparedPropertyAssertions {
            self_loops,
            outgoing_objects_by_property_subject: outgoing,
            incoming_subjects_by_property_object: incoming,
            predicates_by_subject_object: by_pair,
            assertions: Ghost(done),
        }
    }

    /// The self-loops `(subject, property)` of constrained properties.
    pub fn self_loops(&self) -> (r: &[(u32, u32)])
        ensures
            r@.no_duplicates(),
            r@.to_set() == self_loop_set(self.filed()),
    {
        proof {
            use_type_invariant(self);
        }
        self.self_loops.as_slice()
    }

    /// The objects of each `(property, subject)`.
    pub fn outgoing_objects_by_property_subject(&self) -> (r: &PairSetMap)
        ensures
            r@ == index_by(self.filed(), property_subject(), object_of()),
    {
        proof {
            use_type_invariant(self);
        }
        &self.outgoing_objects_by_property_subject
    }

    /// The subjects of each `(property, object)`.
    pub fn incoming_subjects_by_property_object(&self) -> (r: &PairSetMap)
        ensures
            r@ == index_by(self.filed(), property_object(), subject_of()),
    {
        proof {
            use_type_invariant(self);
        }
        &self.incoming_subjects_by_property_object
    }

    /// The properties of each `(subject, object)`.
    pub fn predicates_by_subject_object(&self) -> (r: &PairSetMap)
        ensures
            r@ == index_by(self.filed(), subject_object(), property_of()),
    {
        proof {
            use_type_invariant(self);
        }
        &self.predicates_by_subject_object
    }

    /// The objects of `predicate_id` from `subject_id`, if any.
    pub fn objects_for(&self, predicate_id: u32, subject_id: u32) -> (r: Option<&crate::idset::IdSet>)
        ensures
            r is Some <==> index_by(self.filed(), property_subject(), object_of()).contains_key((predicate_id, subject_id)),
            r matches Some(s) ==> s@ == index_by(self.filed(), property_subject(), object_of())[(predicate_id, subject_id)],
    {
        proof {
            use_type_invariant(self);
        }
        self.outgoing_objects_by_property_subject.get((predicate_id, subject_id))
    }
}

} // verus!
