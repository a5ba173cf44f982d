use vstd::prelude::*;

use crate::closure_index::{ancestors, ClosureIndex, PropertyTaxonomyIndex, TaxonomyIndex};
use crate::dataset_index::spec::EdgeField;
use crate::dataset_index::IndexedDataset;
use crate::effective_types::{has_class, EffectiveTypeSet};
use crate::idset::IdSetMap;
use crate::pairs::{sorted_triple_insert, triples_sorted, PairSet, TripleSet};
use crate::policy::{FeatureMode, RulesMvpFeaturePolicy};
use crate::property_closure::rules::Triple;
use crate::property_closure::PropertyClosure;

verus! {

/// The triples `(c, predicate, a)` for each key `c` of `keys` and each
/// ancestor `a` of `c` in `tax`, but for those of `asserted`.
pub open spec fn axiom_closure(keys: Set<u32>, tax: Map<u32, Set<u32>>, predicate: u32, asserted: Set<Triple>) -> Set<
    Triple,
> {
    Set::new(|t: Triple| keys.contains(t.0) && t.1 == predicate && ancestors(tax, t.0).contains(t.2) && !asserted.contains(t))
}

/// The triples `(x, rdf_type, c)` for each effective class `c` of each
/// instance `x` of `types`, but for those of `asserted`.
pub open spec fn type_triples(
    types: Map<u32, Map<u32, crate::effective_types::origins::EffectiveTypeOrigin>>,
    rdf_type: u32,
    asserted: Set<Triple>,
) -> Set<Triple> {
    Set::new(|t: Triple| has_class(types, t.0, t.2) && t.1 == rdf_type && !asserted.contains(t))
}

/// The triples `(l, same_as, r)` for each inferred pair `(l, r)` that is
/// not asserted either way.
pub open spec fn same_as_triples(inferred: Set<(u32, u32)>, same_as: u32, asserted: Set<Triple>) -> Set<Triple> {
    Set::new(
        |t: Triple|
            inferred.contains((t.0, t.2)) && t.1 == same_as && !asserted.contains((t.0, same_as, t.2))
                && !asserted.contains((t.2, same_as, t.0)),
    )
}

/// Adds to the sorted `derived` the triple `(c, predicate, a)` for each key
/// `c` of `edges` and ancestor `a` of it in `taxonomy` that `asserted`
/// lacks.
fn derive_axiom_closure(
    edges: &IdSetMap,
    taxonomy: &ClosureIndex,
    predicate: u32,
    asserted: &TripleSet,
    derived: &mut Vec<Triple>,
)
    requires
        triples_sorted(old(derived)@),
    ensures
        triples_sorted(final(derived)@),
        final(derived)@.to_set() == old(derived)@.to_set().union(
            axiom_closure(edges@.dom(), taxonomy.edges(), predicate, asserted@),
        ),
{
    let ghost start = derived@.to_set();
    let ghost tax = taxonomy.edges();
    let keys = edges.keys();
    let n = keys.len();
    let mut i: usize = 0;
    while i < n
        invariant
            n == keys@.len(),
            keys@.to_set() == edges@.dom(),
            tax == taxonomy.edges(),
            i <= n,
            triples_sorted(derived@),
            derived@.to_set() == start.union(
                axiom_closure(keys@.take(i as int).to_set(), tax, predicate, asserted@),
            ),
        decreases n - i,
    {
        let c = keys[i];
        let ghost before = derived@.to_set();
        match taxonomy.ancestors_of(c) {
            Some(ancestor_set) => {
                let ancestor_ids = ancestor_set.as_slice();
                let m = ancestor_ids.len();
                let mut j: usize = 0;
                while j < m
                    invariant
                        m == ancestor_ids@.len(),
                        ancestor_ids@.to_set() == ancestors(tax, c),
                        j <= m,
                        triples_sorted(derived@),
                        derived@.to_set() == before.union(
                            Set::new(
                                |t: Triple|
                                    t.0 == c && t.1 == predicate && ancestor_ids@.take(j as int).contains(t.2)
                                        && !asserted@.contains(t),
                            ),
                        ),
                    decreases m - j,
                {
                    let a = ancestor_ids[j];
                    let candidate = (c, predicate, a);
                    let ghost mid = derived@.to_set();
                    if !asserted.contains(candidate) {
                        sorted_triple_insert(derived, candidate);
                    }
                    proof {
                        crate::idset::lemma_take_succ_to_set(ancestor_ids@, j as int);
                        assert forall|y: u32| ancestor_ids@.take(j + 1).contains(y) <==> (ancestor_ids@.take(j as int).contains(y) || y == a) by {
                            assert(ancestor_ids@.take(j + 1).contains(y) <==> ancestor_ids@.take(j + 1).to_set().contains(y));
                            assert(ancestor_ids@.take(j as int).contains(y) <==> ancestor_ids@.take(j as int).to_set().contains(y));
                        }
                        assert forall|t: Triple| t.0 == c && t.1 == predicate && t.2 == a implies t == candidate by {}
                        if asserted@.contains(candidate) {
                            assert(derived@.to_set() == mid);
                        } else {
                            assert(derived@.to_set() == mid.insert(candidate));
                        }
                        let later = Set::new(
                            |t: Triple|
                                t.0 == c && t.1 == predicate && ancestor_ids@.take(j + 1).contains(t.2)
                                    && !asserted@.contains(t),
                        );
                        let earlier = Set::new(
                            |t: Triple|
                                t.0 == c && t.1 == predicate && ancestor_ids@.take(j as int).contains(t.2)
                                    && !asserted@.contains(t),
                        );
                        assert(mid == before.union(earlier));
                        assert forall|t: Triple| #[trigger] later.contains(t) <==> (earlier.contains(t) || (t == candidate && !asserted@.contains(candidate))) by {
                            if later.contains(t) && !earlier.contains(t) {
                                assert(t.2 == a);
                            }
                        }
                        assert(derived@.to_set() =~= before.union(later));
                    }
                    j += 1;
                }
                proof {
                    assert(ancestor_ids@.take(m as int) =~= ancestor_ids@);
                    assert forall|y: u32| ancestor_ids@.contains(y) <==> ancestors(tax, c).contains(y) by {
                        assert(ancestor_ids@.contains(y) <==> ancestor_ids@.to_set().contains(y));
                    }
                }
            },
            None => {
                proof {
                    assert forall|a: u32| !ancestors(tax, c).contains(a) by {
                        if ancestors(tax, c).contains(a) {
                            crate::property_closure::lemma_reached_from_node(tax, c, a);
                        }
                    }
                }
            },
        }
        proof {
            crate::idset::lemma_take_succ_to_set(keys@, i as int);
            assert(derived@.to_set() =~= start.union(
                axiom_closure(keys@.take(i + 1).to_set(), tax, predicate, asserted@),
            ));
        }
        i += 1;
    }
    proof {
        assert(keys@.take(n as int) =~= keys@);
    }
}

/// The `rdfs:subClassOf` triples that the class hierarchy `class_taxonomy`
/// entails between each class with asserted superclasses and its
/// ancestors, but for the asserted ones; in increasing order.
pub fn derive_subclass_axiom_closure(index: &IndexedDataset, class_taxonomy: &TaxonomyIndex) -> (r: Vec<Triple>)
    ensures
        triples_sorted(r@),
        r@.to_set() == axiom_closure(
            index.edges(EdgeField::SubclassEdges).dom(),
            class_taxonomy.edges(),
            index.vocab().rdfs_subclass_of_id,
            index.source().to_set(),
        ),
{
    let mut derived: Vec<Triple> = Vec::new();
    derive_axiom_closure(
        index.subclass_edges(),
        class_taxonomy,
        index.rdfs_subclass_of_id(),
        index.asserted_triples(),
        &mut derived,
    );
    proof {
        assert(derived@.to_set() =~= axiom_closure(
            index.edges(EdgeField::SubclassEdges).dom(),
            class_taxonomy.edges(),
            index.vocab().rdfs_subclass_of_id,
            index.source().to_set(),
        ));
    }
    derived
}

/// The `rdfs:subPropertyOf` triples that the property hierarchy
/// `property_taxonomy` entails between each property with asserted
/// superproperties and its ancestors, but for the asserted ones; in
/// increasing order.
pub fn derive_subproperty_axiom_closure(index: &IndexedDataset, property_taxonomy: &PropertyTaxonomyIndex) -> (r:
    Vec<Triple>)
    ensures
        triples_sorted(r@),
        r@.to_set() == axiom_closure(
            index.edges(EdgeField::SubpropertyEdges).dom(),
            property_taxonomy.edges(),
            index.vocab().rdfs_subproperty_of_id,
            index.source().to_set(),
        ),
{
    let mut derived: Vec<Triple> = Vec::new();
    derive_axiom_closure(
        index.subproperty_edges(),
        property_taxonomy,
        index.rdfs_subproperty_of_id(),
        index.asserted_triples(),
        &mut derived,
    );
    proof {
        assert(derived@.to_set() =~= axiom_closure(
            index.edges(EdgeField::SubpropertyEdges).dom(),
            property_taxonomy.edges(),
            index.vocab().rdfs_subproperty_of_id,
            index.source().to_set(),
        ));
    }
    derived
}

/// Adds the triples of `items` to the sorted `derived`.
fn add_all(items: &[Triple], derived: &mut Vec<Triple>)
    requires
        triples_sorted(old(derived)@),
    ensures
        triples_sorted(final(derived)@),
        final(derived)@.to_set() == old(derived)@.to_set().union(items@.to_set()),
{
    let ghost start = derived@.to_set();
    let n = items.len();
    let mut i: usize = 0;
    while i < n
        invariant
            n == items@.len(),
            i <= n,
            triples_sorted(derived@),
            derived@.to_set() == start.union(items@.take(i as int).to_set()),
        decreases n - i,
    {
        sorted_triple_insert(derived, items[i]);
        proof {
            crate::idset::lemma_take_succ_to_set(items@, i as int);
            assert(derived@.to_set() =~= start.union(items@.take(i + 1).to_set()));
        }
        i += 1;
    }
    proof {
        assert(items@.take(n as int) =~= items@);
    }
}

/// Adds `(x, rdf:type, c)` for each effective class `c` of each instance
/// `x` that is not asserted.
fn derive_effective_types(index: &IndexedDataset, effective_types: &EffectiveTypeSet, derived: &mut Vec<Triple>)
    requires
        triples_sorted(old(derived)@),
    ensures
        triples_sorted(final(derived)@),
        final(derived)@.to_set() == old(derived)@.to_set().union(
            type_triples(effective_types@, index.vocab().rdf_type_id, index.source().to_set()),
        ),
{
    let ghost start = derived@.to_set();
    let ghost types = effective_types@;
    let rdf_type = index.rdf_type_id();
    let asserted = index.asserted_triples();
    let instances = effective_types.instances();
    let n = instances.len();
    let mut i: usize = 0;
    while i < n
        invariant
            n == instances@.len(),
            instances@.to_set() == types.dom(),
            types == effective_types@,
            rdf_type == index.vocab().rdf_type_id,
            asserted@ == index.source().to_set(),
            i <= n,
            triples_sorted(derived@),
            derived@.to_set() == start.union(
                type_triples(types, rdf_type, asserted@).filter(|t: Triple| instances@.take(i as int).contains(t.0)),
            ),
        decreases n - i,
    {
        let x = instances[i];
        let ghost before = derived@.to_set();
        proof {
            crate::idset::lemma_take_succ_to_set(instances@, i as int);
            assert(instances@.to_set().contains(x));
        }
        match effective_types.classes_for(x) {
            Some(m) => {
                let keys = m.keys();
                let k = keys.len();
                let mut j: usize = 0;
                while j < k
                    invariant
                        m.wf(),
                        m@ == types[x],
                        types.contains_key(x),
                        k == keys@.len(),
                        keys@.to_set() == m@.dom(),
                        j <= k,
                        triples_sorted(derived@),
                        derived@.to_set() == before.union(
                            Set::new(
                                |t: Triple|
                                    t.0 == x && t.1 == rdf_type && keys@.take(j as int).contains(t.2) && !asserted@.contains(t),
                            ),
                        ),
                    decreases k - j,
                {
                    let c = keys[j];
                    let candidate = (x, rdf_type, c);
                    let ghost mid = derived@.to_set();
                    if !asserted.contains(candidate) {
                        sorted_triple_insert(derived, candidate);
                    }
                    proof {
                        crate::idset::lemma_take_succ_to_set(keys@, j as int);
                        assert forall|y: u32| keys@.take(j + 1).contains(y) <==> (keys@.take(j as int).contains(y) || y == c) by {
                            assert(keys@.take(j + 1).contains(y) <==> keys@.take(j + 1).to_set().contains(y));
                            assert(keys@.take(j as int).contains(y) <==> keys@.take(j as int).to_set().contains(y));
                        }
                        assert forall|t: Triple| t.0 == x && t.1 == rdf_type && t.2 == c implies t == candidate by {}
                        if asserted@.contains(candidate) {
                            assert(derived@.to_set() == mid);
                        } else {
                            assert(derived@.to_set() == mid.insert(candidate));
                        }
                        let later = Set::new(
                            |t: Triple|
                                t.0 == x && t.1 == rdf_type && keys@.take(j + 1).contains(t.2) && !asserted@.contains(t),
                        );
                        let earlier = Set::new(
                            |t: Triple|
                                t.0 == x && t.1 == rdf_type && keys@.take(j as int).contains(t.2) && !asserted@.contains(t),
                        );
                        assert(mid == before.union(earlier));
                        assert forall|t: Triple| #[trigger] later.contains(t) <==> (earlier.contains(t) || (t == candidate && !asserted@.contains(candidate))) by {
                            if later.contains(t) && !earlier.contains(t) {
                                assert(t.2 == c);
                            }
                        }
                        assert(derived@.to_set() =~= before.union(later));
                    }
                    j += 1;
                }
                proof {
                    assert(keys@.take(k as int) =~= keys@);
                    assert forall|y: u32| keys@.contains(y) <==> m@.contains_key(y) by {
                        assert(keys@.contains(y) <==> keys@.to_set().contains(y));
                    }
                }
            },
            None => {},
        }
        proof {
            assert forall|y: u32| instances@.take(i + 1).contains(y) <==> (instances@.take(i as int).contains(y) || y == x) by {
                assert(instances@.take(i + 1).contains(y) <==> instances@.take(i + 1).to_set().contains(y));
                assert(instances@.take(i as int).contains(y) <==> instances@.take(i as int).to_set().contains(y));
            }
            assert(derived@.to_set() =~= start.union(
                type_triples(types, rdf_type, asserted@).filter(|t: Triple| instances@.take(i + 1).contains(t.0)),
            ));
        }
        i += 1;
    }
    proof {
        assert(instances@.take(n as int) =~= instances@);
        assert forall|t: Triple| type_triples(types, rdf_type, asserted@).contains(t) implies instances@.contains(t.0) by {
            assert(instances@.to_set().contains(t.0));
        }
        assert(type_triples(types, rdf_type, asserted@).filter(|t: Triple| instances@.take(n as int).contains(t.0)) =~= type_triples(
            types,
            rdf_type,
            asserted@,
        ));
    }
}

/// Adds `(l, owl:sameAs, r)` for each inferred pair `(l, r)` that is not
/// asserted either way.
fn derive_inferred_same_as(index: &IndexedDataset, inferred: &PairSet, derived: &mut Vec<Triple>)
    requires
        triples_sorted(old(derived)@),
    ensures
        triples_sorted(final(derived)@),
        final(derived)@.to_set() == old(derived)@.to_set().union(
            same_as_triples(inferred@, index.vocab().owl_same_as_id, index.source().to_set()),
        ),
{
    let ghost start = derived@.to_set();
    let same_as = index.owl_same_as_id();
    let asserted = index.asserted_triples();
    let pairs = inferred.as_slice();
    let n = pairs.len();
    let mut i: usize = 0;
    while i < n
        invariant
            n == pairs@.len(),
            pairs@.to_set() == inferred@,
            same_as == index.vocab().owl_same_as_id,
            asserted@ == index.source().to_set(),
            i <= n,
            triples_sorted(derived@),
            derived@.to_set() == start.union(same_as_triples(pairs@.take(i as int).to_set(), same_as, asserted@)),
        decreases n - i,
    {
        let (left_id, right_id) = pairs[i];
        let forward = (left_id, same_as, right_id);
        let reverse = (right_id, same_as, left_id);
        if !asserted.contains(forward) && !asserted.contains(reverse) {
            sorted_triple_insert(derived, forward);
        }
        proof {
            crate::idset::lemma_take_succ_to_set(pairs@, i as int);
            assert(derived@.to_set() =~= start.union(same_as_triples(pairs@.take(i + 1).to_set(), same_as, asserted@)));
        }
        i += 1;
    }
    proof {
        assert(pairs@.take(n as int) =~= pairs@);
    }
}

/// The triples that the rules entail beyond the asserted ones, as enabled
/// by `policy`.
pub open spec fn rule_closure(
    index: IndexedDataset,
    class_taxonomy: Map<u32, Set<u32>>,
    derived_assertions: Set<Triple>,
    types: Map<u32, Map<u32, crate::effective_types::origins::EffectiveTypeOrigin>>,
    inferred: Set<(u32, u32)>,
    policy: RulesMvpFeaturePolicy,
) -> Set<Triple> {
    let asserted = index.source().to_set();
    let v = index.vocab();
    (if policy.rdfs_subclass_closure == FeatureMode::Enabled {
        axiom_closure(index.edges(EdgeField::SubclassEdges).dom(), class_taxonomy, v.rdfs_subclass_of_id, asserted)
    } else {
        Set::empty()
    }).union(derived_assertions).union(
        if policy.rdfs_type_propagation == FeatureMode::Enabled {
            type_triples(types, v.rdf_type_id, asserted)
        } else {
            Set::empty()
        },
    ).union(
        if policy.owl_equality_reasoning == FeatureMode::Enabled {
            same_as_triples(inferred, v.owl_same_as_id, asserted)
        } else {
            Set::empty()
        },
    )
}

/// The triples to materialize: the subclass axioms that the class
/// hierarchy entails, the derived property assertions, the effective
/// types and the inferred `owl:sameAs` pairs, each as `policy` enables it
/// and none asserted; in increasing order.
pub fn derive_rule_closure(
    index: &IndexedDataset,
    class_taxonomy: &TaxonomyIndex,
    property_closure: &PropertyClosure,
    effective_types: &EffectiveTypeSet,
    inferred_same_as_pairs: &PairSet,
    policy: &RulesMvpFeaturePolicy,
) -> (r: Vec<Triple>)
    ensures
        triples_sorted(r@),
        r@.to_set() == rule_closure(
            *index,
            class_taxonomy.edges(),
            property_closure.derived(),
            effective_types@,
            inferred_same_as_pairs@,
            *policy,
        ),
{
    let mut derived: Vec<Triple> = if policy.rdfs_subclass_closure_enabled() {
        derive_subclass_axiom_closure(index, class_taxonomy)
    } else {
        Vec::new()
    };
    let ghost first = derived@.to_set();
    add_all(property_closure.derived_assertions().as_slice(), &mut derived);
    let ghost second = derived@.to_set();
    if policy.rdfs_type_propagation_enabled() {
        derive_effective_types(index, effective_types, &mut derived);
    }
    let ghost third = derived@.to_set();
    if policy.owl_equality_reasoning_enabled() {
        derive_inferred_same_as(index, inferred_same_as_pairs, &mut derived);
    }
    proof {
        let asserted = index.source().to_set();
        let v = index.vocab();
        if !(policy.rdfs_subclass_closure == FeatureMode::Enabled) {
            assert(first =~= Set::<Triple>::empty());
        }
        assert(second =~= first.union(property_closure.derived()));
        if !(policy.rdfs_type_propagation == FeatureMode::Enabled) {
            assert(third == second);
        }
        assert(derived@.to_set() =~= rule_closure(
            *index,
            class_taxonomy.edges(),
            property_closure.derived(),
            effective_types@,
            inferred_same_as_pairs@,
            *policy,
        ));
    }
    derived
}

/// Law: what the rules materialize. With the subclass closure on, each
/// resource with an asserted superclass gets a subclass axiom for every
/// ancestor in the class hierarchy that is not asserted; the derived
/// property assertions are all there; with type propagation on, so is the
/// typing of each instance with each effective class, and with equality
/// reasoning on, each inferred `owl:sameAs` pair asserted neither way.
/// Nothing else is.
pub proof fn law_rule_closure_members(
    index: IndexedDataset,
    class_taxonomy: Map<u32, Set<u32>>,
    derived_assertions: Set<Triple>,
    types: Map<u32, Map<u32, crate::effective_types::origins::EffectiveTypeOrigin>>,
    inferred: Set<(u32, u32)>,
    policy: RulesMvpFeaturePolicy,
    t: Triple,
)
    ensures
        policy.rdfs_subclass_closure == FeatureMode::Enabled && index.edges(EdgeField::SubclassEdges).contains_key(t.0)
            && t.1 == index.vocab().rdfs_subclass_of_id && ancestors(class_taxonomy, t.0).contains(t.2)
            && !index.source().contains(t) ==> rule_closure(index, class_taxonomy, derived_assertions, types, inferred, policy).contains(t),
        derived_assertions.contains(t) ==> rule_closure(index, class_taxonomy, derived_assertions, types, inferred, policy).contains(t),
        policy.rdfs_type_propagation == FeatureMode::Enabled && has_class(types, t.0, t.2) && t.1 == index.vocab().rdf_type_id
            && !index.source().contains(t) ==> rule_closure(index, class_taxonomy, derived_assertions, types, inferred, policy).contains(t),
        policy.owl_equality_reasoning == FeatureMode::Enabled && inferred.contains((t.0, t.2)) && t.1 == index.vocab().owl_same_as_id
            && !index.source().contains(t) && !index.source().contains((t.2, t.1, t.0)) ==> rule_closure(
            index,
            class_taxonomy,
            derived_assertions,
            types,
            inferred,
            policy,
        ).contains(t),
        rule_closure(index, class_taxonomy, derived_assertions, types, inferred, policy).contains(t) ==> {
            ||| (policy.rdfs_subclass_closure == FeatureMode::Enabled && index.edges(EdgeField::SubclassEdges).contains_key(t.0)
                && t.1 == index.vocab().rdfs_subclass_of_id && ancestors(class_taxonomy, t.0).contains(t.2)
                && !index.source().contains(t))
            ||| derived_assertions.contains(t)
            ||| (policy.rdfs_type_propagation == FeatureMode::Enabled && has_class(types, t.0, t.2)
                && t.1 == index.vocab().rdf_type_id && !index.source().contains(t))
            ||| (policy.owl_equality_reasoning == FeatureMode::Enabled && inferred.contains((t.0, t.2))
                && t.1 == index.vocab().owl_same_as_id && !index.source().contains(t)
                && !index.source().contains((t.2, t.1, t.0)))
        },
{
    let ts = index.source();
    assert(ts.to_set().contains(t) == ts.contains(t));
    assert(ts.to_set().contains((t.2, t.1, t.0)) == ts.contains((t.2, t.1, t.0)));
}

} // verus!
