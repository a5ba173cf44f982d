use std::collections::BTreeSet;

use nrese::closure_index::ClosureIndex;
use nrese::dataset_index::IndexedDataset;
use nrese::effective_types::EffectiveTypeSet;
use nrese::identity::equality::EqualityIndex;
use nrese::model::{IriRef, TripleRef};
use nrese::policy::RulesMvpFeaturePolicy;
use nrese::property_chain::PropertyChainPlan;
use nrese::property_closure::PropertyClosure;
use nrese::traits::{DatasetSnapshot, TripleSource};

struct OwnedSnapshot {
    revision: u64,
    triples: Vec<(String, String, String)>,
    unsupported: u64,
}

impl OwnedSnapshot {
    fn new(triples: Vec<(&str, &str, &str)>) -> Self {
        Self::with_revision_and_unsupported(1, triples, 0)
    }

    fn with_revision_and_unsupported(revision: u64, triples: Vec<(&str, &str, &str)>, unsupported: u64) -> Self {
        OwnedSnapshot {
            revision,
            triples: triples
                .into_iter()
                .map(|(s, p, o)| (s.to_owned(), p.to_owned(), o.to_owned()))
                .collect(),
            unsupported,
        }
    }
}

impl TripleSource for OwnedSnapshot {
    fn triples(&self) -> Vec<TripleRef<'_>> {
        self.triples
            .iter()
            .map(|(s, p, o)| {
                TripleRef::new(
                    IriRef::new(s).expect("subject iri"),
                    IriRef::new(p).expect("predicate iri"),
                    IriRef::new(o).expect("object iri"),
                )
            })
            .collect()
    }
}

impl DatasetSnapshot for OwnedSnapshot {
    fn revision(&self) -> u64 {
        self.revision
    }

    fn unsupported_triple_count(&self) -> u64 {
        self.unsupported
    }
}

fn index_of(snapshot: &OwnedSnapshot) -> IndexedDataset {
    IndexedDataset::from_snapshot(snapshot).expect("indexed dataset")
}

fn default_rules_mvp_policy() -> RulesMvpFeaturePolicy {
    RulesMvpFeaturePolicy::industry_default()
}

fn property_closure(index: &IndexedDataset) -> (EqualityIndex, PropertyClosure) {
    let taxonomy = ClosureIndex::from_edges(index.subproperty_edges());
    let equality = EqualityIndex::build(index);
    let property_chain_plan = PropertyChainPlan::build(index);
    let closure = PropertyClosure::build(index, &taxonomy, &equality, &property_chain_plan, &default_rules_mvp_policy());
    (equality, closure)
}

fn build_effective_types(index: &IndexedDataset) -> EffectiveTypeSet {
    let class_taxonomy = ClosureIndex::from_edges(index.subclass_edges());
    let (equality, closure) = property_closure(index);
    EffectiveTypeSet::build(index, &class_taxonomy, &closure, &equality, true)
}

fn rendered_derived(index: &IndexedDataset, closure: &PropertyClosure) -> BTreeSet<(String, String, String)> {
    closure
        .derived_assertions()
        .as_slice()
        .iter()
        .filter_map(|(subject_id, predicate_id, object_id)| {
            Some((
                index.symbols().resolve(*subject_id)?.to_owned(),
                index.symbols().resolve(*predicate_id)?.to_owned(),
                index.symbols().resolve(*object_id)?.to_owned(),
            ))
        })
        .collect()
}

fn id_of(index: &IndexedDataset, iri: &str) -> u32 {
    index.symbols().lookup(iri).expect("interned term")
}

fn triple(s: &str, p: &str, o: &str) -> (String, String, String) {
    (s.to_owned(), p.to_owned(), o.to_owned())
}

#[test]
fn effective_types_include_asserted_domain_range_and_subclass_origins() {
    let snapshot = OwnedSnapshot::new(vec![
        ("http://example.com/Child", "http://www.w3.org/2000/01/rdf-schema#subClassOf", "http://example.com/Person"),
        ("http://example.com/p1", "http://www.w3.org/2000/01/rdf-schema#subPropertyOf", "http://example.com/p2"),
        ("http://example.com/p2", "http://www.w3.org/2000/01/rdf-schema#domain", "http://example.com/Child"),
        ("http://example.com/p2", "http://www.w3.org/2000/01/rdf-schema#range", "http://example.com/Document"),
        ("http://example.com/alice", "http://example.com/p1", "http://example.com/spec"),
    ]);

    let index = index_of(&snapshot);
    let effective = build_effective_types(&index);

    let alice_id = index
        .asserted_triples()
        .as_slice()
        .iter()
        .find_map(|(subject_id, _, _)| {
            index
                .symbols()
                .resolve(*subject_id)
                .filter(|iri| *iri == "http://example.com/alice")
                .map(|_| *subject_id)
        })
        .expect("alice id");
    let alice_types = effective.classes_for(alice_id).expect("alice types");

    assert!(alice_types
        .keys()
        .iter()
        .any(|class_id| index.symbols().resolve(*class_id) == Some("http://example.com/Child")));
    assert!(alice_types
        .keys()
        .iter()
        .any(|class_id| index.symbols().resolve(*class_id) == Some("http://example.com/Person")));
}

#[test]
fn equality_propagates_direct_types_between_equivalent_instances() {
    let snapshot = OwnedSnapshot::new(vec![
        ("http://example.com/alice", "http://www.w3.org/2002/07/owl#sameAs", "http://example.com/alicia"),
        ("http://example.com/alicia", "http://www.w3.org/1999/02/22-rdf-syntax-ns#type", "http://example.com/Person"),
    ]);

    let index = index_of(&snapshot);
    let effective = build_effective_types(&index);

    let alice_id = index
        .asserted_triples()
        .as_slice()
        .iter()
        .find_map(|(subject_id, _, _)| {
            index
                .symbols()
                .resolve(*subject_id)
                .filter(|iri| *iri == "http://example.com/alice")
                .map(|_| *subject_id)
        })
        .expect("alice id");
    let alice_types = effective.classes_for(alice_id).expect("alice types");
    let position = alice_types
        .keys()
        .iter()
        .position(|class_id| index.symbols().resolve(*class_id) == Some("http://example.com/Person"))
        .expect("person origin");
    let person_origin = alice_types.value_at(position);

    let description = EffectiveTypeSet::describe_origin(&index, person_origin).expect("origin description");
    assert!(description.contains("equality-derived"));
    assert!(description.contains("http://example.com/alicia"));
}

#[test]
fn property_closure_derives_inverse_symmetric_and_transitive_assertions() {
    let snapshot = OwnedSnapshot::new(vec![
        ("http://example.com/p1", "http://www.w3.org/2002/07/owl#inverseOf", "http://example.com/p2"),
        ("http://example.com/p2", "http://www.w3.org/1999/02/22-rdf-syntax-ns#type", "http://www.w3.org/2002/07/owl#SymmetricProperty"),
        ("http://example.com/p3", "http://www.w3.org/1999/02/22-rdf-syntax-ns#type", "http://www.w3.org/2002/07/owl#TransitiveProperty"),
        ("http://example.com/a", "http://example.com/p1", "http://example.com/b"),
        ("http://example.com/a", "http://example.com/p3", "http://example.com/b"),
        ("http://example.com/b", "http://example.com/p3", "http://example.com/c"),
    ]);

    let index = index_of(&snapshot);
    let (_, closure) = property_closure(&index);
    let rendered = rendered_derived(&index, &closure);

    assert!(rendered.contains(&triple("http://example.com/b", "http://example.com/p2", "http://example.com/a")));
    assert!(rendered.contains(&triple("http://example.com/a", "http://example.com/p2", "http://example.com/b")));
    assert!(rendered.contains(&triple("http://example.com/a", "http://example.com/p3", "http://example.com/c")));
}

#[test]
fn property_closure_expands_assertions_across_same_as_clusters() {
    let snapshot = OwnedSnapshot::new(vec![
        ("http://example.com/alice", "http://www.w3.org/2002/07/owl#sameAs", "http://example.com/alicia"),
        ("http://example.com/bob", "http://www.w3.org/2002/07/owl#sameAs", "http://example.com/robert"),
        ("http://example.com/alice", "http://example.com/knows", "http://example.com/bob"),
    ]);

    let index = index_of(&snapshot);
    let (_, closure) = property_closure(&index);
    let rendered = rendered_derived(&index, &closure);

    assert!(rendered.contains(&triple("http://example.com/alicia", "http://example.com/knows", "http://example.com/bob")));
    assert!(rendered.contains(&triple("http://example.com/alice", "http://example.com/knows", "http://example.com/robert")));
    assert!(rendered.contains(&triple("http://example.com/alicia", "http://example.com/knows", "http://example.com/robert")));
}

#[test]
fn property_closure_derives_reflexive_assertions_for_observed_resources() {
    let snapshot = OwnedSnapshot::new(vec![
        ("http://example.com/p", "http://www.w3.org/1999/02/22-rdf-syntax-ns#type", "http://www.w3.org/2002/07/owl#ReflexiveProperty"),
        ("http://example.com/alice", "http://example.com/knows", "http://example.com/bob"),
    ]);

    let index = index_of(&snapshot);
    let (_, closure) = property_closure(&index);
    let rendered = rendered_derived(&index, &closure);

    assert!(rendered.contains(&triple("http://example.com/alice", "http://example.com/p", "http://example.com/alice")));
    assert!(rendered.contains(&triple("http://example.com/bob", "http://example.com/p", "http://example.com/bob")));
}

#[test]
fn property_closure_derives_binary_property_chain_assertions() {
    let snapshot = OwnedSnapshot::new(vec![
        ("http://example.com/composed", "http://www.w3.org/2002/07/owl#propertyChainAxiom", "http://example.com/chain-head"),
        ("http://example.com/chain-head", "http://www.w3.org/1999/02/22-rdf-syntax-ns#first", "http://example.com/parentOf"),
        ("http://example.com/chain-head", "http://www.w3.org/1999/02/22-rdf-syntax-ns#rest", "http://example.com/chain-tail"),
        ("http://example.com/chain-tail", "http://www.w3.org/1999/02/22-rdf-syntax-ns#first", "http://example.com/locatedIn"),
        ("http://example.com/chain-tail", "http://www.w3.org/1999/02/22-rdf-syntax-ns#rest", "http://www.w3.org/1999/02/22-rdf-syntax-ns#nil"),
        ("http://example.com/alice", "http://example.com/parentOf", "http://example.com/bob"),
        ("http://example.com/bob", "http://example.com/locatedIn", "http://example.com/paris"),
    ]);

    let index = index_of(&snapshot);
    let (_, closure) = property_closure(&index);
    let rendered = rendered_derived(&index, &closure);

    assert!(rendered.contains(&triple("http://example.com/alice", "http://example.com/composed", "http://example.com/paris")));
}

#[test]
fn effective_types_are_closed_upwards_and_shared_by_equal_instances() {
    let index = index_of(&OwnedSnapshot::new(vec![
        ("http://example.com/A", "http://www.w3.org/2000/01/rdf-schema#subClassOf", "http://example.com/B"),
        ("http://example.com/B", "http://www.w3.org/2000/01/rdf-schema#subClassOf", "http://example.com/C"),
        ("http://example.com/x", "http://www.w3.org/1999/02/22-rdf-syntax-ns#type", "http://example.com/A"),
        ("http://example.com/x", "http://www.w3.org/2002/07/owl#sameAs", "http://example.com/y"),
    ]));
    let effective = build_effective_types(&index);
    for member in ["http://example.com/x", "http://example.com/y"] {
        let classes = effective.classes_for(id_of(&index, member)).expect("typed");
        let names: Vec<&str> = classes.keys().iter().filter_map(|c| index.symbols().resolve(*c)).collect();
        assert_eq!(names.len(), 3, "{member}: {names:?}");
        for class in ["http://example.com/A", "http://example.com/B", "http://example.com/C"] {
            assert!(names.contains(&class), "{member} lacks {class}");
        }
    }
    let x_classes = effective.classes_for(id_of(&index, "http://example.com/x")).expect("x");
    let c_position = x_classes.keys().iter().position(|c| *c == id_of(&index, "http://example.com/C")).expect("C");
    let text = EffectiveTypeSet::describe_origin(&index, x_classes.value_at(c_position)).expect("text");
    assert_eq!(text, "subclass-derived from http://example.com/A (asserted)");
    assert_eq!(effective.instances().len(), 2);
    assert!(effective.classes_for(id_of(&index, "http://example.com/A")).is_none());
}

#[test]
fn domain_and_range_typing_can_be_switched_off() {
    let index = index_of(&OwnedSnapshot::new(vec![
        ("http://example.com/p", "http://www.w3.org/2000/01/rdf-schema#domain", "http://example.com/D"),
        ("http://example.com/p", "http://www.w3.org/2000/01/rdf-schema#range", "http://example.com/R"),
        ("http://example.com/s", "http://example.com/p", "http://example.com/o"),
    ]));
    let class_taxonomy = ClosureIndex::from_edges(index.subclass_edges());
    let (equality, closure) = property_closure(&index);
    let untyped = EffectiveTypeSet::build(&index, &class_taxonomy, &closure, &equality, false);
    assert!(untyped.instances().is_empty());
    let typed = EffectiveTypeSet::build(&index, &class_taxonomy, &closure, &equality, true);
    let object = typed.classes_for(id_of(&index, "http://example.com/o")).expect("object typed");
    assert_eq!(object.keys(), &[id_of(&index, "http://example.com/R")]);
    let text = EffectiveTypeSet::describe_origin(&index, object.value_at(0)).expect("text");
    assert_eq!(text, "range-derived via http://example.com/p");
}

#[test]
fn property_chain_plan_reports_long_and_malformed_chains() {
    let first = "http://www.w3.org/1999/02/22-rdf-syntax-ns#first";
    let rest = "http://www.w3.org/1999/02/22-rdf-syntax-ns#rest";
    let nil = "http://www.w3.org/1999/02/22-rdf-syntax-ns#nil";
    let chain = "http://www.w3.org/2002/07/owl#propertyChainAxiom";
    let index = index_of(&OwnedSnapshot::new(vec![
        ("http://example.com/long", chain, "http://example.com/l1"),
        ("http://example.com/l1", first, "http://example.com/p"),
        ("http://example.com/l1", rest, "http://example.com/l2"),
        ("http://example.com/l2", first, "http://example.com/q"),
        ("http://example.com/l2", rest, "http://example.com/l3"),
        ("http://example.com/l3", first, "http://example.com/r"),
        ("http://example.com/l3", rest, nil),
        ("http://example.com/broken", chain, "http://example.com/b1"),
        ("http://example.com/b1", first, "http://example.com/p"),
    ]));
    let plan = PropertyChainPlan::build(&index);
    assert_eq!(plan.chain_count(), 0);
    assert_eq!(
        plan.diagnostics().to_vec(),
        vec![
            "owl:propertyChainAxiom beyond binary chains is not implemented in rules-mvp; ignored chain of length 3 for <http://example.com/long>".to_owned(),
            "owl:propertyChainAxiom over malformed named-node RDF lists is not implemented in rules-mvp; ignored chain for <http://example.com/broken> (missing rdf:rest entry)".to_owned(),
        ]
    );
}

#[test]
fn decimal_text_of_lengths() {
    assert_eq!(nrese::property_chain::decimal_string(0), "0");
    assert_eq!(nrese::property_chain::decimal_string(7), "7");
    assert_eq!(nrese::property_chain::decimal_string(1204), "1204");
}

#[test]
fn chains_are_listed_in_order_by_each_end() {
    let first = "http://www.w3.org/1999/02/22-rdf-syntax-ns#first";
    let rest = "http://www.w3.org/1999/02/22-rdf-syntax-ns#rest";
    let nil = "http://www.w3.org/1999/02/22-rdf-syntax-ns#nil";
    let chain = "http://www.w3.org/2002/07/owl#propertyChainAxiom";
    let index = index_of(&OwnedSnapshot::new(vec![
        ("http://example.com/s1", chain, "http://example.com/h1"),
        ("http://example.com/h1", first, "http://example.com/p"),
        ("http://example.com/h1", rest, "http://example.com/t1"),
        ("http://example.com/t1", first, "http://example.com/q"),
        ("http://example.com/t1", rest, nil),
        ("http://example.com/s2", chain, "http://example.com/h2"),
        ("http://example.com/h2", first, "http://example.com/p"),
        ("http://example.com/h2", rest, "http://example.com/t2"),
        ("http://example.com/t2", first, "http://example.com/r"),
        ("http://example.com/t2", rest, nil),
    ]));
    let plan = PropertyChainPlan::build(&index);
    assert_eq!(plan.chain_count(), 2);
    assert!(plan.diagnostics().is_empty());
    let p = id_of(&index, "http://example.com/p");
    let q = id_of(&index, "http://example.com/q");
    let starting = plan.chains_starting_with(p);
    assert_eq!(starting.len(), 2);
    assert!(starting[0].super_property_id < starting[1].super_property_id);
    let ending = plan.chains_ending_with(q);
    assert_eq!(ending.len(), 1);
    assert_eq!(ending[0].super_property_id, id_of(&index, "http://example.com/s1"));
    assert!(plan.chains_ending_with(p).is_empty());
}

#[test]
fn asserted_class_keeps_its_asserted_origin() {
    let index = index_of(&OwnedSnapshot::new(vec![
        ("http://example.com/p", "http://www.w3.org/2000/01/rdf-schema#domain", "http://example.com/Person"),
        ("http://example.com/bob", "http://example.com/p", "http://example.com/x"),
        ("http://example.com/bob", "http://www.w3.org/1999/02/22-rdf-syntax-ns#type", "http://example.com/Person"),
        ("http://example.com/bob", "http://www.w3.org/2002/07/owl#sameAs", "http://example.com/robert"),
    ]));
    let effective = build_effective_types(&index);
    let person = id_of(&index, "http://example.com/Person");
    let bob = effective.classes_for(id_of(&index, "http://example.com/bob")).expect("bob typed");
    let origin = bob.get(person).expect("bob is a person");
    assert_eq!(EffectiveTypeSet::describe_origin(&index, origin).as_deref(), Some("asserted"));
    let robert = effective.classes_for(id_of(&index, "http://example.com/robert")).expect("robert typed");
    let origin = robert.get(person).expect("robert is a person");
    assert_eq!(
        EffectiveTypeSet::describe_origin(&index, origin).as_deref(),
        Some("equality-derived via http://example.com/bob (asserted)")
    );
}

#[test]
fn inferred_same_as_pairs_keep_every_asserted_equivalence() {
    let index = index_of(&OwnedSnapshot::new(vec![
        ("http://example.com/a", "http://www.w3.org/2002/07/owl#sameAs", "http://example.com/b"),
        ("http://example.com/c", "http://example.com/knows", "http://example.com/d"),
    ]));
    let a = id_of(&index, "http://example.com/a");
    let b = id_of(&index, "http://example.com/b");
    let c = id_of(&index, "http://example.com/c");
    let d = id_of(&index, "http://example.com/d");
    let asserted = EqualityIndex::build(&index);
    let mut inferred = nrese::pairs::PairSet::new();
    inferred.insert((b.min(c), b.max(c)));
    let grown = EqualityIndex::build_with_inferred(&index, &inferred);
    assert!(asserted.are_equivalent(a, b));
    assert!(!asserted.are_equivalent(a, c));
    assert!(grown.are_equivalent(a, b));
    assert!(grown.are_equivalent(a, c));
    assert!(!grown.are_equivalent(a, d));
}

#[test]
fn equally_direct_origins_keep_the_least_source_class() {
    let index = index_of(&OwnedSnapshot::new(vec![
        ("http://example.com/p", "http://www.w3.org/2000/01/rdf-schema#domain", "http://example.com/A"),
        ("http://example.com/B", "http://www.w3.org/2000/01/rdf-schema#subClassOf", "http://example.com/A"),
        ("http://example.com/x", "http://www.w3.org/1999/02/22-rdf-syntax-ns#type", "http://example.com/B"),
        ("http://example.com/x", "http://example.com/p", "http://example.com/y"),
    ]));
    let a = id_of(&index, "http://example.com/A");
    let b = id_of(&index, "http://example.com/B");
    assert!(a < b);
    let effective = build_effective_types(&index);
    let classes = effective.classes_for(id_of(&index, "http://example.com/x")).expect("x typed");
    let origin = classes.get(a).expect("x is an A");
    assert_eq!(
        EffectiveTypeSet::describe_origin(&index, origin).as_deref(),
        Some("domain-derived via http://example.com/p")
    );
}

#[test]
fn canonical_of_is_the_least_member_and_stable() {
    let index = index_of(&OwnedSnapshot::new(vec![
        ("http://example.com/b", "http://www.w3.org/2002/07/owl#sameAs", "http://example.com/a"),
        ("http://example.com/a", "http://www.w3.org/2002/07/owl#sameAs", "http://example.com/c"),
    ]));
    let equality = EqualityIndex::build(&index);
    let b = id_of(&index, "http://example.com/b");
    let c = id_of(&index, "http://example.com/c");
    let least = equality.canonical_of(c);
    assert_eq!(least, b);
    assert_eq!(equality.canonical_of(least), least);
    let outsider = id_of(&index, "http://www.w3.org/2002/07/owl#sameAs");
    assert_eq!(equality.canonical_of(outsider), outsider);
}
