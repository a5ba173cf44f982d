use nrese::closure_index::ClosureIndex;
use nrese::class_consistency::blame::{build_disjoint_blame, text_less};
use nrese::class_consistency::detectors::{
    detect_class_consistency_conflicts, detect_disjoint_type_conflicts, detect_nothing_type_conflicts,
};
use nrese::class_consistency::prepared::PreparedClassConsistency;
use nrese::dataset_index::IndexedDataset;
use nrese::effective_types::origins::{DirectTypeOrigin, EffectiveTypeOrigin};
use nrese::identity::consistency::detect_different_from_conflicts;
use nrese::identity::inference::prepare_identity;
use nrese::materialization::{derive_rule_closure, derive_subclass_axiom_closure, derive_subproperty_axiom_closure};
use nrese::pairs::PairSet;
use nrese::policy::FeatureMode;
use nrese::property_consistency::detect_property_characteristic_conflicts;
use nrese::property_consistency::plan::PropertyCharacteristicPlan;
use nrese::vocabulary::{
    OWL_ASYMMETRIC_PROPERTY, OWL_DIFFERENT_FROM, OWL_DISJOINT_WITH, OWL_FUNCTIONAL_PROPERTY,
    OWL_IRREFLEXIVE_PROPERTY, OWL_NOTHING, OWL_PROPERTY_DISJOINT_WITH, OWL_SAME_AS, RDFS_SUBCLASS_OF,
    RDFS_SUBPROPERTY_OF, RDF_TYPE,
};
use nrese::effective_types::EffectiveTypeSet;
use nrese::identity::equality::EqualityIndex;
use nrese::model::{IriRef, TripleRef};
use nrese::policy::RulesMvpFeaturePolicy;
use nrese::property_chain::PropertyChainPlan;
use nrese::property_closure::PropertyClosure;
use nrese::traits::{DatasetSnapshot, TripleSource};

struct OwnedSnapshot {
    revision: u64,
    triples: Vec<(String, String, String)>,
    unsupported: u64,
}

impl OwnedSnapshot {
    fn new(triples: Vec<(&str, &str, &str)>) -> Self {
        Self::with_revision_and_unsupported(1, triples, 0)
    }

    fn with_revision_and_unsupported(revision: u64, triples: Vec<(&str, &str, &str)>, unsupported: u64) -> Self {
        OwnedSnapshot {
            revision,
            triples: triples
                .into_iter()
                .map(|(s, p, o)| (s.to_owned(), p.to_owned(), o.to_owned()))
                .collect(),
            unsupported,
        }
    }
}

impl TripleSource for OwnedSnapshot {
    fn triples(&self) -> Vec<TripleRef<'_>> {
        self.triples
            .iter()
            .map(|(s, p, o)| {
                TripleRef::new(
                    IriRef::new(s).expect("subject iri"),
                    IriRef::new(p).expect("predicate iri"),
                    IriRef::new(o).expect("object iri"),
                )
            })
            .collect()
    }
}

impl DatasetSnapshot for OwnedSnapshot {
    fn revision(&self) -> u64 {
        self.revision
    }

    fn unsupported_triple_count(&self) -> u64 {
        self.unsupported
    }
}

fn index_of(snapshot: &OwnedSnapshot) -> IndexedDataset {
    IndexedDataset::from_snapshot(snapshot).expect("indexed dataset")
}

fn policy() -> RulesMvpFeaturePolicy {
    RulesMvpFeaturePolicy::industry_default()
}

fn id_of(index: &IndexedDataset, iri: &str) -> u32 {
    index.symbols().lookup(iri).expect("interned term")
}

struct Pipeline {
    class_taxonomy: ClosureIndex,
    equality: EqualityIndex,
    closure: PropertyClosure,
    effective: EffectiveTypeSet,
}

fn pipeline(index: &IndexedDataset) -> Pipeline {
    let class_taxonomy = ClosureIndex::from_edges(index.subclass_edges());
    let property_taxonomy = ClosureIndex::from_edges(index.subproperty_edges());
    let equality = EqualityIndex::build(index);
    let chains = PropertyChainPlan::build(index);
    let closure = PropertyClosure::build(index, &property_taxonomy, &equality, &chains, &policy());
    let effective = EffectiveTypeSet::build(index, &class_taxonomy, &closure, &equality, true);
    Pipeline { class_taxonomy, equality, closure, effective }
}

#[test]
fn unsatisfiable_class_is_reported_through_owl_nothing() {
    let index = index_of(&OwnedSnapshot::new(vec![
        ("http://example.com/Bad", RDFS_SUBCLASS_OF, OWL_NOTHING),
        ("http://example.com/x", RDF_TYPE, "http://example.com/Bad"),
    ]));
    let p = pipeline(&index);
    let prepared = PreparedClassConsistency::build(&index, &p.class_taxonomy);
    assert!(prepared.unsatisfiable_classes().contains(id_of(&index, "http://example.com/Bad")));
    assert!(prepared.unsatisfiable_classes().contains(prepared.owl_nothing_id()));

    let violations = detect_nothing_type_conflicts(&index, &p.effective, &prepared);
    assert_eq!(violations.len(), 1);
    let v = &violations[0];
    assert_eq!(v.violated_constraint, "owl:Nothing");
    assert_eq!(v.focus_resource, "http://example.com/x");
    assert_eq!(v.left_type, "http://example.com/Bad");
    assert_eq!(v.right_type, OWL_NOTHING);
    assert_eq!(v.left_origin, "asserted");
    assert_eq!(v.right_origin, "subclass-derived from http://example.com/Bad (asserted)");
    assert_eq!(
        v.message,
        format!(
            "Consistency violation: http://example.com/x has effective type http://example.com/Bad (asserted), and http://example.com/Bad closes to {OWL_NOTHING}"
        )
    );
    assert_eq!(v.blame.principal_contributor, "http://example.com/Bad");
    assert_eq!(v.blame.contextual_contributor, OWL_NOTHING);
    assert_eq!(v.evidence.len(), 2);
    assert_eq!(v.evidence[1].object, OWL_NOTHING);

    let explanation = v.reject_explanation();
    assert_eq!(explanation.summary, v.message);
    assert_eq!(explanation.primary_conflicting_term, "http://example.com/Bad");
    assert_eq!(explanation.evidence.len(), 2);
}

#[test]
fn asserted_owl_nothing_is_reported_with_its_own_message() {
    let index = index_of(&OwnedSnapshot::new(vec![("http://example.com/x", RDF_TYPE, OWL_NOTHING)]));
    let p = pipeline(&index);
    let prepared = PreparedClassConsistency::build(&index, &p.class_taxonomy);
    let violations = detect_nothing_type_conflicts(&index, &p.effective, &prepared);
    assert_eq!(violations.len(), 1);
    assert_eq!(
        violations[0].message,
        format!("Consistency violation: http://example.com/x has effective type {OWL_NOTHING} (asserted)")
    );
}

#[test]
fn disjoint_effective_types_are_reported_once_per_pair() {
    let index = index_of(&OwnedSnapshot::new(vec![
        ("http://example.com/A", OWL_DISJOINT_WITH, "http://example.com/B"),
        ("http://example.com/x", RDF_TYPE, "http://example.com/A"),
        ("http://example.com/x", RDF_TYPE, "http://example.com/B"),
        ("http://example.com/y", RDF_TYPE, "http://example.com/A"),
    ]));
    let p = pipeline(&index);
    let prepared = PreparedClassConsistency::build(&index, &p.class_taxonomy);
    let violations = detect_disjoint_type_conflicts(&index, &p.effective, &prepared);
    assert_eq!(violations.len(), 1);
    let v = &violations[0];
    assert_eq!(v.violated_constraint, "owl:disjointWith");
    assert_eq!(v.focus_resource, "http://example.com/x");
    assert_eq!(v.left_type, "http://example.com/A");
    assert_eq!(v.right_type, "http://example.com/B");
    assert_eq!(
        v.message,
        "Consistency violation: http://example.com/x has disjoint effective types http://example.com/A (asserted) and http://example.com/B (asserted) via owl:disjointWith"
    );
    assert_eq!(v.evidence.len(), 3);
    assert_eq!(v.evidence[0].predicate, OWL_DISJOINT_WITH);
    assert_eq!(v.blame.principal_contributor, "http://example.com/A");

    let all = detect_class_consistency_conflicts(&index, &p.effective, &prepared);
    assert_eq!(all.len(), 1);
}

#[test]
fn consistent_data_has_no_class_violations() {
    let index = index_of(&OwnedSnapshot::new(vec![
        ("http://example.com/A", OWL_DISJOINT_WITH, "http://example.com/B"),
        ("http://example.com/x", RDF_TYPE, "http://example.com/A"),
        ("http://example.com/y", RDF_TYPE, "http://example.com/B"),
    ]));
    let p = pipeline(&index);
    let prepared = PreparedClassConsistency::build(&index, &p.class_taxonomy);
    assert!(detect_class_consistency_conflicts(&index, &p.effective, &prepared).is_empty());
}

#[test]
fn blame_prefers_the_more_direct_origin() {
    let asserted = EffectiveTypeOrigin::Direct(DirectTypeOrigin::Asserted);
    let domain = EffectiveTypeOrigin::Direct(DirectTypeOrigin::Domain { via_property_id: 3 });
    let blame = build_disjoint_blame("urn:z", &domain, "domain text", "urn:a", &asserted, "asserted");
    assert_eq!(blame.principal_contributor, "urn:a");
    assert_eq!(blame.contextual_contributor, "urn:z");
    let tie = build_disjoint_blame("urn:b", &asserted, "asserted", "urn:a", &asserted, "asserted");
    assert_eq!(tie.principal_contributor, "urn:a");
    assert_eq!(tie.heuristic, "prefer-more-direct-effective-type-origin");
}

#[test]
fn text_order_is_the_order_of_str() {
    for (a, b) in [("a", "b"), ("ab", "b"), ("a", "ab"), ("", "a"), ("z", "\u{e9}"), ("abc", "abd")] {
        assert_eq!(text_less(a, b), a < b, "{a} < {b}");
        assert_eq!(text_less(b, a), b < a, "{b} < {a}");
    }
    assert!(!text_less("same", "same"));
}

#[test]
fn different_from_between_equal_resources_is_reported() {
    let index = index_of(&OwnedSnapshot::new(vec![
        ("http://example.com/alice", OWL_SAME_AS, "http://example.com/alicia"),
        ("http://example.com/alice", OWL_DIFFERENT_FROM, "http://example.com/alicia"),
        ("http://example.com/bob", OWL_DIFFERENT_FROM, "http://example.com/carol"),
    ]));
    let equality = EqualityIndex::build(&index);
    let violations = detect_different_from_conflicts(&index, &equality);
    assert_eq!(violations.len(), 1);
    let v = &violations[0];
    assert_eq!(v.violated_constraint, "owl:differentFrom");
    assert_eq!(v.left_type, "http://example.com/alice");
    assert_eq!(v.right_type, "http://example.com/alicia");
    assert_eq!(
        v.right_origin,
        "effective equality cluster canonicalized as http://example.com/alice / http://example.com/alice"
    );
    assert_eq!(
        v.blame.principal_contributor,
        format!("<http://example.com/alice> <{OWL_DIFFERENT_FROM}> <http://example.com/alicia>")
    );
}

#[test]
fn functional_property_makes_its_objects_equal() {
    let index = index_of(&OwnedSnapshot::new(vec![
        ("http://example.com/hasMother", RDF_TYPE, OWL_FUNCTIONAL_PROPERTY),
        ("http://example.com/kid", "http://example.com/hasMother", "http://example.com/ann"),
        ("http://example.com/kid", "http://example.com/hasMother", "http://example.com/anna"),
    ]));
    let property_taxonomy = ClosureIndex::from_edges(index.subproperty_edges());
    let chains = PropertyChainPlan::build(&index);
    let plan = PropertyCharacteristicPlan::build(&index);
    let prepared = prepare_identity(&index, &property_taxonomy, &chains, &plan, &policy());
    let ann = id_of(&index, "http://example.com/ann");
    let anna = id_of(&index, "http://example.com/anna");
    assert_eq!(prepared.inferred_same_as_pairs().as_slice(), &[(ann.min(anna), ann.max(anna))]);
    assert!(prepared.equality().are_equivalent(ann, anna));
    assert_eq!(prepared.iterations(), 1);

    let disabled = RulesMvpFeaturePolicy { owl_equality_reasoning: FeatureMode::Disabled, ..policy() };
    let none = prepare_identity(&index, &property_taxonomy, &chains, &plan, &disabled);
    assert_eq!(none.inferred_same_as_pairs().len(), 0);
    assert!(!none.equality().are_equivalent(ann, anna));
}

#[test]
fn subclass_and_subproperty_axiom_closures_skip_asserted_triples() {
    let index = index_of(&OwnedSnapshot::new(vec![
        ("http://example.com/A", RDFS_SUBCLASS_OF, "http://example.com/B"),
        ("http://example.com/B", RDFS_SUBCLASS_OF, "http://example.com/C"),
        ("http://example.com/p", RDFS_SUBPROPERTY_OF, "http://example.com/q"),
        ("http://example.com/q", RDFS_SUBPROPERTY_OF, "http://example.com/r"),
    ]));
    let class_taxonomy = ClosureIndex::from_edges(index.subclass_edges());
    let property_taxonomy = ClosureIndex::from_edges(index.subproperty_edges());
    let classes = derive_subclass_axiom_closure(&index, &class_taxonomy);
    assert_eq!(
        classes,
        vec![(id_of(&index, "http://example.com/A"), index.rdfs_subclass_of_id(), id_of(&index, "http://example.com/C"))]
    );
    let properties = derive_subproperty_axiom_closure(&index, &property_taxonomy);
    assert_eq!(
        properties,
        vec![(id_of(&index, "http://example.com/p"), index.rdfs_subproperty_of_id(), id_of(&index, "http://example.com/r"))]
    );
}

#[test]
fn rule_closure_holds_types_and_inferred_equality_in_order() {
    let index = index_of(&OwnedSnapshot::new(vec![
        ("http://example.com/A", RDFS_SUBCLASS_OF, "http://example.com/B"),
        ("http://example.com/x", RDF_TYPE, "http://example.com/A"),
    ]));
    let p = pipeline(&index);
    let x = id_of(&index, "http://example.com/x");
    let a = id_of(&index, "http://example.com/A");
    let b = id_of(&index, "http://example.com/B");
    let mut inferred = PairSet::new();
    inferred.insert((a, x));
    let derived = derive_rule_closure(&index, &p.class_taxonomy, &p.closure, &p.effective, &inferred, &policy());
    let mut expected = vec![(x, index.rdf_type_id(), b), (a, index.owl_same_as_id(), x)];
    expected.sort();
    assert_eq!(derived, expected);
    assert!(derived.windows(2).all(|w| w[0] < w[1]));
}

#[test]
fn irreflexive_self_loop_is_a_property_violation() {
    let index = index_of(&OwnedSnapshot::new(vec![
        ("http://example.com/p", RDF_TYPE, OWL_IRREFLEXIVE_PROPERTY),
        ("http://example.com/x", "http://example.com/p", "http://example.com/x"),
    ]));
    let p = pipeline(&index);
    let violations = detect_property_characteristic_conflicts(&index, &p.closure);
    assert_eq!(violations.len(), 1);
    assert_eq!(violations[0].violated_constraint, "owl:IrreflexiveProperty");
    assert_eq!(violations[0].focus_resource, "http://example.com/x");
}

#[test]
fn property_violations_come_in_order_irreflexive_asymmetric_disjoint() {
    let index = index_of(&OwnedSnapshot::new(vec![
        ("http://example.com/p", RDF_TYPE, OWL_IRREFLEXIVE_PROPERTY),
        ("http://example.com/q", RDF_TYPE, OWL_ASYMMETRIC_PROPERTY),
        ("http://example.com/r", OWL_PROPERTY_DISJOINT_WITH, "http://example.com/s"),
        ("http://example.com/z", "http://example.com/p", "http://example.com/z"),
        ("http://example.com/a", "http://example.com/p", "http://example.com/a"),
        ("http://example.com/n", "http://example.com/q", "http://example.com/m"),
        ("http://example.com/m", "http://example.com/q", "http://example.com/n"),
        ("http://example.com/a", "http://example.com/r", "http://example.com/b"),
        ("http://example.com/a", "http://example.com/s", "http://example.com/b"),
    ]));
    let p = pipeline(&index);
    let violations = detect_property_characteristic_conflicts(&index, &p.closure);
    let kinds: Vec<&str> = violations.iter().map(|v| v.violated_constraint.as_str()).collect();
    assert_eq!(
        kinds,
        vec![
            "owl:IrreflexiveProperty",
            "owl:IrreflexiveProperty",
            "owl:AsymmetricProperty",
            "owl:propertyDisjointWith"
        ]
    );
    let z = id_of(&index, "http://example.com/z");
    let a = id_of(&index, "http://example.com/a");
    let first = if z < a { "http://example.com/z" } else { "http://example.com/a" };
    assert_eq!(violations[0].focus_resource, first);
    let n = id_of(&index, "http://example.com/n");
    let m = id_of(&index, "http://example.com/m");
    let smaller = if n < m { "http://example.com/n" } else { "http://example.com/m" };
    assert_eq!(violations[2].focus_resource, smaller);
    assert_eq!(violations[3].left_type, "http://example.com/r");
    assert_eq!(violations[3].right_type, "http://example.com/s");
}
