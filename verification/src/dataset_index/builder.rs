use vstd::prelude::*;

use crate::dataset_index::ids::{lemma_intern_extends, IndexedVocabulary};
use crate::dataset_index::spec::{
    add_edge, characteristic_member, characteristic_set, different_from_set, edge_map,
    field_edge, lemma_edge_map_empty, lemma_edge_map_push, observed_set, observes,
    ordered_pair_spec, property_seq, same_as_seq, triple_kind, type_kind, EdgeField, TripleKind,
    TypeKind,
};
use crate::idset::{IdSet, IdSetMap};
use crate::model::TripleRef;
use crate::pairs::{PairSet, TripleSet};
use crate::symbols::SymbolTable;

verus! {

/// Number of edge maps of the index.
pub const EDGE_FIELD_COUNT: usize = 13;

/// Number of property-characteristic sets of the index.
pub const CHARACTERISTIC_COUNT: usize = 7;

/// The edge field stored at position `i`.
pub open spec fn edge_field_at(i: int) -> EdgeField {
    if i == 0 {
        EdgeField::SubclassEdges
    } else if i == 1 {
        EdgeField::SubpropertyEdges
    } else if i == 2 {
        EdgeField::PropertyChainAxiomHeads
    } else if i == 3 {
        EdgeField::ListFirst
    } else if i == 4 {
        EdgeField::ListRest
    } else if i == 5 {
        EdgeField::MembersHeads
    } else if i == 6 {
        EdgeField::DistinctMembersHeads
    } else if i == 7 {
        EdgeField::TypeAssertions
    } else if i == 8 {
        EdgeField::DomainByProperty
    } else if i == 9 {
        EdgeField::RangeByProperty
    } else if i == 10 {
        EdgeField::DisjointClassPairs
    } else if i == 11 {
        EdgeField::PropertyDisjointPairs
    } else {
        EdgeField::InverseOfPairs
    }
}

/// The property characteristic stored at position `i`.
pub open spec fn characteristic_at(i: int) -> TypeKind {
    if i == 0 {
        TypeKind::Functional
    } else if i == 1 {
        TypeKind::InverseFunctional
    } else if i == 2 {
        TypeKind::Irreflexive
    } else if i == 3 {
        TypeKind::Asymmetric
    } else if i == 4 {
        TypeKind::Reflexive
    } else if i == 5 {
        TypeKind::Symmetric
    } else {
        TypeKind::Transitive
    }
}

fn edge_field_exec(i: usize) -> (r: EdgeField)
    ensures
        r == edge_field_at(i as int),
{
    if i == 0 {
        EdgeField::SubclassEdges
    } else if i == 1 {
        EdgeField::SubpropertyEdges
    } else if i == 2 {
        EdgeField::PropertyChainAxiomHeads
    } else if i == 3 {
        EdgeField::ListFirst
    } else if i == 4 {
        EdgeField::ListRest
    } else if i == 5 {
        EdgeField::MembersHeads
    } else if i == 6 {
        EdgeField::DistinctMembersHeads
    } else if i == 7 {
        EdgeField::TypeAssertions
    } else if i == 8 {
        EdgeField::DomainByProperty
    } else if i == 9 {
        EdgeField::RangeByProperty
    } else if i == 10 {
        EdgeField::DisjointClassPairs
    } else if i == 11 {
        EdgeField::PropertyDisjointPairs
    } else {
        EdgeField::InverseOfPairs
    }
}

fn characteristic_exec(i: usize) -> (r: TypeKind)
    ensures
        r == characteristic_at(i as int),
{
    if i == 0 {
        TypeKind::Functional
    } else if i == 1 {
        TypeKind::InverseFunctional
    } else if i == 2 {
        TypeKind::Irreflexive
    } else if i == 3 {
        TypeKind::Asymmetric
    } else if i == 4 {
        TypeKind::Reflexive
    } else if i == 5 {
        TypeKind::Symmetric
    } else {
        TypeKind::Transitive
    }
}

/// The kind of a triple with predicate `p`.
pub fn classify_predicate(v: &IndexedVocabulary, p: u32) -> (r: TripleKind)
    ensures
        r == triple_kind(*v, p),
{
    if p == v.rdfs_subclass_of_id {
        TripleKind::SubClassOf
    } else if p == v.owl_equivalent_class_id {
        TripleKind::EquivalentClass
    } else if p == v.rdfs_subproperty_of_id {
        TripleKind::SubPropertyOf
    } else if p == v.owl_equivalent_property_id {
        TripleKind::EquivalentProperty
    } else if p == v.rdf_type_id {
        TripleKind::Type
    } else if p == v.rdfs_domain_id {
        TripleKind::Domain
    } else if p == v.rdfs_range_id {
        TripleKind::Range
    } else if p == v.owl_disjoint_with_id {
        TripleKind::DisjointWith
    } else if p == v.owl_property_disjoint_with_id {
        TripleKind::PropertyDisjointWith
    } else if p == v.owl_inverse_of_id {
        TripleKind::InverseOf
    } else if p == v.owl_same_as_id {
        TripleKind::SameAs
    } else if p == v.owl_different_from_id {
        TripleKind::DifferentFrom
    } else if p == v.owl_property_chain_axiom_id {
        TripleKind::PropertyChainAxiom
    } else if p == v.rdf_first_id {
        TripleKind::First
    } else if p == v.rdf_rest_id {
        TripleKind::Rest
    } else if p == v.owl_members_id {
        TripleKind::Members
    } else if p == v.owl_distinct_members_id {
        TripleKind::DistinctMembers
    } else {
        TripleKind::Property
    }
}

/// The kind of `x rdf:type o`.
pub fn classify_type(v: &IndexedVocabulary, o: u32) -> (r: TypeKind)
    ensures
        r == type_kind(*v, o),
{
    if o == v.owl_functional_property_id {
        TypeKind::Functional
    } else if o == v.owl_inverse_functional_property_id {
        TypeKind::InverseFunctional
    } else if o == v.owl_irreflexive_property_id {
        TypeKind::Irreflexive
    } else if o == v.owl_asymmetric_property_id {
        TypeKind::Asymmetric
    } else if o == v.owl_reflexive_property_id {
        TypeKind::Reflexive
    } else if o == v.owl_symmetric_property_id {
        TypeKind::Symmetric
    } else if o == v.owl_transitive_property_id {
        TypeKind::Transitive
    } else {
        TypeKind::Class
    }
}

fn field_edge_exec(v: &IndexedVocabulary, t: (u32, u32, u32), f: EdgeField) -> (r: Option<
    (u32, u32, bool),
>)
    ensures
        r == field_edge(*v, t, f),
{
    let k = classify_predicate(v, t.1);
    match f {
        EdgeField::SubclassEdges => if k == TripleKind::SubClassOf {
            Some((t.0, t.2, false))
        } else if k == TripleKind::EquivalentClass {
            Some((t.0, t.2, true))
        } else {
            None
        },
        EdgeField::SubpropertyEdges => if k == TripleKind::SubPropertyOf {
            Some((t.0, t.2, false))
        } else if k == TripleKind::EquivalentProperty {
            Some((t.0, t.2, true))
        } else {
            None
        },
        EdgeField::PropertyChainAxiomHeads => if k == TripleKind::PropertyChainAxiom {
            Some((t.0, t.2, false))
        } else {
            None
        },
        EdgeField::ListFirst => if k == TripleKind::First {
            Some((t.0, t.2, false))
        } else {
            None
        },
        EdgeField::ListRest => if k == TripleKind::Rest {
            Some((t.0, t.2, false))
        } else {
            None
        },
        EdgeField::MembersHeads => if k == TripleKind::Members {
            Some((t.0, t.2, false))
        } else {
            None
        },
        EdgeField::DistinctMembersHeads => if k == TripleKind::DistinctMembers {
            Some((t.0, t.2, false))
        } else {
            None
        },
        EdgeField::TypeAssertions => if k == TripleKind::Type && classify_type(v, t.2)
            == TypeKind::Class {
            Some((t.0, t.2, false))
        } else {
            None
        },
        EdgeField::DomainByProperty => if k == TripleKind::Domain {
            Some((t.0, t.2, false))
        } else {
            None
        },
        EdgeField::RangeByProperty => if k == TripleKind::Range {
            Some((t.0, t.2, false))
        } else {
            None
        },
        EdgeField::DisjointClassPairs => if k == TripleKind::DisjointWith {
            Some((t.0, t.2, true))
        } else {
            None
        },
        EdgeField::PropertyDisjointPairs => if k == TripleKind::PropertyDisjointWith {
            Some((t.0, t.2, true))
        } else {
            None
        },
        EdgeField::InverseOfPairs => if k == TripleKind::InverseOf {
            Some((t.0, t.2, true))
        } else {
            None
        },
    }
}

/// The pair `(left, right)` with the smaller id first.
pub fn ordered_pair(left: u32, right: u32) -> (r: (u32, u32))
    ensures
        r == ordered_pair_spec(left, right),
{
    if left <= right {
        (left, right)
    } else {
        (right, left)
    }
}

/// Everything the index collects while it reads the triples, before group
/// axioms are expanded.
pub struct IndexAccumulator {
    pub symbols: SymbolTable,
    pub vocabulary: IndexedVocabulary,
    pub asserted_triples: TripleSet,
    pub edges: Vec<IdSetMap>,
    pub property_assertions: Vec<(u32, u32, u32)>,
    pub same_as_pairs: Vec<(u32, u32)>,
    pub different_from_pairs: PairSet,
    pub observed_named_resources: IdSet,
    pub characteristics: Vec<IdSet>,
    pub supported_asserted_triples: u64,
    pub triples: Ghost<Seq<(u32, u32, u32)>>,
}

/// Each vocabulary id is a term of `terms` and resolves to its IRI.
#[verifier::opaque]
pub open spec fn vocabulary_resolves(v: IndexedVocabulary, terms: Seq<Seq<char>>) -> bool {
    &&& v.rdf_type_id < terms.len() && terms[v.rdf_type_id as int] == crate::vocabulary::RDF_TYPE@
    &&& v.rdf_first_id < terms.len() && terms[v.rdf_first_id as int] == crate::vocabulary::RDF_FIRST@
    &&& v.rdf_rest_id < terms.len() && terms[v.rdf_rest_id as int] == crate::vocabulary::RDF_REST@
    &&& v.rdf_nil_id < terms.len() && terms[v.rdf_nil_id as int] == crate::vocabulary::RDF_NIL@
    &&& v.rdfs_subclass_of_id < terms.len() && terms[v.rdfs_subclass_of_id as int] == crate::vocabulary::RDFS_SUBCLASS_OF@
    &&& v.rdfs_subproperty_of_id < terms.len() && terms[v.rdfs_subproperty_of_id as int] == crate::vocabulary::RDFS_SUBPROPERTY_OF@
    &&& v.rdfs_domain_id < terms.len() && terms[v.rdfs_domain_id as int] == crate::vocabulary::RDFS_DOMAIN@
    &&& v.rdfs_range_id < terms.len() && terms[v.rdfs_range_id as int] == crate::vocabulary::RDFS_RANGE@
    &&& v.owl_disjoint_with_id < terms.len() && terms[v.owl_disjoint_with_id as int] == crate::vocabulary::OWL_DISJOINT_WITH@
    &&& v.owl_equivalent_class_id < terms.len() && terms[v.owl_equivalent_class_id as int] == crate::vocabulary::OWL_EQUIVALENT_CLASS@
    &&& v.owl_equivalent_property_id < terms.len() && terms[v.owl_equivalent_property_id as int] == crate::vocabulary::OWL_EQUIVALENT_PROPERTY@
    &&& v.owl_nothing_id < terms.len() && terms[v.owl_nothing_id as int] == crate::vocabulary::OWL_NOTHING@
    &&& v.owl_same_as_id < terms.len() && terms[v.owl_same_as_id as int] == crate::vocabulary::OWL_SAME_AS@
    &&& v.owl_different_from_id < terms.len() && terms[v.owl_different_from_id as int] == crate::vocabulary::OWL_DIFFERENT_FROM@
    &&& v.owl_functional_property_id < terms.len() && terms[v.owl_functional_property_id as int] == crate::vocabulary::OWL_FUNCTIONAL_PROPERTY@
    &&& v.owl_inverse_functional_property_id < terms.len() && terms[v.owl_inverse_functional_property_id as int] == crate::vocabulary::OWL_INVERSE_FUNCTIONAL_PROPERTY@
    &&& v.owl_inverse_of_id < terms.len() && terms[v.owl_inverse_of_id as int] == crate::vocabulary::OWL_INVERSE_OF@
    &&& v.owl_property_disjoint_with_id < terms.len() && terms[v.owl_property_disjoint_with_id as int] == crate::vocabulary::OWL_PROPERTY_DISJOINT_WITH@
    &&& v.owl_irreflexive_property_id < terms.len() && terms[v.owl_irreflexive_property_id as int] == crate::vocabulary::OWL_IRREFLEXIVE_PROPERTY@
    &&& v.owl_asymmetric_property_id < terms.len() && terms[v.owl_asymmetric_property_id as int] == crate::vocabulary::OWL_ASYMMETRIC_PROPERTY@
    &&& v.owl_reflexive_property_id < terms.len() && terms[v.owl_reflexive_property_id as int] == crate::vocabulary::OWL_REFLEXIVE_PROPERTY@
    &&& v.owl_symmetric_property_id < terms.len() && terms[v.owl_symmetric_property_id as int] == crate::vocabulary::OWL_SYMMETRIC_PROPERTY@
    &&& v.owl_transitive_property_id < terms.len() && terms[v.owl_transitive_property_id as int] == crate::vocabulary::OWL_TRANSITIVE_PROPERTY@
    &&& v.owl_property_chain_axiom_id < terms.len() && terms[v.owl_property_chain_axiom_id as int] == crate::vocabulary::OWL_PROPERTY_CHAIN_AXIOM@
    &&& v.owl_members_id < terms.len() && terms[v.owl_members_id as int] == crate::vocabulary::OWL_MEMBERS@
    &&& v.owl_distinct_members_id < terms.len() && terms[v.owl_distinct_members_id as int] == crate::vocabulary::OWL_DISTINCT_MEMBERS@
    &&& v.owl_all_different_id < terms.len() && terms[v.owl_all_different_id as int] == crate::vocabulary::OWL_ALL_DIFFERENT@
    &&& v.owl_all_disjoint_classes_id < terms.len() && terms[v.owl_all_disjoint_classes_id as int] == crate::vocabulary::OWL_ALL_DISJOINT_CLASSES@
    &&& v.owl_all_disjoint_properties_id < terms.len() && terms[v.owl_all_disjoint_properties_id as int] == crate::vocabulary::OWL_ALL_DISJOINT_PROPERTIES@
}

/// Vocabulary ids keep resolving when terms are only added.
pub proof fn lemma_vocabulary_resolves_extends(v: IndexedVocabulary, t0: Seq<Seq<char>>, t1: Seq<Seq<char>>)
    requires
        vocabulary_resolves(v, t0),
        t0.len() <= t1.len(),
        forall|i: int| 0 <= i < t0.len() ==> #[trigger] t1[i] == t0[i],
    ensures
        vocabulary_resolves(v, t1),
{
    reveal(vocabulary_resolves);
}

impl IndexAccumulator {
    /// Every field holds what the triples read so far determine.
    pub open spec fn matches(&self) -> bool {
        let v = self.vocabulary;
        let ts = self.triples@;
        &&& self.asserted_triples@ == ts.to_set()
        &&& self.edges@.len() == EDGE_FIELD_COUNT
        &&& forall|i: int|
            0 <= i < EDGE_FIELD_COUNT ==> #[trigger] self.edges@[i]@ == edge_map(
                v,
                ts,
                edge_field_at(i),
            )
        &&& self.property_assertions@ == property_seq(v, ts)
        &&& self.same_as_pairs@ == same_as_seq(v, ts)
        &&& self.different_from_pairs@ == different_from_set(v, ts)
        &&& self.observed_named_resources@ == observed_set(v, ts)
        &&& self.characteristics@.len() == CHARACTERISTIC_COUNT
        &&& forall|i: int|
            0 <= i < CHARACTERISTIC_COUNT ==> #[trigger] self.characteristics@[i]@
                == characteristic_set(v, ts, characteristic_at(i))
        &&& self.supported_asserted_triples == ts.len()
        &&& forall|i: int|
            0 <= i < ts.len() ==> (#[trigger] ts[i]).0 < self.symbols@.len() && ts[i].1
                < self.symbols@.len() && ts[i].2 < self.symbols@.len()
        &&& vocabulary_resolves(v, self.symbols@)
        &&& self.symbols@.no_duplicates()
    }

    /// An accumulator that has read no triple.
    pub fn new() -> (r: IndexAccumulator)
        ensures
            r.matches(),
            r.triples@ == Seq::<(u32, u32, u32)>::empty(),
            r.symbols@.len() <= 29,
    {
        let mut symbols = SymbolTable::new();
        let vocabulary = IndexedVocabulary::new(&mut symbols);
        let mut edges: Vec<IdSetMap> = Vec::new();
        let mut i: usize = 0;
        while i < EDGE_FIELD_COUNT
            invariant
                i <= EDGE_FIELD_COUNT,
                edges@.len() == i,
                forall|j: int|
                    0 <= j < i ==> #[trigger] edges@[j]@ == Map::<u32, Set<u32>>::empty(),
            decreases EDGE_FIELD_COUNT - i,
        {
            edges.push(IdSetMap::new());
            i += 1;
        }
        let mut characteristics: Vec<IdSet> = Vec::new();
        let mut j: usize = 0;
        while j < CHARACTERISTIC_COUNT
            invariant
                j <= CHARACTERISTIC_COUNT,
                characteristics@.len() == j,
                forall|k: int|
                    0 <= k < j ==> #[trigger] characteristics@[k]@ == Set::<u32>::empty(),
            decreases CHARACTERISTIC_COUNT - j,
        {
            characteristics.push(IdSet::new());
            j += 1;
        }
        let r = IndexAccumulator {
            symbols,
            vocabulary,
            asserted_triples: TripleSet::new(),
            edges,
            property_assertions: Vec::new(),
            same_as_pairs: Vec::new(),
            different_from_pairs: PairSet::new(),
            observed_named_resources: IdSet::new(),
            characteristics,
            supported_asserted_triples: 0,
            triples: Ghost(Seq::empty()),
        };
        proof {
            reveal(vocabulary_resolves);
            let ts = Seq::<(u32, u32, u32)>::empty();
            assert(r.asserted_triples@ =~= ts.to_set());
            assert forall|i: int| 0 <= i < EDGE_FIELD_COUNT implies #[trigger] r.edges@[i]@
                == edge_map(vocabulary, ts, edge_field_at(i)) by {
                lemma_edge_map_empty(vocabulary, edge_field_at(i));
            }
            assert(r.property_assertions@ =~= property_seq(vocabulary, ts));
            assert(r.same_as_pairs@ =~= same_as_seq(vocabulary, ts));
            assert(r.different_from_pairs@ =~= different_from_set(vocabulary, ts));
            assert(r.observed_named_resources@ =~= observed_set(vocabulary, ts));
            assert forall|i: int| 0 <= i < CHARACTERISTIC_COUNT implies #[trigger] r.characteristics@[i]@
                == characteristic_set(vocabulary, ts, characteristic_at(i)) by {
                assert(characteristic_set(vocabulary, ts, characteristic_at(i)) =~= Set::<u32>::empty());
            }
        }
        r
    }

    /// Reads the triple `subject predicate object`.
    pub(crate) fn ingest_triple(&mut self, subject: &str, predicate: &str, object: &str)
        requires
            old(self).matches(),
            old(self).symbols@.len() + 3 < u32::MAX,
            old(self).triples@.len() + 1 < u64::MAX,
        ensures
            final(self).matches(),
            final(self).vocabulary == old(self).vocabulary,
            final(self).symbols@.len() <= old(self).symbols@.len() + 3,
            forall|i: int|
                0 <= i < old(self).symbols@.len() ==> #[trigger] final(self).symbols@[i]
                    == old(self).symbols@[i],
            final(self).triples@.len() == old(self).triples@.len() + 1,
            final(self).triples@.drop_last() == old(self).triples@,
            final(self).symbols@[final(self).triples@.last().0 as int] == subject@,
            final(self).symbols@[final(self).triples@.last().1 as int] == predicate@,
            final(self).symbols@[final(self).triples@.last().2 as int] == object@,
    {
        let ghost t0 = self.symbols@;
        let subject_id = self.symbols.get_or_intern(subject);
        let ghost t1 = self.symbols@;
        proof {
            lemma_intern_extends(t0, subject@);
        }
        let predicate_id = self.symbols.get_or_intern(predicate);
        let ghost t2 = self.symbols@;
        proof {
            lemma_intern_extends(t1, predicate@);
        }
        let object_id = self.symbols.get_or_intern(object);
        proof {
            lemma_intern_extends(t2, object@);
            lemma_vocabulary_resolves_extends(self.vocabulary, t0, self.symbols@);
        }
        let t = (subject_id, predicate_id, object_id);
        let ghost old_ts = self.triples@;
        let ghost ts = old_ts.push(t);
        let v = self.vocabulary;

        self.supported_asserted_triples = self.supported_asserted_triples + 1;
        self.asserted_triples.insert(t);
        proof {
            old_ts.lemma_push_to_set_commute(t);
        }

        let mut edges: Vec<IdSetMap> = Vec::new();
        std::mem::swap(&mut edges, &mut self.edges);
        let ghost start_edges = edges@;
        let mut i: usize = 0;
        while i < EDGE_FIELD_COUNT
            invariant
                i <= EDGE_FIELD_COUNT,
                edges@.len() == EDGE_FIELD_COUNT,
                start_edges.len() == EDGE_FIELD_COUNT,
                ts == old_ts.push(t),
                forall|j: int|
                    0 <= j < EDGE_FIELD_COUNT ==> #[trigger] start_edges[j]@ == edge_map(
                        v,
                        old_ts,
                        edge_field_at(j),
                    ),
                forall|j: int|
                    0 <= j < i ==> #[trigger] edges@[j]@ == edge_map(v, ts, edge_field_at(j)),
                forall|j: int|
                    i <= j < EDGE_FIELD_COUNT ==> #[trigger] edges@[j] == start_edges[j],
            decreases EDGE_FIELD_COUNT - i,
        {
            let f = edge_field_exec(i);
            proof {
                lemma_edge_map_push(v, old_ts, t, f);
            }
            let ghost before = edges@;
            assert(before[i as int]@ == edge_map(v, old_ts, f));
            let fe = field_edge_exec(&v, t, f);
            match fe {
                Some((a, b, symmetric)) => {
                    let ghost m0 = edges@[i as int]@;
                    edges[i].insert(a, b);
                    assert(edges@[i as int]@ == add_edge(m0, a, b));
                    if symmetric {
                        let ghost m1 = edges@[i as int]@;
                        edges[i].insert(b, a);
                        assert(edges@[i as int]@ == add_edge(m1, b, a));
                    }
                    assert(field_edge(v, t, f) == Some((a, b, symmetric)));
                    assert(m0 == edge_map(v, old_ts, f));
                    assert(edges@[i as int]@ == edge_map(v, ts, f));
                },
                None => {
                    assert(field_edge(v, t, f) is None);
                    assert(edges@[i as int]@ == edge_map(v, ts, f));
                },
            }
            proof {
                assert(edges@[i as int]@ == edge_map(v, ts, f));
                assert forall|j: int| 0 <= j < EDGE_FIELD_COUNT && j != i implies #[trigger] edges@[j]
                    == before[j] by {}
            }
            i += 1;
        }
        self.edges = edges;

        let kind = classify_predicate(&v, predicate_id);
        let ghost old_observed = self.observed_named_resources@;
        let ghost old_chars = self.characteristics@;
        if kind == TripleKind::Type {
            let tk = classify_type(&v, object_id);
            if tk == TypeKind::Class {
                self.observed_named_resources.insert(subject_id);
            } else {
                let mut chars: Vec<IdSet> = Vec::new();
                std::mem::swap(&mut chars, &mut self.characteristics);
                let mut c: usize = 0;
                while c < CHARACTERISTIC_COUNT
                    invariant
                        c <= CHARACTERISTIC_COUNT,
                        old_chars.len() == CHARACTERISTIC_COUNT,
                        chars@.len() == CHARACTERISTIC_COUNT,
                        tk == type_kind(v, object_id),
                        tk != TypeKind::Class,
                        forall|j: int|
                            0 <= j < c ==> #[trigger] chars@[j]@ == (if characteristic_at(j) == tk {
                                old_chars[j]@.insert(subject_id)
                            } else {
                                old_chars[j]@
                            }),
                        forall|j: int|
                            c <= j < CHARACTERISTIC_COUNT ==> #[trigger] chars@[j] == old_chars[j],
                    decreases CHARACTERISTIC_COUNT - c,
                {
                    let ghost before = chars@;
                    if characteristic_exec(c) == tk {
                        chars[c].insert(subject_id);
                    }
                    proof {
                        assert forall|j: int| 0 <= j < CHARACTERISTIC_COUNT && j != c implies #[trigger] chars@[j]
                            == before[j] by {}
                    }
                    c += 1;
                }
                self.characteristics = chars;
            }
        } else if kind == TripleKind::SameAs {
            self.observed_named_resources.insert(subject_id);
            self.observed_named_resources.insert(object_id);
            self.same_as_pairs.push((subject_id, object_id));
        } else if kind == TripleKind::DifferentFrom {
            self.observed_named_resources.insert(subject_id);
            self.observed_named_resources.insert(object_id);
            self.different_from_pairs.insert(ordered_pair(subject_id, object_id));
        } else if kind == TripleKind::Property {
            self.observed_named_resources.insert(subject_id);
            self.observed_named_resources.insert(object_id);
            self.property_assertions.push(t);
        }
        self.triples = Ghost(ts);
        proof {
            assert(ts.drop_last() =~= old_ts);
            assert(ts.last() == t);
            // plain sequences
            assert(self.property_assertions@ =~= property_seq(v, ts));
            assert(self.same_as_pairs@ =~= same_as_seq(v, ts));
            // observed resources
            assert forall|x: u32| observed_set(v, ts).contains(x) <==> (old_observed.contains(x)
                || observes(v, t, x)) by {
                if observed_set(v, ts).contains(x) {
                    let i = choose|i: int| 0 <= i < ts.len() && #[trigger] observes(v, ts[i], x);
                    if i < old_ts.len() {
                        assert(ts[i] == old_ts[i]);
                        assert(observes(v, old_ts[i], x));
                    }
                }
                if old_observed.contains(x) {
                    let i = choose|i: int| 0 <= i < old_ts.len() && #[trigger] observes(v, old_ts[i], x);
                    assert(ts[i] == old_ts[i]);
                    assert(observes(v, ts[i], x));
                }
                if observes(v, t, x) {
                    assert(observes(v, ts[old_ts.len() as int], x));
                }
            }
            assert(self.observed_named_resources@ =~= observed_set(v, ts));
            // differentFrom pairs
            assert forall|pr: (u32, u32)| different_from_set(v, ts).contains(pr) <==> (
            different_from_set(v, old_ts).contains(pr) || (triple_kind(v, t.1)
                == TripleKind::DifferentFrom && pr == ordered_pair_spec(t.0, t.2))) by {
                if different_from_set(v, ts).contains(pr) {
                    let i = choose|i: int|
                        0 <= i < ts.len() && triple_kind(v, ts[i].1) == TripleKind::DifferentFrom
                            && pr == #[trigger] ordered_pair_spec(ts[i].0, ts[i].2);
                    if i < old_ts.len() {
                        assert(ts[i] == old_ts[i]);
                    }
                }
                if different_from_set(v, old_ts).contains(pr) {
                    let i = choose|i: int|
                        0 <= i < old_ts.len() && triple_kind(v, old_ts[i].1)
                            == TripleKind::DifferentFrom && pr == #[trigger] ordered_pair_spec(
                            old_ts[i].0,
                            old_ts[i].2,
                        );
                    assert(ts[i] == old_ts[i]);
                }
                if triple_kind(v, t.1) == TripleKind::DifferentFrom && pr == ordered_pair_spec(
                    t.0,
                    t.2,
                ) {
                    assert(ts[old_ts.len() as int] == t);
                }
            }
            assert(self.different_from_pairs@ =~= different_from_set(v, ts));
            // characteristics
            assert forall|j: int| 0 <= j < CHARACTERISTIC_COUNT implies #[trigger] self.characteristics@[j]@
                == characteristic_set(v, ts, characteristic_at(j)) by {
                let tk = characteristic_at(j);
                assert forall|x: u32| characteristic_set(v, ts, tk).contains(x) <==> (
                characteristic_set(v, old_ts, tk).contains(x) || (characteristic_member(v, t, tk)
                    && t.0 == x)) by {
                    if characteristic_set(v, ts, tk).contains(x) {
                        let i = choose|i: int|
                            0 <= i < ts.len() && #[trigger] characteristic_member(v, ts[i], tk)
                                && ts[i].0 == x;
                        if i < old_ts.len() {
                            assert(ts[i] == old_ts[i]);
                            assert(characteristic_member(v, old_ts[i], tk));
                        }
                    }
                    if characteristic_set(v, old_ts, tk).contains(x) {
                        let i = choose|i: int|
                            0 <= i < old_ts.len() && #[trigger] characteristic_member(
                                v,
                                old_ts[i],
                                tk,
                            ) && old_ts[i].0 == x;
                        assert(ts[i] == old_ts[i]);
                        assert(characteristic_member(v, ts[i], tk));
                    }
                    if characteristic_member(v, t, tk) && t.0 == x {
                        assert(characteristic_member(v, ts[old_ts.len() as int], tk));
                    }
                }
                assert(self.characteristics@[j]@ =~= characteristic_set(v, ts, tk));
            }
            assert forall|i: int| 0 <= i < ts.len() implies (#[trigger] ts[i]).0
                < self.symbols@.len() && ts[i].1 < self.symbols@.len() && ts[i].2
                < self.symbols@.len() by {
                if i < old_ts.len() {
                    assert(ts[i] == old_ts[i]);
                }
            }
        }
    }
}

/// Reads `triples` into an accumulator.
pub(crate) fn accumulate(triples: &[TripleRef<'_>]) -> (r: IndexAccumulator)
    requires
        3 * triples@.len() + 40 < u32::MAX,
    ensures
        r.matches(),
        r.triples@.len() == triples@.len(),
        forall|i: int|
            0 <= i < triples@.len() ==> r.symbols@[(#[trigger] r.triples@[i]).0 as int]
                == triples@[i].subject@ && r.symbols@[r.triples@[i].1 as int]
                == triples@[i].predicate@ && r.symbols@[r.triples@[i].2 as int]
                == triples@[i].object@,
{
    let mut acc = IndexAccumulator::new();
    let n = triples.len();
    let mut i: usize = 0;
    while i < n
        invariant
            n == triples@.len(),
            3 * n + 40 < u32::MAX,
            i <= n,
            acc.matches(),
            acc.triples@.len() == i,
            acc.symbols@.len() <= 29 + 3 * i,
            forall|j: int|
                0 <= j < i ==> acc.symbols@[(#[trigger] acc.triples@[j]).0 as int]
                    == triples@[j].subject@ && acc.symbols@[acc.triples@[j].1 as int]
                    == triples@[j].predicate@ && acc.symbols@[acc.triples@[j].2 as int]
                    == triples@[j].object@,
        decreases n - i,
    {
        let triple = triples[i];
        let ghost before = acc;
        acc.ingest_triple(
            triple.subject.as_str(),
            triple.predicate.as_str(),
            triple.object.as_str(),
        );
        proof {
            assert forall|j: int| 0 <= j < i + 1 implies acc.symbols@[(#[trigger] acc.triples@[j]).0 as int]
                == triples@[j].subject@ && acc.symbols@[acc.triples@[j].1 as int]
                == triples@[j].predicate@ && acc.symbols@[acc.triples@[j].2 as int]
                == triples@[j].object@ by {
                if j < i {
                    assert(acc.triples@[j] == acc.triples@.drop_last()[j]);
                    assert(before.triples@[j] == acc.triples@[j]);
                }
            }
        }
        i += 1;
    }
    acc
}

} // verus!
