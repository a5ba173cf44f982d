use vstd::prelude::*;

pub mod builder;
pub mod group_axioms;
pub mod ids;
pub mod rdf_list;
pub mod schema_key;
pub mod spec;

use crate::dataset_index::builder::{accumulate, IndexAccumulator};
use crate::dataset_index::group_axioms::{
    declared_groups, expand_group_axioms, group_axiom_report, group_failures_reported, group_reports_once,
    ordered_pairs, pairs_of_groups, with_symmetric_pairs,
};
use crate::closure_index::successors;
use crate::dataset_index::ids::IndexedVocabulary;
use crate::dataset_index::schema_key::{schema_entries, schema_fingerprint, schema_key, SchemaEntry};
use crate::dataset_index::group_axioms::resolve_or_unknown;
use crate::dataset_index::spec::{
    characteristic_set, different_from_set, edge_map, observed_set, property_seq, same_as_seq,
    EdgeField, TypeKind,
};
use crate::idset::{edge_pairs, saturating_count, IdSet, IdSetMap};
use crate::model::TripleRef;
use crate::pairs::{PairSet, TripleSet};
use crate::symbols::SymbolTable;
use crate::error::{NreseError, NreseResult};
use crate::traits::DatasetSnapshot;

verus! {

/// The most triples an index holds: three new terms each, after the
/// vocabulary, must fit in `u32` ids.
pub const MAX_INDEXED_TRIPLES: usize = 1_431_655_750;

/// Why a snapshot with too many triples is refused.
pub const TOO_MANY_TERMS: &'static str = "snapshot has more terms than 32-bit term ids can number";

/// The edge map of field `f` over the triples `ts`.
pub open spec fn field(v: IndexedVocabulary, ts: Seq<(u32, u32, u32)>, f: EdgeField) -> Map<u32, Set<u32>> {
    edge_map(v, ts, f)
}

/// The `owl:AllDifferent` groups of `ts` declared through `owl:distinctMembers`.
pub open spec fn all_different_distinct_groups(v: IndexedVocabulary, ts: Seq<(u32, u32, u32)>) -> Set<(u32, u32)> {
    declared_groups(field(v, ts, EdgeField::TypeAssertions), field(v, ts, EdgeField::DistinctMembersHeads), v.owl_all_different_id)
}

/// The `owl:AllDifferent` groups of `ts` declared through `owl:members`.
pub open spec fn all_different_member_groups(v: IndexedVocabulary, ts: Seq<(u32, u32, u32)>) -> Set<(u32, u32)> {
    declared_groups(field(v, ts, EdgeField::TypeAssertions), field(v, ts, EdgeField::MembersHeads), v.owl_all_different_id)
}

/// The member pairs of the well-formed lists of `groups` in `ts`.
pub open spec fn group_pairs(v: IndexedVocabulary, ts: Seq<(u32, u32, u32)>, groups: Set<(u32, u32)>) -> Set<(u32, u32)> {
    pairs_of_groups(field(v, ts, EdgeField::ListFirst), field(v, ts, EdgeField::ListRest), v.rdf_nil_id, groups)
}

/// The `owl:differentFrom` pairs of `ts`, smaller id first: the asserted
/// ones and those of every `owl:AllDifferent` group.
pub open spec fn expanded_different_from(v: IndexedVocabulary, ts: Seq<(u32, u32, u32)>) -> Set<(u32, u32)> {
    different_from_set(v, ts).union(
        ordered_pairs(group_pairs(v, ts, all_different_distinct_groups(v, ts))),
    ).union(ordered_pairs(group_pairs(v, ts, all_different_member_groups(v, ts))))
}

/// The class-disjointness edges of `ts`: the asserted ones and those of
/// every `owl:AllDisjointClasses` group, in both directions.
pub open spec fn expanded_disjoint_classes(v: IndexedVocabulary, ts: Seq<(u32, u32, u32)>) -> Map<u32, Set<u32>> {
    with_symmetric_pairs(
        field(v, ts, EdgeField::DisjointClassPairs),
        group_pairs(v, ts, declared_groups(field(v, ts, EdgeField::TypeAssertions), field(v, ts, EdgeField::MembersHeads), v.owl_all_disjoint_classes_id)),
    )
}

/// The property-disjointness edges of `ts`: the asserted ones and those of
/// every `owl:AllDisjointProperties` group, in both directions.
pub open spec fn expanded_disjoint_properties(v: IndexedVocabulary, ts: Seq<(u32, u32, u32)>) -> Map<u32, Set<u32>> {
    with_symmetric_pairs(
        field(v, ts, EdgeField::PropertyDisjointPairs),
        group_pairs(v, ts, declared_groups(field(v, ts, EdgeField::TypeAssertions), field(v, ts, EdgeField::MembersHeads), v.owl_all_disjoint_properties_id)),
    )
}

/// An edge of a field that files both directions has its reverse.
proof fn lemma_symmetric_field_edge(v: IndexedVocabulary, ts: Seq<(u32, u32, u32)>, f: EdgeField, a: u32, b: u32)
    requires
        f == EdgeField::DisjointClassPairs || f == EdgeField::PropertyDisjointPairs || f == EdgeField::InverseOfPairs,
        successors(field(v, ts, f), a).contains(b),
    ensures
        successors(field(v, ts, f), b).contains(a),
{
    assert(spec::has_edge(v, ts, f, a, b));
    let i = choose|i: int| 0 <= i < ts.len() && #[trigger] spec::triple_edge(v, ts[i], f, a, b);
    assert(spec::triple_edge(v, ts[i], f, b, a));
    assert(spec::has_edge(v, ts, f, b, a));
}

/// Class disjointness relates each pair both ways.
proof fn lemma_expanded_symmetric(m: Map<u32, Set<u32>>, ps: Set<(u32, u32)>, a: u32, b: u32)
    requires
        forall|x: u32, y: u32| #[trigger] successors(m, x).contains(y) ==> successors(m, y).contains(x),
        successors(group_axioms::with_symmetric_pairs(m, ps), a).contains(b),
    ensures
        successors(group_axioms::with_symmetric_pairs(m, ps), b).contains(a),
{
    let e = group_axioms::with_symmetric_pairs(m, ps);
    if successors(m, a).contains(b) {
        assert(successors(m, b).contains(a));
        assert(e.contains_key(b));
    } else {
        assert(group_axioms::linked(ps, a, b));
        assert(group_axioms::linked(ps, b, a));
        assert(e.contains_key(b));
    }
}

/// Law: the class-disjointness edges, asserted or from
/// `owl:AllDisjointClasses` groups, relate each pair of classes both ways.
pub proof fn law_disjoint_classes_symmetric(v: IndexedVocabulary, ts: Seq<(u32, u32, u32)>, a: u32, b: u32)
    requires
        successors(expanded_disjoint_classes(v, ts), a).contains(b),
    ensures
        successors(expanded_disjoint_classes(v, ts), b).contains(a),
{
    assert forall|x: u32, y: u32| #[trigger] successors(field(v, ts, EdgeField::DisjointClassPairs), x).contains(y) implies successors(
        field(v, ts, EdgeField::DisjointClassPairs),
        y,
    ).contains(x) by {
        lemma_symmetric_field_edge(v, ts, EdgeField::DisjointClassPairs, x, y);
    }
    lemma_expanded_symmetric(
        field(v, ts, EdgeField::DisjointClassPairs),
        group_pairs(v, ts, declared_groups(field(v, ts, EdgeField::TypeAssertions), field(v, ts, EdgeField::MembersHeads), v.owl_all_disjoint_classes_id)),
        a,
        b,
    );
}

/// Law: `owl:inverseOf` relates each pair of properties both ways.
pub proof fn law_inverse_of_symmetric(v: IndexedVocabulary, ts: Seq<(u32, u32, u32)>, a: u32, b: u32)
    requires
        successors(field(v, ts, EdgeField::InverseOfPairs), a).contains(b),
    ensures
        successors(field(v, ts, EdgeField::InverseOfPairs), b).contains(a),
{
    lemma_symmetric_field_edge(v, ts, EdgeField::InverseOfPairs, a, b);
}

/// Law: the property-disjointness edges, asserted or from
/// `owl:AllDisjointProperties` groups, relate each pair of properties both
/// ways.
pub proof fn law_disjoint_properties_symmetric(v: IndexedVocabulary, ts: Seq<(u32, u32, u32)>, a: u32, b: u32)
    requires
        successors(expanded_disjoint_properties(v, ts), a).contains(b),
    ensures
        successors(expanded_disjoint_properties(v, ts), b).contains(a),
{
    assert forall|x: u32, y: u32| #[trigger] successors(field(v, ts, EdgeField::PropertyDisjointPairs), x).contains(y) implies successors(
        field(v, ts, EdgeField::PropertyDisjointPairs),
        y,
    ).contains(x) by {
        lemma_symmetric_field_edge(v, ts, EdgeField::PropertyDisjointPairs, x, y);
    }
    lemma_expanded_symmetric(
        field(v, ts, EdgeField::PropertyDisjointPairs),
        group_pairs(v, ts, declared_groups(field(v, ts, EdgeField::TypeAssertions), field(v, ts, EdgeField::MembersHeads), v.owl_all_disjoint_properties_id)),
        a,
        b,
    );
}


/// The schema parts of `ts` that the schema cache key covers: the maps
/// (class and property hierarchy, property-chain axioms with their lists,
/// domains, ranges, disjointness and inverses) and the property
/// characteristics.
pub open spec fn schema_maps(v: IndexedVocabulary, ts: Seq<(u32, u32, u32)>) -> Seq<Map<u32, Set<u32>>> {
    seq![
        field(v, ts, EdgeField::SubclassEdges),
        field(v, ts, EdgeField::SubpropertyEdges),
        field(v, ts, EdgeField::PropertyChainAxiomHeads),
        field(v, ts, EdgeField::ListFirst),
        field(v, ts, EdgeField::ListRest),
        field(v, ts, EdgeField::DomainByProperty),
        field(v, ts, EdgeField::RangeByProperty),
        expanded_disjoint_classes(v, ts),
        expanded_disjoint_properties(v, ts),
        field(v, ts, EdgeField::InverseOfPairs),
    ]
}

/// The property-characteristic sets of `ts` that the schema cache key
/// covers.
pub open spec fn schema_sets(v: IndexedVocabulary, ts: Seq<(u32, u32, u32)>) -> Seq<Set<u32>> {
    seq![
        characteristic_set(v, ts, TypeKind::Functional),
        characteristic_set(v, ts, TypeKind::InverseFunctional),
        characteristic_set(v, ts, TypeKind::Irreflexive),
        characteristic_set(v, ts, TypeKind::Asymmetric),
        characteristic_set(v, ts, TypeKind::Reflexive),
        characteristic_set(v, ts, TypeKind::Symmetric),
        characteristic_set(v, ts, TypeKind::Transitive),
    ]
}

/// The rule-relevant index of a dataset snapshot: terms interned to ids,
/// the asserted triples, the schema edges, the property characteristics,
/// the ABox assertions, and the group axioms expanded into pairs.
pub struct IndexedDataset {
    symbols: SymbolTable,
    asserted_triples: TripleSet,
    subclass_edges: IdSetMap,
    subproperty_edges: IdSetMap,
    property_chain_axiom_heads: IdSetMap,
    members_heads_by_subject: IdSetMap,
    distinct_members_heads_by_subject: IdSetMap,
    list_first_by_node: IdSetMap,
    list_rest_by_node: IdSetMap,
    type_assertions: IdSetMap,
    domain_by_property: IdSetMap,
    range_by_property: IdSetMap,
    property_assertions: Vec<(u32, u32, u32)>,
    same_as_pairs: Vec<(u32, u32)>,
    different_from_pairs: PairSet,
    observed_named_resources: IdSet,
    disjoint_class_pairs: IdSetMap,
    property_disjoint_pairs: IdSetMap,
    inverse_of_pairs: IdSetMap,
    functional_properties: IdSet,
    inverse_functional_properties: IdSet,
    irreflexive_properties: IdSet,
    asymmetric_properties: IdSet,
    reflexive_properties: IdSet,
    symmetric_properties: IdSet,
    transitive_properties: IdSet,
    group_axiom_diagnostics: Vec<String>,
    schema_cache_key: u64,
    vocabulary: IndexedVocabulary,
    supported_asserted_triples: u64,
    unsupported_asserted_triples: u64,
    triples: Ghost<Seq<(u32, u32, u32)>>,
}

impl IndexedDataset {
    #[verifier::type_invariant]
    spec fn inv(&self) -> bool {
        let v = self.vocabulary;
        let ts = self.triples@;
        &&& self.asserted_triples@ == ts.to_set()
        &&& self.subclass_edges@ == field(v, ts, EdgeField::SubclassEdges)
        &&& self.subproperty_edges@ == field(v, ts, EdgeField::SubpropertyEdges)
        &&& self.property_chain_axiom_heads@ == field(v, ts, EdgeField::PropertyChainAxiomHeads)
        &&& self.members_heads_by_subject@ == field(v, ts, EdgeField::MembersHeads)
        &&& self.distinct_members_heads_by_subject@ == field(v, ts, EdgeField::DistinctMembersHeads)
        &&& self.list_first_by_node@ == field(v, ts, EdgeField::ListFirst)
        &&& self.list_rest_by_node@ == field(v, ts, EdgeField::ListRest)
        &&& self.type_assertions@ == field(v, ts, EdgeField::TypeAssertions)
        &&& self.domain_by_property@ == field(v, ts, EdgeField::DomainByProperty)
        &&& self.range_by_property@ == field(v, ts, EdgeField::RangeByProperty)
        &&& self.inverse_of_pairs@ == field(v, ts, EdgeField::InverseOfPairs)
        &&& self.property_assertions@ == property_seq(v, ts)
        &&& self.same_as_pairs@ == same_as_seq(v, ts)
        &&& self.different_from_pairs@ == expanded_different_from(v, ts)
        &&& self.observed_named_resources@ == observed_set(v, ts)
        &&& self.disjoint_class_pairs@ == expanded_disjoint_classes(v, ts)
        &&& self.property_disjoint_pairs@ == expanded_disjoint_properties(v, ts)
        &&& self.functional_properties@ == characteristic_set(v, ts, TypeKind::Functional)
        &&& self.inverse_functional_properties@ == characteristic_set(v, ts, TypeKind::InverseFunctional)
        &&& self.irreflexive_properties@ == characteristic_set(v, ts, TypeKind::Irreflexive)
        &&& self.asymmetric_properties@ == characteristic_set(v, ts, TypeKind::Asymmetric)
        &&& self.reflexive_properties@ == characteristic_set(v, ts, TypeKind::Reflexive)
        &&& self.symmetric_properties@ == characteristic_set(v, ts, TypeKind::Symmetric)
        &&& self.transitive_properties@ == characteristic_set(v, ts, TypeKind::Transitive)
        &&& forall|k: int| 0 <= k < self.group_axiom_diagnostics@.len() ==> #[trigger] group_axiom_report(
            self.list_first_by_node@,
            self.list_rest_by_node@,
            v.rdf_nil_id,
            self.symbols@,
            self.type_assertions@,
            self.members_heads_by_subject@,
            self.distinct_members_heads_by_subject@,
            v,
            self.group_axiom_diagnostics@[k]@,
        )
        &&& group_failures_reported(
            self.list_first_by_node@,
            self.list_rest_by_node@,
            v.rdf_nil_id,
            self.symbols@,
            self.type_assertions@,
            self.members_heads_by_subject@,
            self.distinct_members_heads_by_subject@,
            v,
            self.group_axiom_diagnostics@,
        )
        &&& group_reports_once(
            self.list_first_by_node@,
            self.list_rest_by_node@,
            v.rdf_nil_id,
            self.symbols@,
            self.type_assertions@,
            self.members_heads_by_subject@,
            self.distinct_members_heads_by_subject@,
            v,
            self.group_axiom_diagnostics@,
        )
        &&& self.schema_cache_key == schema_fingerprint(self.symbols@, schema_entries(schema_maps(v, ts), schema_sets(v, ts)))
        &&& schema_entries(schema_maps(v, ts), schema_sets(v, ts)).finite()
        &&& self.supported_asserted_triples == ts.len()
        &&& forall|i: int|
            0 <= i < ts.len() ==> (#[trigger] ts[i]).0 < self.symbols@.len() && ts[i].1
                < self.symbols@.len() && ts[i].2 < self.symbols@.len()
        &&& crate::dataset_index::builder::vocabulary_resolves(v, self.symbols@)
        &&& self.symbols@.no_duplicates()
    }

    /// The asserted triples the index was built from, as ids.
    pub closed spec fn source(&self) -> Seq<(u32, u32, u32)> {
        self.triples@
    }

    /// The vocabulary ids of the index.
    pub closed spec fn vocab(&self) -> IndexedVocabulary {
        self.vocabulary
    }

    /// The interned terms: id `i` stands for `terms()[i]`.
    pub closed spec fn terms(&self) -> Seq<Seq<char>> {
        self.symbols@
    }

    /// The edge map of field `f` of the index.
    pub open spec fn edges(&self, f: EdgeField) -> Map<u32, Set<u32>> {
        field(self.vocab(), self.source(), f)
    }

    /// Indexes `triples`; `unsupported` triples of the snapshot were not
    /// readable as IRI triples.
    pub fn from_triples(triples: &[TripleRef<'_>], unsupported: u64) -> (r: IndexedDataset)
        requires
            3 * triples@.len() + 40 < u32::MAX,
        ensures
            r.source().len() == triples@.len(),
            forall|i: int|
                0 <= i < triples@.len() ==> r.terms()[(#[trigger] r.source()[i]).0 as int]
                    == triples@[i].subject@ && r.terms()[r.source()[i].1 as int]
                    == triples@[i].predicate@ && r.terms()[r.source()[i].2 as int]
                    == triples@[i].object@,
            r.terms().no_duplicates(),
            forall|i: int|
                0 <= i < r.source().len() ==> (#[trigger] r.source()[i]).0 < r.terms().len()
                    && r.source()[i].1 < r.terms().len() && r.source()[i].2 < r.terms().len(),
            crate::dataset_index::builder::vocabulary_resolves(r.vocab(), r.terms()),
            r.unsupported_count() == unsupported,
    {
        let acc = accumulate(triples);
        let IndexAccumulator {
            symbols,
            vocabulary,
            asserted_triples,
            mut edges,
            property_assertions,
            same_as_pairs,
            mut different_from_pairs,
            observed_named_resources,
            mut characteristics,
            supported_asserted_triples,
            triples: ghost_triples,
        } = acc;
        let ghost ts = ghost_triples@;
        let ghost all_edges = edges@;
        let ghost all_sets = characteristics@;
        assert(all_edges.len() == 13);
        assert(all_sets.len() == 7);
        let mut inverse_of_pairs = take_last_map(&mut edges);
        let mut property_disjoint_pairs = take_last_map(&mut edges);
        let mut disjoint_class_pairs = take_last_map(&mut edges);
        let range_by_property = take_last_map(&mut edges);
        let domain_by_property = take_last_map(&mut edges);
        let type_assertions = take_last_map(&mut edges);
        let distinct_members_heads_by_subject = take_last_map(&mut edges);
        let members_heads_by_subject = take_last_map(&mut edges);
        let list_rest_by_node = take_last_map(&mut edges);
        let list_first_by_node = take_last_map(&mut edges);
        let property_chain_axiom_heads = take_last_map(&mut edges);
        let subproperty_edges = take_last_map(&mut edges);
        let subclass_edges = take_last_map(&mut edges);
        let transitive_properties = take_last_set(&mut characteristics);
        let symmetric_properties = take_last_set(&mut characteristics);
        let reflexive_properties = take_last_set(&mut characteristics);
        let asymmetric_properties = take_last_set(&mut characteristics);
        let irreflexive_properties = take_last_set(&mut characteristics);
        let inverse_functional_properties = take_last_set(&mut characteristics);
        let functional_properties = take_last_set(&mut characteristics);
        proof {
            assert(inverse_of_pairs@ == all_edges[12]@);
            assert(subclass_edges@ == all_edges[0]@);
            assert(functional_properties@ == all_sets[0]@);
            assert(transitive_properties@ == all_sets[6]@);
        }
        let mut group_axiom_diagnostics: Vec<String> = Vec::new();
        expand_group_axioms(
            &symbols,
            &vocabulary,
            &type_assertions,
            &list_first_by_node,
            &list_rest_by_node,
            &members_heads_by_subject,
            &distinct_members_heads_by_subject,
            &mut different_from_pairs,
            &mut disjoint_class_pairs,
            &mut property_disjoint_pairs,
            &mut group_axiom_diagnostics,
        );
        proof {
            assert(group_axiom_diagnostics@.skip(0) =~= group_axiom_diagnostics@);
        }
        let maps: Vec<&IdSetMap> = vec![
            &subclass_edges,
            &subproperty_edges,
            &property_chain_axiom_heads,
            &list_first_by_node,
            &list_rest_by_node,
            &domain_by_property,
            &range_by_property,
            &disjoint_class_pairs,
            &property_disjoint_pairs,
            &inverse_of_pairs,
        ];
        let sets: Vec<&IdSet> = vec![
            &functional_properties,
            &inverse_functional_properties,
            &irreflexive_properties,
            &asymmetric_properties,
            &reflexive_properties,
            &symmetric_properties,
            &transitive_properties,
        ];
        let schema_cache_key = schema_key(&symbols, maps.as_slice(), sets.as_slice());
        proof {
            assert(maps@.map_values(|m: &IdSetMap| m@) =~= schema_maps(vocabulary, ts));
            assert(sets@.map_values(|x: &IdSet| x@) =~= schema_sets(vocabulary, ts));
        }
        IndexedDataset {
            symbols,
            asserted_triples,
            subclass_edges,
            subproperty_edges,
            property_chain_axiom_heads,
            members_heads_by_subject,
            distinct_members_heads_by_subject,
            list_first_by_node,
            list_rest_by_node,
            type_assertions,
            domain_by_property,
            range_by_property,
            property_assertions,
            same_as_pairs,
            different_from_pairs,
            observed_named_resources,
            disjoint_class_pairs,
            property_disjoint_pairs,
            inverse_of_pairs,
            functional_properties,
            inverse_functional_properties,
            irreflexive_properties,
            asymmetric_properties,
            reflexive_properties,
            symmetric_properties,
            transitive_properties,
            group_axiom_diagnostics,
            schema_cache_key,
            vocabulary,
            supported_asserted_triples,
            unsupported_asserted_triples: unsupported,
            triples: Ghost(ts),
        }
    }

    /// The interned terms.
    pub fn symbols(&self) -> (r: &SymbolTable)
        ensures
            r@ == self.terms(),
    {
        proof {
            use_type_invariant(self);
        }
        &self.symbols
    }
    /// The vocabulary ids.
    pub fn vocabulary(&self) -> (r: &IndexedVocabulary)
        ensures
            *r == self.vocab(),
    {
        proof {
            use_type_invariant(self);
        }
        &self.vocabulary
    }
    /// The asserted triples, as ids.
    pub fn asserted_triples(&self) -> (r: &TripleSet)
        ensures
            r@ == self.source().to_set(),
    {
        proof {
            use_type_invariant(self);
        }
        &self.asserted_triples
    }
    /// The `rdfs:subClassOf` edges, with `owl:equivalentClass` in both directions.
    pub fn subclass_edges(&self) -> (r: &IdSetMap)
        ensures
            r@ == self.edges(EdgeField::SubclassEdges),
    {
        proof {
            use_type_invariant(self);
        }
        &self.subclass_edges
    }
    /// The `rdfs:subPropertyOf` edges, with `owl:equivalentProperty` in both directions.
    pub fn subproperty_edges(&self) -> (r: &IdSetMap)
        ensures
            r@ == self.edges(EdgeField::SubpropertyEdges),
    {
        proof {
            use_type_invariant(self);
        }
        &self.subproperty_edges
    }
    /// The `owl:propertyChainAxiom` list heads by composed property.
    pub fn property_chain_axiom_heads(&self) -> (r: &IdSetMap)
        ensures
            r@ == self.edges(EdgeField::PropertyChainAxiomHeads),
    {
        proof {
            use_type_invariant(self);
        }
        &self.property_chain_axiom_heads
    }
    /// The `rdf:first` values by list node.
    pub fn list_first_by_node(&self) -> (r: &IdSetMap)
        ensures
            r@ == self.edges(EdgeField::ListFirst),
    {
        proof {
            use_type_invariant(self);
        }
        &self.list_first_by_node
    }
    /// The `rdf:rest` values by list node.
    pub fn list_rest_by_node(&self) -> (r: &IdSetMap)
        ensures
            r@ == self.edges(EdgeField::ListRest),
    {
        proof {
            use_type_invariant(self);
        }
        &self.list_rest_by_node
    }
    /// The asserted classes of each instance.
    pub fn type_assertions(&self) -> (r: &IdSetMap)
        ensures
            r@ == self.edges(EdgeField::TypeAssertions),
    {
        proof {
            use_type_invariant(self);
        }
        &self.type_assertions
    }
    /// The `rdfs:domain` classes by property.
    pub fn domain_by_property(&self) -> (r: &IdSetMap)
        ensures
            r@ == self.edges(EdgeField::DomainByProperty),
    {
        proof {
            use_type_invariant(self);
        }
        &self.domain_by_property
    }
    /// The `rdfs:range` classes by property.
    pub fn range_by_property(&self) -> (r: &IdSetMap)
        ensures
            r@ == self.edges(EdgeField::RangeByProperty),
    {
        proof {
            use_type_invariant(self);
        }
        &self.range_by_property
    }
    /// The `owl:inverseOf` edges, in both directions.
    pub fn inverse_of_pairs(&self) -> (r: &IdSetMap)
        ensures
            r@ == self.edges(EdgeField::InverseOfPairs),
    {
        proof {
            use_type_invariant(self);
        }
        &self.inverse_of_pairs
    }
    /// The plain property assertions, in the order they were read.
    pub fn property_assertions(&self) -> (r: &[(u32, u32, u32)])
        ensures
            r@ == property_seq(self.vocab(), self.source()),
    {
        proof {
            use_type_invariant(self);
        }
        self.property_assertions.as_slice()
    }
    /// The asserted `owl:sameAs` pairs, in the order they were read.
    pub fn same_as_pairs(&self) -> (r: &[(u32, u32)])
        ensures
            r@ == same_as_seq(self.vocab(), self.source()),
    {
        proof {
            use_type_invariant(self);
        }
        self.same_as_pairs.as_slice()
    }
    /// The `owl:differentFrom` pairs, asserted or from `owl:AllDifferent` groups, smaller id first.
    pub fn different_from_pairs(&self) -> (r: &PairSet)
        ensures
            r@ == expanded_different_from(self.vocab(), self.source()),
    {
        proof {
            use_type_invariant(self);
        }
        &self.different_from_pairs
    }
    /// The named resources that ABox assertions mention.
    pub fn observed_named_resources(&self) -> (r: &IdSet)
        ensures
            r@ == observed_set(self.vocab(), self.source()),
    {
        proof {
            use_type_invariant(self);
        }
        &self.observed_named_resources
    }
    /// The class-disjointness edges, asserted or from `owl:AllDisjointClasses` groups.
    pub fn disjoint_class_pairs(&self) -> (r: &IdSetMap)
        ensures
            r@ == expanded_disjoint_classes(self.vocab(), self.source()),
    {
        proof {
            use_type_invariant(self);
        }
        &self.disjoint_class_pairs
    }
    /// The property-disjointness edges, asserted or from `owl:AllDisjointProperties` groups.
    pub fn property_disjoint_pairs(&self) -> (r: &IdSetMap)
        ensures
            r@ == expanded_disjoint_properties(self.vocab(), self.source()),
    {
        proof {
            use_type_invariant(self);
        }
        &self.property_disjoint_pairs
    }
    /// The properties declared `owl:FunctionalProperty`.
    pub fn functional_properties(&self) -> (r: &IdSet)
        ensures
            r@ == characteristic_set(self.vocab(), self.source(), TypeKind::Functional),
    {
        proof {
            use_type_invariant(self);
        }
        &self.functional_properties
    }
    /// The properties declared `owl:InverseFunctionalProperty`.
    pub fn inverse_functional_properties(&self) -> (r: &IdSet)
        ensures
            r@ == characteristic_set(self.vocab(), self.source(), TypeKind::InverseFunctional),
    {
        proof {
            use_type_invariant(self);
        }
        &self.inverse_functional_properties
    }
    /// The properties declared `owl:IrreflexiveProperty`.
    pub fn irreflexive_properties(&self) -> (r: &IdSet)
        ensures
            r@ == characteristic_set(self.vocab(), self.source(), TypeKind::Irreflexive),
    {
        proof {
            use_type_invariant(self);
        }
        &self.irreflexive_properties
    }
    /// The properties declared `owl:AsymmetricProperty`.
    pub fn asymmetric_properties(&self) -> (r: &IdSet)
        ensures
            r@ == characteristic_set(self.vocab(), self.source(), TypeKind::Asymmetric),
    {
        proof {
            use_type_invariant(self);
        }
        &self.asymmetric_properties
    }
    /// The properties declared `owl:ReflexiveProperty`.
    pub fn reflexive_properties(&self) -> (r: &IdSet)
        ensures
            r@ == characteristic_set(self.vocab(), self.source(), TypeKind::Reflexive),
    {
        proof {
            use_type_invariant(self);
        }
        &self.reflexive_properties
    }
    /// The properties declared `owl:SymmetricProperty`.
    pub fn symmetric_properties(&self) -> (r: &IdSet)
        ensures
            r@ == characteristic_set(self.vocab(), self.source(), TypeKind::Symmetric),
    {
        proof {
            use_type_invariant(self);
        }
        &self.symmetric_properties
    }
    /// The properties declared `owl:TransitiveProperty`.
    pub fn transitive_properties(&self) -> (r: &IdSet)
        ensures
            r@ == characteristic_set(self.vocab(), self.source(), TypeKind::Transitive),
    {
        proof {
            use_type_invariant(self);
        }
        &self.transitive_properties
    }
    /// The reports of the group axioms that were ignored: each one is the
    /// report of a malformed or too short group, and every such group has
    /// exactly one.
    pub fn group_axiom_diagnostics(&self) -> (r: &[String])
        ensures
            forall|k: int| 0 <= k < r@.len() ==> #[trigger] group_axiom_report(
                self.edges(EdgeField::ListFirst),
                self.edges(EdgeField::ListRest),
                self.vocab().rdf_nil_id,
                self.terms(),
                self.edges(EdgeField::TypeAssertions),
                self.edges(EdgeField::MembersHeads),
                self.edges(EdgeField::DistinctMembersHeads),
                self.vocab(),
                r@[k]@,
            ),
            group_failures_reported(
                self.edges(EdgeField::ListFirst),
                self.edges(EdgeField::ListRest),
                self.vocab().rdf_nil_id,
                self.terms(),
                self.edges(EdgeField::TypeAssertions),
                self.edges(EdgeField::MembersHeads),
                self.edges(EdgeField::DistinctMembersHeads),
                self.vocab(),
                r@,
            ),
            group_reports_once(
                self.edges(EdgeField::ListFirst),
                self.edges(EdgeField::ListRest),
                self.vocab().rdf_nil_id,
                self.terms(),
                self.edges(EdgeField::TypeAssertions),
                self.edges(EdgeField::MembersHeads),
                self.edges(EdgeField::DistinctMembersHeads),
                self.vocab(),
                r@,
            ),
    {
        proof {
            use_type_invariant(self);
        }
        self.group_axiom_diagnostics.as_slice()
    }
    /// The schema cache key: a fingerprint of the schema parts with their ids resolved to terms, independent of ABox assertions and of the order of storage.
    pub fn schema_cache_key(&self) -> (r: u64)
        ensures
            r == schema_fingerprint(self.terms(), schema_entries(schema_maps(self.vocab(), self.source()), schema_sets(self.vocab(), self.source()))),
            schema_entries(schema_maps(self.vocab(), self.source()), schema_sets(self.vocab(), self.source())).finite(),
    {
        proof {
            use_type_invariant(self);
        }
        self.schema_cache_key
    }
    /// The id of the `rdf_type` term.
    pub fn rdf_type_id(&self) -> (r: u32)
        ensures
            r == self.vocab().rdf_type_id,
    {
        proof {
            use_type_invariant(self);
        }
        self.vocabulary.rdf_type_id
    }
    /// The id of the `rdf_nil` term.
    pub fn rdf_nil_id(&self) -> (r: u32)
        ensures
            r == self.vocab().rdf_nil_id,
    {
        proof {
            use_type_invariant(self);
        }
        self.vocabulary.rdf_nil_id
    }
    /// The id of the `rdfs_subclass_of` term.
    pub fn rdfs_subclass_of_id(&self) -> (r: u32)
        ensures
            r == self.vocab().rdfs_subclass_of_id,
    {
        proof {
            use_type_invariant(self);
        }
        self.vocabulary.rdfs_subclass_of_id
    }
    /// The id of the `rdfs_subproperty_of` term.
    pub fn rdfs_subproperty_of_id(&self) -> (r: u32)
        ensures
            r == self.vocab().rdfs_subproperty_of_id,
    {
        proof {
            use_type_invariant(self);
        }
        self.vocabulary.rdfs_subproperty_of_id
    }
    /// The id of the `owl_same_as` term.
    pub fn owl_same_as_id(&self) -> (r: u32)
        ensures
            r == self.vocab().owl_same_as_id,
    {
        proof {
            use_type_invariant(self);
        }
        self.vocabulary.owl_same_as_id
    }
    /// The id of the `owl_nothing` term.
    pub fn owl_nothing_id(&self) -> (r: u32)
        ensures
            r == self.vocab().owl_nothing_id,
    {
        proof {
            use_type_invariant(self);
        }
        self.vocabulary.owl_nothing_id
    }
    /// The number of supported asserted triples.
    pub fn supported_asserted_triples(&self) -> (r: u64)
        ensures
            r == self.source().len(),
    {
        proof {
            use_type_invariant(self);
        }
        self.supported_asserted_triples
    }
    /// The number of triples of the snapshot that were not IRI triples.
    pub fn unsupported_asserted_triples(&self) -> (r: u64)
        ensures
            r == self.unsupported_count(),
    {
        proof {
            use_type_invariant(self);
        }
        self.unsupported_asserted_triples
    }
    /// The number of subclass edges, saturating at `usize::MAX`.
    pub fn subclass_edge_count(&self) -> (r: usize)
        ensures
            r == saturating_count(edge_pairs(self.edges(EdgeField::SubclassEdges)).len()),
    {
        proof {
            use_type_invariant(self);
        }
        self.subclass_edges.total_len()
    }
    /// The number of subproperty edges, saturating at `usize::MAX`.
    pub fn subproperty_edge_count(&self) -> (r: usize)
        ensures
            r == saturating_count(edge_pairs(self.edges(EdgeField::SubpropertyEdges)).len()),
    {
        proof {
            use_type_invariant(self);
        }
        self.subproperty_edges.total_len()
    }
    /// The number of class typing assertions, saturating at `usize::MAX`.
    pub fn type_assertion_count(&self) -> (r: usize)
        ensures
            r == saturating_count(edge_pairs(self.edges(EdgeField::TypeAssertions)).len()),
    {
        proof {
            use_type_invariant(self);
        }
        self.type_assertions.total_len()
    }
    /// The number of domain assertions, saturating at `usize::MAX`.
    pub fn domain_assertion_count(&self) -> (r: usize)
        ensures
            r == saturating_count(edge_pairs(self.edges(EdgeField::DomainByProperty)).len()),
    {
        proof {
            use_type_invariant(self);
        }
        self.domain_by_property.total_len()
    }
    /// The number of range assertions, saturating at `usize::MAX`.
    pub fn range_assertion_count(&self) -> (r: usize)
        ensures
            r == saturating_count(edge_pairs(self.edges(EdgeField::RangeByProperty)).len()),
    {
        proof {
            use_type_invariant(self);
        }
        self.range_by_property.total_len()
    }
    /// The number of plain property assertions.
    pub fn property_assertion_count(&self) -> (r: usize)
        ensures
            r == property_seq(self.vocab(), self.source()).len(),
    {
        proof {
            use_type_invariant(self);
        }
        self.property_assertions.len()
    }
    /// The number of asserted `owl:sameAs` pairs.
    pub fn same_as_assertion_count(&self) -> (r: usize)
        ensures
            r == same_as_seq(self.vocab(), self.source()).len(),
    {
        proof {
            use_type_invariant(self);
        }
        self.same_as_pairs.len()
    }

    /// Indexes the triples of `snapshot`, or fails when it has more terms
    /// than term ids can number: `index_triples` of what the snapshot hands
    /// out.
    pub fn from_snapshot<S: DatasetSnapshot>(snapshot: &S) -> (r: NreseResult<IndexedDataset>)
        ensures
            r matches Ok(d) ==> d.terms().no_duplicates() && crate::dataset_index::builder::vocabulary_resolves(d.vocab(), d.terms()),
            r matches Err(e) ==> e == NreseError::Unsupported(TOO_MANY_TERMS),
    {
        let triples = snapshot.triples();
        IndexedDataset::index_triples(triples.as_slice(), snapshot.unsupported_triple_count())
    }

    /// Indexes `triples`, of which the snapshot had `unsupported` more that
    /// are not IRI triples; fails when there are `MAX_INDEXED_TRIPLES` or
    /// more, as their terms could outnumber the term ids.
    pub fn index_triples(triples: &[TripleRef<'_>], unsupported: u64) -> (r: NreseResult<IndexedDataset>)
        ensures
            r is Err <==> triples@.len() >= MAX_INDEXED_TRIPLES,
            r matches Err(e) ==> e == NreseError::Unsupported(TOO_MANY_TERMS),
            r matches Ok(d) ==> {
                &&& d.source().len() == triples@.len()
                &&& forall|i: int|
                    0 <= i < triples@.len() ==> d.terms()[(#[trigger] d.source()[i]).0 as int]
                        == triples@[i].subject@ && d.terms()[d.source()[i].1 as int]
                        == triples@[i].predicate@ && d.terms()[d.source()[i].2 as int]
                        == triples@[i].object@
                &&& d.terms().no_duplicates()
                &&& forall|i: int|
                    0 <= i < d.source().len() ==> (#[trigger] d.source()[i]).0 < d.terms().len()
                        && d.source()[i].1 < d.terms().len() && d.source()[i].2 < d.terms().len()
                &&& crate::dataset_index::builder::vocabulary_resolves(d.vocab(), d.terms())
                &&& d.unsupported_count() == unsupported
            },
    {
        if triples.len() >= MAX_INDEXED_TRIPLES {
            return Err(NreseError::Unsupported(TOO_MANY_TERMS));
        }
        Ok(IndexedDataset::from_triples(triples, unsupported))
    }

    /// The number of triples of the snapshot that were not IRI triples.
    pub closed spec fn unsupported_count(&self) -> u64 {
        self.unsupported_asserted_triples
    }
}

/// Removes and returns the last map of `maps`.
fn take_last_map(maps: &mut Vec<IdSetMap>) -> (r: IdSetMap)
    requires
        old(maps)@.len() > 0,
    ensures
        r@ == old(maps)@.last()@,
        final(maps)@ == old(maps)@.drop_last(),
{
    match maps.pop() {
        Some(m) => m,
        None => IdSetMap::new(),
    }
}

/// Removes and returns the last set of `sets`.
fn take_last_set(sets: &mut Vec<IdSet>) -> (r: IdSet)
    requires
        old(sets)@.len() > 0,
    ensures
        r@ == old(sets)@.last()@,
        final(sets)@ == old(sets)@.drop_last(),
{
    match sets.pop() {
        Some(s) => s,
        None => IdSet::new(),
    }
}

/// Triple `t` is instance data: a plain property assertion, an
/// `owl:sameAs` or `owl:differentFrom` assertion, or the typing of a
/// resource with a class that is neither a property characteristic nor one
/// of the `owl:All*` group classes.
pub open spec fn abox_triple(v: IndexedVocabulary, t: (u32, u32, u32)) -> bool {
    let k = spec::triple_kind(v, t.1);
    ||| k == spec::TripleKind::Property
    ||| k == spec::TripleKind::SameAs
    ||| k == spec::TripleKind::DifferentFrom
    ||| (k == spec::TripleKind::Type && spec::type_kind(v, t.2) == TypeKind::Class && t.2 != v.owl_all_different_id
        && t.2 != v.owl_all_disjoint_classes_id && t.2 != v.owl_all_disjoint_properties_id)
}

/// `ts1` and `ts2` hold the same triples but for instance data.
pub open spec fn same_schema_triples(v: IndexedVocabulary, ts1: Seq<(u32, u32, u32)>, ts2: Seq<(u32, u32, u32)>) -> bool {
    forall|t: (u32, u32, u32)| !#[trigger] abox_triple(v, t) ==> (ts1.contains(t) <==> ts2.contains(t))
}

proof fn lemma_has_edge_moves(
    v: IndexedVocabulary,
    ts1: Seq<(u32, u32, u32)>,
    ts2: Seq<(u32, u32, u32)>,
    f: EdgeField,
    a: u32,
    b: u32,
)
    requires
        same_schema_triples(v, ts1, ts2),
        f != EdgeField::TypeAssertions || (b == v.owl_all_different_id || b == v.owl_all_disjoint_classes_id
            || b == v.owl_all_disjoint_properties_id),
        spec::has_edge(v, ts1, f, a, b),
    ensures
        spec::has_edge(v, ts2, f, a, b),
{
    let i = choose|i: int| 0 <= i < ts1.len() && #[trigger] spec::triple_edge(v, ts1[i], f, a, b);
    let t = ts1[i];
    assert(!abox_triple(v, t));
    assert(ts1.contains(t));
    let j = choose|j: int| 0 <= j < ts2.len() && ts2[j] == t;
    assert(spec::triple_edge(v, ts2[j], f, a, b));
}

proof fn lemma_field_same(v: IndexedVocabulary, ts1: Seq<(u32, u32, u32)>, ts2: Seq<(u32, u32, u32)>, f: EdgeField)
    requires
        same_schema_triples(v, ts1, ts2),
        f != EdgeField::TypeAssertions,
    ensures
        field(v, ts1, f) == field(v, ts2, f),
{
    assert forall|a: u32, b: u32| spec::has_edge(v, ts1, f, a, b) <==> spec::has_edge(v, ts2, f, a, b) by {
        if spec::has_edge(v, ts1, f, a, b) {
            lemma_has_edge_moves(v, ts1, ts2, f, a, b);
        }
        if spec::has_edge(v, ts2, f, a, b) {
            lemma_has_edge_moves(v, ts2, ts1, f, a, b);
        }
    }
    assert(field(v, ts1, f) =~~= field(v, ts2, f));
}

proof fn lemma_groups_same(
    v: IndexedVocabulary,
    ts1: Seq<(u32, u32, u32)>,
    ts2: Seq<(u32, u32, u32)>,
    heads: Map<u32, Set<u32>>,
    class: u32,
)
    requires
        same_schema_triples(v, ts1, ts2),
        class == v.owl_all_different_id || class == v.owl_all_disjoint_classes_id || class == v.owl_all_disjoint_properties_id,
    ensures
        declared_groups(field(v, ts1, EdgeField::TypeAssertions), heads, class) == declared_groups(
            field(v, ts2, EdgeField::TypeAssertions),
            heads,
            class,
        ),
{
    let m1 = field(v, ts1, EdgeField::TypeAssertions);
    let m2 = field(v, ts2, EdgeField::TypeAssertions);
    assert forall|x: u32| successors(m1, x).contains(class) <==> successors(m2, x).contains(class) by {
        if successors(m1, x).contains(class) {
            lemma_has_edge_moves(v, ts1, ts2, EdgeField::TypeAssertions, x, class);
        }
        if successors(m2, x).contains(class) {
            lemma_has_edge_moves(v, ts2, ts1, EdgeField::TypeAssertions, x, class);
        }
    }
    assert(declared_groups(m1, heads, class) =~= declared_groups(m2, heads, class));
}

proof fn lemma_characteristic_same(
    v: IndexedVocabulary,
    ts1: Seq<(u32, u32, u32)>,
    ts2: Seq<(u32, u32, u32)>,
    tk: TypeKind,
)
    requires
        same_schema_triples(v, ts1, ts2),
        tk != TypeKind::Class,
    ensures
        characteristic_set(v, ts1, tk) == characteristic_set(v, ts2, tk),
{
    assert forall|x: u32| characteristic_set(v, ts1, tk).contains(x) implies characteristic_set(v, ts2, tk).contains(x) by {
        let i = choose|i: int| 0 <= i < ts1.len() && #[trigger] spec::characteristic_member(v, ts1[i], tk) && ts1[i].0 == x;
        assert(!abox_triple(v, ts1[i]));
        assert(ts1.contains(ts1[i]));
        let j = choose|j: int| 0 <= j < ts2.len() && ts2[j] == ts1[i];
        assert(spec::characteristic_member(v, ts2[j], tk));
    }
    assert forall|x: u32| characteristic_set(v, ts2, tk).contains(x) implies characteristic_set(v, ts1, tk).contains(x) by {
        let i = choose|i: int| 0 <= i < ts2.len() && #[trigger] spec::characteristic_member(v, ts2[i], tk) && ts2[i].0 == x;
        assert(!abox_triple(v, ts2[i]));
        assert(ts2.contains(ts2[i]));
        let j = choose|j: int| 0 <= j < ts1.len() && ts1[j] == ts2[i];
        assert(spec::characteristic_member(v, ts1[j], tk));
    }
    assert(characteristic_set(v, ts1, tk) =~= characteristic_set(v, ts2, tk));
}

/// Law: instance data does not change the schema cache key. Two triple
/// lists that differ only in instance data (plain property assertions,
/// `owl:sameAs` and `owl:differentFrom` assertions, and typings with plain
/// classes) have the same schema maps and sets, and so the same key under
/// one numbering of the terms; with
/// `law_schema_key_depends_on_resolved_entries`, under any numbering that
/// resolves the schema alike.
pub proof fn law_schema_key_ignores_instance_data(
    v: IndexedVocabulary,
    ts1: Seq<(u32, u32, u32)>,
    ts2: Seq<(u32, u32, u32)>,
    terms: Seq<Seq<char>>,
)
    requires
        same_schema_triples(v, ts1, ts2),
    ensures
        schema_maps(v, ts1) == schema_maps(v, ts2),
        schema_sets(v, ts1) == schema_sets(v, ts2),
        schema_fingerprint(terms, schema_entries(schema_maps(v, ts1), schema_sets(v, ts1))) == schema_fingerprint(
            terms,
            schema_entries(schema_maps(v, ts2), schema_sets(v, ts2)),
        ),
{
    assert forall|t: (u32, u32, u32)| !#[trigger] abox_triple(v, t) implies (ts2.contains(t) <==> ts1.contains(t)) by {}
    lemma_field_same(v, ts1, ts2, EdgeField::SubclassEdges);
    lemma_field_same(v, ts1, ts2, EdgeField::SubpropertyEdges);
    lemma_field_same(v, ts1, ts2, EdgeField::PropertyChainAxiomHeads);
    lemma_field_same(v, ts1, ts2, EdgeField::ListFirst);
    lemma_field_same(v, ts1, ts2, EdgeField::ListRest);
    lemma_field_same(v, ts1, ts2, EdgeField::MembersHeads);
    lemma_field_same(v, ts1, ts2, EdgeField::DomainByProperty);
    lemma_field_same(v, ts1, ts2, EdgeField::RangeByProperty);
    lemma_field_same(v, ts1, ts2, EdgeField::DisjointClassPairs);
    lemma_field_same(v, ts1, ts2, EdgeField::PropertyDisjointPairs);
    lemma_field_same(v, ts1, ts2, EdgeField::InverseOfPairs);
    let heads = field(v, ts1, EdgeField::MembersHeads);
    lemma_groups_same(v, ts1, ts2, heads, v.owl_all_disjoint_classes_id);
    lemma_groups_same(v, ts1, ts2, heads, v.owl_all_disjoint_properties_id);
    assert(schema_maps(v, ts1) =~= schema_maps(v, ts2));
    lemma_characteristic_same(v, ts1, ts2, TypeKind::Functional);
    lemma_characteristic_same(v, ts1, ts2, TypeKind::InverseFunctional);
    lemma_characteristic_same(v, ts1, ts2, TypeKind::Irreflexive);
    lemma_characteristic_same(v, ts1, ts2, TypeKind::Asymmetric);
    lemma_characteristic_same(v, ts1, ts2, TypeKind::Reflexive);
    lemma_characteristic_same(v, ts1, ts2, TypeKind::Symmetric);
    lemma_characteristic_same(v, ts1, ts2, TypeKind::Transitive);
    assert(schema_sets(v, ts1) =~= schema_sets(v, ts2));
}

/// Law: two indexes whose triples differ only in instance data, and that
/// name every schema entry alike, have the same schema cache key, whatever
/// ids they give the terms of their instance data. The finiteness of the
/// entries is what `schema_cache_key` ensures of every index.
pub proof fn law_schema_cache_key_across_indexes(d1: IndexedDataset, d2: IndexedDataset)
    requires
        d1.vocab() == d2.vocab(),
        same_schema_triples(d1.vocab(), d1.source(), d2.source()),
        schema_entries(schema_maps(d1.vocab(), d1.source()), schema_sets(d1.vocab(), d1.source())).finite(),
        forall|e: SchemaEntry|
            #[trigger] schema_entries(schema_maps(d1.vocab(), d1.source()), schema_sets(d1.vocab(), d1.source())).contains(e)
                ==> resolve_or_unknown(d1.terms(), e.1) == resolve_or_unknown(d2.terms(), e.1)
                && resolve_or_unknown(d1.terms(), e.2) == resolve_or_unknown(d2.terms(), e.2),
    ensures
        schema_fingerprint(d1.terms(), schema_entries(schema_maps(d1.vocab(), d1.source()), schema_sets(d1.vocab(), d1.source())))
            == schema_fingerprint(d2.terms(), schema_entries(schema_maps(d2.vocab(), d2.source()), schema_sets(d2.vocab(), d2.source()))),
{
    let v = d1.vocab();
    law_schema_key_ignores_instance_data(v, d1.source(), d2.source(), d2.terms());
    crate::dataset_index::schema_key::law_schema_key_depends_on_resolved_entries(
        d1.terms(),
        d2.terms(),
        schema_entries(schema_maps(v, d1.source()), schema_sets(v, d1.source())),
    );
}

/// Equal schema entries over parts of the same shape give the `i`th map
/// part the same edges.
proof fn lemma_entries_determine_map(
    ms1: Seq<Map<u32, Set<u32>>>,
    ss1: Seq<Set<u32>>,
    ms2: Seq<Map<u32, Set<u32>>>,
    ss2: Seq<Set<u32>>,
    i: int,
)
    requires
        schema_entries(ms1, ss1) == schema_entries(ms2, ss2),
        ms1.len() == ms2.len(),
        0 <= i < ms1.len() < 1000,
    ensures
        forall|a: u32, b: u32| #[trigger] successors(ms1[i], a).contains(b) <==> successors(ms2[i], a).contains(b),
{
    assert forall|a: u32, b: u32| #[trigger] successors(ms1[i], a).contains(b) <==> successors(ms2[i], a).contains(b) by {
        let e: SchemaEntry = (i as u64, a, b);
        assert(e.0 as int == i);
        assert(schema_entries(ms1, ss1).contains(e) <==> successors(ms1[i], a).contains(b));
        assert(schema_entries(ms2, ss2).contains(e) <==> successors(ms2[i], a).contains(b));
    }
}

/// Equal schema entries over parts of the same shape give the `j`th set
/// part the same members.
proof fn lemma_entries_determine_set(
    ms1: Seq<Map<u32, Set<u32>>>,
    ss1: Seq<Set<u32>>,
    ms2: Seq<Map<u32, Set<u32>>>,
    ss2: Seq<Set<u32>>,
    j: int,
)
    requires
        schema_entries(ms1, ss1) == schema_entries(ms2, ss2),
        ms1.len() == ms2.len(),
        ss1.len() == ss2.len(),
        0 <= j < ss1.len(),
        ms1.len() + ss1.len() < 1000,
    ensures
        ss1[j] == ss2[j],
{
    assert forall|x: u32| ss1[j].contains(x) <==> ss2[j].contains(x) by {
        let e: SchemaEntry = ((ms1.len() + j) as u64, x, x);
        assert(e.0 as int == ms1.len() + j);
        assert(schema_entries(ms1, ss1).contains(e) <==> ss1[j].contains(x));
        assert(schema_entries(ms2, ss2).contains(e) <==> ss2[j].contains(x));
    }
    assert(ss1[j] =~= ss2[j]);
}

/// Law: the schema cache key covers every schema part. Two triple lists
/// whose schema entries (the fingerprinted items, ids resolved the same)
/// are equal have the same subclass, subproperty, chain-head, list,
/// domain, range, class- and property-disjointness and inverse edges and
/// the same property characteristics; so a change in any of them, such
/// as a different `rdfs:range`, changes what is fingerprinted.
pub proof fn law_schema_entries_cover_schema(
    v1: IndexedVocabulary,
    ts1: Seq<(u32, u32, u32)>,
    v2: IndexedVocabulary,
    ts2: Seq<(u32, u32, u32)>,
)
    requires
        schema_entries(schema_maps(v1, ts1), schema_sets(v1, ts1)) == schema_entries(schema_maps(v2, ts2), schema_sets(v2, ts2)),
    ensures
        forall|a: u32, b: u32| #[trigger] successors(field(v1, ts1, EdgeField::SubclassEdges), a).contains(b) <==> successors(field(v2, ts2, EdgeField::SubclassEdges), a).contains(b),
        forall|a: u32, b: u32| #[trigger] successors(field(v1, ts1, EdgeField::SubpropertyEdges), a).contains(b) <==> successors(field(v2, ts2, EdgeField::SubpropertyEdges), a).contains(b),
        forall|a: u32, b: u32| #[trigger] successors(field(v1, ts1, EdgeField::PropertyChainAxiomHeads), a).contains(b) <==> successors(field(v2, ts2, EdgeField::PropertyChainAxiomHeads), a).contains(b),
        forall|a: u32, b: u32| #[trigger] successors(field(v1, ts1, EdgeField::ListFirst), a).contains(b) <==> successors(field(v2, ts2, EdgeField::ListFirst), a).contains(b),
        forall|a: u32, b: u32| #[trigger] successors(field(v1, ts1, EdgeField::ListRest), a).contains(b) <==> successors(field(v2, ts2, EdgeField::ListRest), a).contains(b),
        forall|a: u32, b: u32| #[trigger] successors(field(v1, ts1, EdgeField::DomainByProperty), a).contains(b) <==> successors(field(v2, ts2, EdgeField::DomainByProperty), a).contains(b),
        forall|a: u32, b: u32| #[trigger] successors(field(v1, ts1, EdgeField::RangeByProperty), a).contains(b) <==> successors(field(v2, ts2, EdgeField::RangeByProperty), a).contains(b),
        forall|a: u32, b: u32| #[trigger] successors(expanded_disjoint_classes(v1, ts1), a).contains(b) <==> successors(expanded_disjoint_classes(v2, ts2), a).contains(b),
        forall|a: u32, b: u32| #[trigger] successors(expanded_disjoint_properties(v1, ts1), a).contains(b) <==> successors(expanded_disjoint_properties(v2, ts2), a).contains(b),
        forall|a: u32, b: u32| #[trigger] successors(field(v1, ts1, EdgeField::InverseOfPairs), a).contains(b) <==> successors(field(v2, ts2, EdgeField::InverseOfPairs), a).contains(b),
        characteristic_set(v1, ts1, TypeKind::Functional) == characteristic_set(v2, ts2, TypeKind::Functional),
        characteristic_set(v1, ts1, TypeKind::InverseFunctional) == characteristic_set(v2, ts2, TypeKind::InverseFunctional),
        characteristic_set(v1, ts1, TypeKind::Irreflexive) == characteristic_set(v2, ts2, TypeKind::Irreflexive),
        characteristic_set(v1, ts1, TypeKind::Asymmetric) == characteristic_set(v2, ts2, TypeKind::Asymmetric),
        characteristic_set(v1, ts1, TypeKind::Reflexive) == characteristic_set(v2, ts2, TypeKind::Reflexive),
        characteristic_set(v1, ts1, TypeKind::Symmetric) == characteristic_set(v2, ts2, TypeKind::Symmetric),
        characteristic_set(v1, ts1, TypeKind::Transitive) == characteristic_set(v2, ts2, TypeKind::Transitive),
{
    let ms1 = schema_maps(v1, ts1);
    let ss1 = schema_sets(v1, ts1);
    let ms2 = schema_maps(v2, ts2);
    let ss2 = schema_sets(v2, ts2);
    lemma_entries_determine_map(ms1, ss1, ms2, ss2, 0);
    lemma_entries_determine_map(ms1, ss1, ms2, ss2, 1);
    lemma_entries_determine_map(ms1, ss1, ms2, ss2, 2);
    lemma_entries_determine_map(ms1, ss1, ms2, ss2, 3);
    lemma_entries_determine_map(ms1, ss1, ms2, ss2, 4);
    lemma_entries_determine_map(ms1, ss1, ms2, ss2, 5);
    lemma_entries_determine_map(ms1, ss1, ms2, ss2, 6);
    lemma_entries_determine_map(ms1, ss1, ms2, ss2, 7);
    lemma_entries_determine_map(ms1, ss1, ms2, ss2, 8);
    lemma_entries_determine_map(ms1, ss1, ms2, ss2, 9);
    lemma_entries_determine_set(ms1, ss1, ms2, ss2, 0);
    lemma_entries_determine_set(ms1, ss1, ms2, ss2, 1);
    lemma_entries_determine_set(ms1, ss1, ms2, ss2, 2);
    lemma_entries_determine_set(ms1, ss1, ms2, ss2, 3);
    lemma_entries_determine_set(ms1, ss1, ms2, ss2, 4);
    lemma_entries_determine_set(ms1, ss1, ms2, ss2, 5);
    lemma_entries_determine_set(ms1, ss1, ms2, ss2, 6);
}

/// Law: two triple lists that give some property different `rdfs:range`
/// classes have different schema entries, so the range axioms are among
/// what the schema cache key fingerprints.
pub proof fn law_range_change_changes_schema_entries(
    v1: IndexedVocabulary,
    ts1: Seq<(u32, u32, u32)>,
    v2: IndexedVocabulary,
    ts2: Seq<(u32, u32, u32)>,
    p: u32,
    c: u32,
)
    requires
        successors(field(v1, ts1, EdgeField::RangeByProperty), p).contains(c) != successors(field(v2, ts2, EdgeField::RangeByProperty), p).contains(c),
    ensures
        schema_entries(schema_maps(v1, ts1), schema_sets(v1, ts1)) != schema_entries(schema_maps(v2, ts2), schema_sets(v2, ts2)),
{
    if schema_entries(schema_maps(v1, ts1), schema_sets(v1, ts1)) == schema_entries(schema_maps(v2, ts2), schema_sets(v2, ts2)) {
        law_schema_entries_cover_schema(v1, ts1, v2, ts2);
    }
}

} // verus!
