use vstd::prelude::*;

use crate::symbols::{intern, SymbolTable};
use crate::vocabulary::{
    RDF_TYPE, RDF_FIRST, RDF_REST, RDF_NIL, RDFS_SUBCLASS_OF, RDFS_SUBPROPERTY_OF, RDFS_DOMAIN, RDFS_RANGE, OWL_DISJOINT_WITH, OWL_EQUIVALENT_CLASS, OWL_EQUIVALENT_PROPERTY, OWL_NOTHING, OWL_SAME_AS, OWL_DIFFERENT_FROM, OWL_FUNCTIONAL_PROPERTY, OWL_INVERSE_FUNCTIONAL_PROPERTY, OWL_INVERSE_OF, OWL_PROPERTY_DISJOINT_WITH, OWL_IRREFLEXIVE_PROPERTY, OWL_ASYMMETRIC_PROPERTY, OWL_REFLEXIVE_PROPERTY, OWL_SYMMETRIC_PROPERTY, OWL_TRANSITIVE_PROPERTY, OWL_PROPERTY_CHAIN_AXIOM, OWL_MEMBERS, OWL_DISTINCT_MEMBERS, OWL_ALL_DIFFERENT, OWL_ALL_DISJOINT_CLASSES, OWL_ALL_DISJOINT_PROPERTIES,
};

verus! {

/// Interning extends the table: the old terms keep their ids.
pub proof fn lemma_intern_extends(table: Seq<Seq<char>>, s: Seq<char>)
    ensures
        intern(table, s).0.len() <= table.len() + 1,
        intern(table, s).0.len() >= table.len(),
        forall|i: int| 0 <= i < table.len() ==> #[trigger] intern(table, s).0[i] == table[i],
{
}

/// The ids of the vocabulary terms the index dispatches on.
#[derive(Debug, Clone, Copy, PartialEq, Eq, Structural)]
pub struct IndexedVocabulary {
    pub rdf_type_id: u32,
    pub rdf_first_id: u32,
    pub rdf_rest_id: u32,
    pub rdf_nil_id: u32,
    pub rdfs_subclass_of_id: u32,
    pub rdfs_subproperty_of_id: u32,
    pub rdfs_domain_id: u32,
    pub rdfs_range_id: u32,
    pub owl_disjoint_with_id: u32,
    pub owl_equivalent_class_id: u32,
    pub owl_equivalent_property_id: u32,
    pub owl_nothing_id: u32,
    pub owl_same_as_id: u32,
    pub owl_different_from_id: u32,
    pub owl_functional_property_id: u32,
    pub owl_inverse_functional_property_id: u32,
    pub owl_inverse_of_id: u32,
    pub owl_property_disjoint_with_id: u32,
    pub owl_irreflexive_property_id: u32,
    pub owl_asymmetric_property_id: u32,
    pub owl_reflexive_property_id: u32,
    pub owl_symmetric_property_id: u32,
    pub owl_transitive_property_id: u32,
    pub owl_property_chain_axiom_id: u32,
    pub owl_members_id: u32,
    pub owl_distinct_members_id: u32,
    pub owl_all_different_id: u32,
    pub owl_all_disjoint_classes_id: u32,
    pub owl_all_disjoint_properties_id: u32,
}

impl IndexedVocabulary {
    /// Interns every vocabulary term into `symbols`.
    pub fn new(symbols: &mut SymbolTable) -> (r: Self)
        requires
            old(symbols)@.len() + 29 < u32::MAX,
        ensures
            final(symbols)@.len() <= old(symbols)@.len() + 29,
            old(symbols)@.no_duplicates() ==> final(symbols)@.no_duplicates(),
            forall|i: int| 0 <= i < old(symbols)@.len() ==> #[trigger] final(symbols)@[i] == old(symbols)@[i],
            final(symbols)@[r.rdf_type_id as int] == RDF_TYPE@,
            r.rdf_type_id < final(symbols)@.len(),
            final(symbols)@[r.rdf_first_id as int] == RDF_FIRST@,
            r.rdf_first_id < final(symbols)@.len(),
            final(symbols)@[r.rdf_rest_id as int] == RDF_REST@,
            r.rdf_rest_id < final(symbols)@.len(),
            final(symbols)@[r.rdf_nil_id as int] == RDF_NIL@,
            r.rdf_nil_id < final(symbols)@.len(),
            final(symbols)@[r.rdfs_subclass_of_id as int] == RDFS_SUBCLASS_OF@,
            r.rdfs_subclass_of_id < final(symbols)@.len(),
            final(symbols)@[r.rdfs_subproperty_of_id as int] == RDFS_SUBPROPERTY_OF@,
            r.rdfs_subproperty_of_id < final(symbols)@.len(),
            final(symbols)@[r.rdfs_domain_id as int] == RDFS_DOMAIN@,
            r.rdfs_domain_id < final(symbols)@.len(),
            final(symbols)@[r.rdfs_range_id as int] == RDFS_RANGE@,
            r.rdfs_range_id < final(symbols)@.len(),
            final(symbols)@[r.owl_disjoint_with_id as int] == OWL_DISJOINT_WITH@,
            r.owl_disjoint_with_id < final(symbols)@.len(),
            final(symbols)@[r.owl_equivalent_class_id as int] == OWL_EQUIVALENT_CLASS@,
            r.owl_equivalent_class_id < final(symbols)@.len(),
            final(symbols)@[r.owl_equivalent_property_id as int] == OWL_EQUIVALENT_PROPERTY@,
            r.owl_equivalent_property_id < final(symbols)@.len(),
            final(symbols)@[r.owl_nothing_id as int] == OWL_NOTHING@,
            r.owl_nothing_id < final(symbols)@.len(),
            final(symbols)@[r.owl_same_as_id as int] == OWL_SAME_AS@,
            r.owl_same_as_id < final(symbols)@.len(),
            final(symbols)@[r.owl_different_from_id as int] == OWL_DIFFERENT_FROM@,
            r.owl_different_from_id < final(symbols)@.len(),
            final(symbols)@[r.owl_functional_property_id as int] == OWL_FUNCTIONAL_PROPERTY@,
            r.owl_functional_property_id < final(symbols)@.len(),
            final(symbols)@[r.owl_inverse_functional_property_id as int] == OWL_INVERSE_FUNCTIONAL_PROPERTY@,
            r.owl_inverse_functional_property_id < final(symbols)@.len(),
            final(symbols)@[r.owl_inverse_of_id as int] == OWL_INVERSE_OF@,
            r.owl_inverse_of_id < final(symbols)@.len(),
            final(symbols)@[r.owl_property_disjoint_with_id as int] == OWL_PROPERTY_DISJOINT_WITH@,
            r.owl_property_disjoint_with_id < final(symbols)@.len(),
            final(symbols)@[r.owl_irreflexive_property_id as int] == OWL_IRREFLEXIVE_PROPERTY@,
            r.owl_irreflexive_property_id < final(symbols)@.len(),
            final(symbols)@[r.owl_asymmetric_property_id as int] == OWL_ASYMMETRIC_PROPERTY@,
            r.owl_asymmetric_property_id < final(symbols)@.len(),
            final(symbols)@[r.owl_reflexive_property_id as int] == OWL_REFLEXIVE_PROPERTY@,
            r.owl_reflexive_property_id < final(symbols)@.len(),
            final(symbols)@[r.owl_symmetric_property_id as int] == OWL_SYMMETRIC_PROPERTY@,
            r.owl_symmetric_property_id < final(symbols)@.len(),
            final(symbols)@[r.owl_transitive_property_id as int] == OWL_TRANSITIVE_PROPERTY@,
            r.owl_transitive_property_id < final(symbols)@.len(),
            final(symbols)@[r.owl_property_chain_axiom_id as int] == OWL_PROPERTY_CHAIN_AXIOM@,
            r.owl_property_chain_axiom_id < final(symbols)@.len(),
            final(symbols)@[r.owl_members_id as int] == OWL_MEMBERS@,
            r.owl_members_id < final(symbols)@.len(),
            final(symbols)@[r.owl_distinct_members_id as int] == OWL_DISTINCT_MEMBERS@,
            r.owl_distinct_members_id < final(symbols)@.len(),
            final(symbols)@[r.owl_all_different_id as int] == OWL_ALL_DIFFERENT@,
            r.owl_all_different_id < final(symbols)@.len(),
            final(symbols)@[r.owl_all_disjoint_classes_id as int] == OWL_ALL_DISJOINT_CLASSES@,
            r.owl_all_disjoint_classes_id < final(symbols)@.len(),
            final(symbols)@[r.owl_all_disjoint_properties_id as int] == OWL_ALL_DISJOINT_PROPERTIES@,
            r.owl_all_disjoint_properties_id < final(symbols)@.len(),
    {
        let terms: [&'static str; 29] = [
            RDF_TYPE,
            RDF_FIRST,
            RDF_REST,
            RDF_NIL,
            RDFS_SUBCLASS_OF,
            RDFS_SUBPROPERTY_OF,
            RDFS_DOMAIN,
            RDFS_RANGE,
            OWL_DISJOINT_WITH,
            OWL_EQUIVALENT_CLASS,
            OWL_EQUIVALENT_PROPERTY,
            OWL_NOTHING,
            OWL_SAME_AS,
            OWL_DIFFERENT_FROM,
            OWL_FUNCTIONAL_PROPERTY,
            OWL_INVERSE_FUNCTIONAL_PROPERTY,
            OWL_INVERSE_OF,
            OWL_PROPERTY_DISJOINT_WITH,
            OWL_IRREFLEXIVE_PROPERTY,
            OWL_ASYMMETRIC_PROPERTY,
            OWL_REFLEXIVE_PROPERTY,
            OWL_SYMMETRIC_PROPERTY,
            OWL_TRANSITIVE_PROPERTY,
            OWL_PROPERTY_CHAIN_AXIOM,
            OWL_MEMBERS,
            OWL_DISTINCT_MEMBERS,
            OWL_ALL_DIFFERENT,
            OWL_ALL_DISJOINT_CLASSES,
            OWL_ALL_DISJOINT_PROPERTIES,
        ];
        let mut ids: Vec<u32> = Vec::new();
        let mut i: usize = 0;
        while i < 29
            invariant
                i <= 29,
                ids@.len() == i,
                old(symbols)@.len() + 29 < u32::MAX,
                symbols@.len() <= old(symbols)@.len() + i,
                symbols@.len() >= old(symbols)@.len(),
                old(symbols)@.no_duplicates() ==> symbols@.no_duplicates(),
                forall|k: int| 0 <= k < old(symbols)@.len() ==> #[trigger] symbols@[k] == old(symbols)@[k],
                forall|j: int| 0 <= j < i ==> ids@[j] < symbols@.len() && symbols@[#[trigger] ids@[j] as int] == terms@[j]@,
            decreases 29 - i,
        {
            let ghost before = symbols@;
            let id = symbols.get_or_intern(terms[i]);
            proof {
                lemma_intern_extends(before, terms@[i as int]@);
            }
            ids.push(id);
            i += 1;
        }
        IndexedVocabulary {
            rdf_type_id: ids[0],
            rdf_first_id: ids[1],
            rdf_rest_id: ids[2],
            rdf_nil_id: ids[3],
            rdfs_subclass_of_id: ids[4],
            rdfs_subproperty_of_id: ids[5],
            rdfs_domain_id: ids[6],
            rdfs_range_id: ids[7],
            owl_disjoint_with_id: ids[8],
            owl_equivalent_class_id: ids[9],
            owl_equivalent_property_id: ids[10],
            owl_nothing_id: ids[11],
            owl_same_as_id: ids[12],
            owl_different_from_id: ids[13],
            owl_functional_property_id: ids[14],
            owl_inverse_functional_property_id: ids[15],
            owl_inverse_of_id: ids[16],
            owl_property_disjoint_with_id: ids[17],
            owl_irreflexive_property_id: ids[18],
            owl_asymmetric_property_id: ids[19],
            owl_reflexive_property_id: ids[20],
            owl_symmetric_property_id: ids[21],
            owl_transitive_property_id: ids[22],
            owl_property_chain_axiom_id: ids[23],
            owl_members_id: ids[24],
            owl_distinct_members_id: ids[25],
            owl_all_different_id: ids[26],
            owl_all_disjoint_classes_id: ids[27],
            owl_all_disjoint_properties_id: ids[28],
        }
    }
}

} // verus!
