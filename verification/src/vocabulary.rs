use vstd::prelude::*;

verus! {

pub const RDF_TYPE: &'static str = "http://www.w3.org/1999/02/22-rdf-syntax-ns#type";
pub const RDF_FIRST: &'static str = "http://www.w3.org/1999/02/22-rdf-syntax-ns#first";
pub const RDF_REST: &'static str = "http://www.w3.org/1999/02/22-rdf-syntax-ns#rest";
pub const RDF_NIL: &'static str = "http://www.w3.org/1999/02/22-rdf-syntax-ns#nil";
pub const RDFS_SUBCLASS_OF: &'static str = "http://www.w3.org/2000/01/rdf-schema#subClassOf";
pub const RDFS_SUBPROPERTY_OF: &'static str = "http://www.w3.org/2000/01/rdf-schema#subPropertyOf";
pub const RDFS_DOMAIN: &'static str = "http://www.w3.org/2000/01/rdf-schema#domain";
pub const RDFS_RANGE: &'static str = "http://www.w3.org/2000/01/rdf-schema#range";
pub const OWL_DISJOINT_WITH: &'static str = "http://www.w3.org/2002/07/owl#disjointWith";
pub const OWL_EQUIVALENT_CLASS: &'static str = "http://www.w3.org/2002/07/owl#equivalentClass";
pub const OWL_EQUIVALENT_PROPERTY: &'static str = "http://www.w3.org/2002/07/owl#equivalentProperty";
pub const OWL_NOTHING: &'static str = "http://www.w3.org/2002/07/owl#Nothing";
pub const OWL_SAME_AS: &'static str = "http://www.w3.org/2002/07/owl#sameAs";
pub const OWL_DIFFERENT_FROM: &'static str = "http://www.w3.org/2002/07/owl#differentFrom";
pub const OWL_FUNCTIONAL_PROPERTY: &'static str = "http://www.w3.org/2002/07/owl#FunctionalProperty";
pub const OWL_INVERSE_FUNCTIONAL_PROPERTY: &'static str =
    "http://www.w3.org/2002/07/owl#InverseFunctionalProperty";
pub const OWL_INVERSE_OF: &'static str = "http://www.w3.org/2002/07/owl#inverseOf";
pub const OWL_PROPERTY_DISJOINT_WITH: &'static str = "http://www.w3.org/2002/07/owl#propertyDisjointWith";
pub const OWL_IRREFLEXIVE_PROPERTY: &'static str = "http://www.w3.org/2002/07/owl#IrreflexiveProperty";
pub const OWL_ASYMMETRIC_PROPERTY: &'static str = "http://www.w3.org/2002/07/owl#AsymmetricProperty";
pub const OWL_REFLEXIVE_PROPERTY: &'static str = "http://www.w3.org/2002/07/owl#ReflexiveProperty";
pub const OWL_SYMMETRIC_PROPERTY: &'static str = "http://www.w3.org/2002/07/owl#SymmetricProperty";
pub const OWL_TRANSITIVE_PROPERTY: &'static str = "http://www.w3.org/2002/07/owl#TransitiveProperty";
pub const OWL_PROPERTY_CHAIN_AXIOM: &'static str = "http://www.w3.org/2002/07/owl#propertyChainAxiom";
pub const OWL_MEMBERS: &'static str = "http://www.w3.org/2002/07/owl#members";
pub const OWL_DISTINCT_MEMBERS: &'static str = "http://www.w3.org/2002/07/owl#distinctMembers";
pub const OWL_ALL_DIFFERENT: &'static str = "http://www.w3.org/2002/07/owl#AllDifferent";
pub const OWL_ALL_DISJOINT_CLASSES: &'static str = "http://www.w3.org/2002/07/owl#AllDisjointClasses";
pub const OWL_ALL_DISJOINT_PROPERTIES: &'static str = "http://www.w3.org/2002/07/owl#AllDisjointProperties";

} // verus!
