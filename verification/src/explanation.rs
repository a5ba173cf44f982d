use vstd::prelude::*;

use crate::output::RejectEvidence;
use crate::vocabulary::RDF_TYPE;

verus! {

/// The evidence record of the statement `subject predicate object`.
pub fn assertion_evidence(
    role: &'static str,
    subject: &str,
    predicate: &str,
    object: &str,
    origin: String,
) -> (r: RejectEvidence)
    ensures
        r.role == role,
        r.subject@ == subject@,
        r.predicate@ == predicate@,
        r.object@ == object@,
        r.origin@ == origin@,
{
    RejectEvidence {
        role,
        subject: subject.to_owned(),
        predicate: predicate.to_owned(),
        object: object.to_owned(),
        origin,
    }
}

/// The evidence record of `instance rdf:type class_iri`.
pub fn type_assertion_evidence(
    role: &'static str,
    instance: &str,
    class_iri: &str,
    origin: String,
) -> (r: RejectEvidence)
    ensures
        r.role == role,
        r.subject@ == instance@,
        r.predicate@ == RDF_TYPE@,
        r.object@ == class_iri@,
        r.origin@ == origin@,
{
    assertion_evidence(role, instance, RDF_TYPE, class_iri, origin)
}

/// The evidence record of the declaration `resource rdf:type declaration_class`.
pub fn declaration_evidence(
    role: &'static str,
    resource: &str,
    declaration_class: &str,
    origin: String,
) -> (r: RejectEvidence)
    ensures
        r.role == role,
        r.subject@ == resource@,
        r.predicate@ == RDF_TYPE@,
        r.object@ == declaration_class@,
        r.origin@ == origin@,
{
    assertion_evidence(role, resource, RDF_TYPE, declaration_class, origin)
}

} // verus!
