use nrese::error::NreseError;
use nrese::model::{IriRef, TripleRef};
use nrese::reasoning::ReasonerExecutionPlan;

#[test]
fn iri_ref_rejects_non_iri_values() {
    let result = IriRef::new("not-an-iri");
    assert!(result.is_err());
}

#[test]
fn triple_ref_preserves_components() {
    let subject = IriRef::new("urn:test:s").expect("subject iri");
    let predicate = IriRef::new("urn:test:p").expect("predicate iri");
    let object = IriRef::new("urn:test:o").expect("object iri");
    let triple = TripleRef::new(subject, predicate, object);

    assert_eq!(triple.subject.as_str(), "urn:test:s");
    assert_eq!(triple.predicate.as_str(), "urn:test:p");
    assert_eq!(triple.object.as_str(), "urn:test:o");
}

#[test]
fn iri_ref_error_carries_the_rejected_text() {
    match IriRef::new("plain") {
        Err(NreseError::InvalidIri(text)) => assert_eq!(text, "plain"),
        other => panic!("unexpected result: {other:?}"),
    }
}

#[test]
fn execution_plans_keep_the_revision() {
    let full = ReasonerExecutionPlan::full_materialization(7);
    let validation = ReasonerExecutionPlan::validation_only(7);
    assert_eq!(full.revision, 7);
    assert_eq!(validation.revision, 7);
    assert_eq!(full.changed_asserted_triples, None);
    assert_ne!(full.kind, validation.kind);
}

#[test]
fn error_messages_name_kind_and_detail() {
    assert_eq!(NreseError::InvalidIri("x".to_owned()).message(), "invalid IRI: x");
    assert_eq!(NreseError::Unsupported("y").message(), "operation is not supported: y");
    assert_eq!(NreseError::Configuration("z".to_owned()).message(), "configuration error: z");
}
