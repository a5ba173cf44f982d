use vstd::prelude::*;

use crate::class_consistency::{blame_is, evidence_is, ConsistencyViolation};
use crate::explanation::{assertion_evidence, declaration_evidence};
use crate::output::{RejectBlame, RejectEvidence};
use crate::vocabulary::{OWL_IRREFLEXIVE_PROPERTY, RDF_TYPE};

verus! {

/// The statement `<subject> <property> <object>` as text.
pub open spec fn rendered(subject: Seq<char>, property: Seq<char>, object: Seq<char>) -> Seq<char> {
    "<"@ + subject + "> <"@ + property + "> <"@ + object + ">"@
}

/// Renders the statement `<subject> <property> <object>`.
pub fn render_assertion(subject: &str, property: &str, object: &str) -> (r: String)
    ensures
        r@ == rendered(subject@, property@, object@),
{
    let mut text = "<".to_owned();
    text.append(subject);
    text.append("> <");
    text.append(property);
    text.append("> <");
    text.append(object);
    text.append(">");
    text
}

/// `v` reports the self-loop `subject property subject` of an irreflexive
/// property.
pub open spec fn irreflexive_violation(v: ConsistencyViolation, subject: Seq<char>, property: Seq<char>) -> bool {
    let assertion = rendered(subject, property, subject);
    &&& v.message@ == "Consistency violation: property "@ + property
        + " is declared owl:IrreflexiveProperty but assertion "@ + assertion + " is present"@
    &&& v.violated_constraint@ == "owl:IrreflexiveProperty"@
    &&& v.focus_resource@ == subject
    &&& v.left_type@ == property
    &&& v.right_type@ == subject
    &&& v.left_origin@ == "property declaration"@
    &&& v.right_origin@ == "effective assertion "@ + assertion
    &&& blame_is(
        v.blame,
        "prefer-direct-self-loop-assertion"@,
        assertion,
        "effective property assertion"@,
        property,
        "property declaration"@,
    )
    &&& v.evidence@.len() == 2
    &&& evidence_is(
        v.evidence@[0],
        "constraint-declaration"@,
        property,
        RDF_TYPE@,
        OWL_IRREFLEXIVE_PROPERTY@,
        "property declaration"@,
    )
    &&& evidence_is(
        v.evidence@[1],
        "conflicting-assertion"@,
        subject,
        property,
        subject,
        "effective property assertion"@,
    )
}

/// The violation of an irreflexive `property` by `subject property subject`.
pub fn build_irreflexive_property_violation(subject: &str, property: &str) -> (r: ConsistencyViolation)
    ensures
        irreflexive_violation(r, subject@, property@),
{
    let assertion = render_assertion(subject, property, subject);
    let mut message = "Consistency violation: property ".to_owned();
    message.append(property);
    message.append(" is declared owl:IrreflexiveProperty but assertion ");
    message.append(assertion.as_str());
    message.append(" is present");
    let mut right_origin = "effective assertion ".to_owned();
    right_origin.append(assertion.as_str());
    let evidence = vec![
        declaration_evidence(
            "constraint-declaration",
            property,
            OWL_IRREFLEXIVE_PROPERTY,
            "property declaration".to_owned(),
        ),
        assertion_evidence(
            "conflicting-assertion",
            subject,
            property,
            subject,
            "effective property assertion".to_owned(),
        ),
    ];
    ConsistencyViolation {
        message,
        violated_constraint: "owl:IrreflexiveProperty".to_owned(),
        focus_resource: subject.to_owned(),
        left_type: property.to_owned(),
        right_type: subject.to_owned(),
        left_origin: "property declaration".to_owned(),
        right_origin,
        blame: RejectBlame {
            heuristic: "prefer-direct-self-loop-assertion",
            principal_contributor: assertion,
            principal_origin: "effective property assertion".to_owned(),
            contextual_contributor: property.to_owned(),
            contextual_origin: "property declaration".to_owned(),
        },
        evidence,
    }
}

/// Two effective assertions that together break a property constraint.
pub struct AssertionCollision<'a> {
    pub focus_resource: &'a str,
    pub left_type: &'a str,
    pub right_type: &'a str,
    pub principal_assertion: &'a str,
    pub contextual_assertion: &'a str,
    pub heuristic: &'static str,
    pub contextual_origin_label: &'a str,
    pub evidence: Vec<RejectEvidence>,
}

/// `v` reports `collision` under `constraint` with `message`.
pub open spec fn collision_violation(
    v: ConsistencyViolation,
    constraint: Seq<char>,
    message: Seq<char>,
    collision: AssertionCollision,
) -> bool {
    &&& v.message@ == message
    &&& v.violated_constraint@ == constraint
    &&& v.focus_resource@ == collision.focus_resource@
    &&& v.left_type@ == collision.left_type@
    &&& v.right_type@ == collision.right_type@
    &&& v.left_origin@ == "effective assertion "@ + collision.principal_assertion@
    &&& v.right_origin@ == collision.contextual_origin_label@ + " "@ + collision.contextual_assertion@
    &&& blame_is(
        v.blame,
        collision.heuristic@,
        collision.principal_assertion@,
        "effective property assertion"@,
        collision.contextual_assertion@,
        collision.contextual_origin_label@,
    )
    &&& v.evidence@ == collision.evidence@
}

/// The violation of `violated_constraint` by the two assertions of
/// `collision`.
pub fn build_assertion_collision_violation(
    violated_constraint: &str,
    message: String,
    collision: AssertionCollision<'_>,
) -> (r: ConsistencyViolation)
    ensures
        collision_violation(r, violated_constraint@, message@, collision),
{
    let mut left_origin = "effective assertion ".to_owned();
    left_origin.append(collision.principal_assertion);
    let mut right_origin = collision.contextual_origin_label.to_owned();
    right_origin.append(" ");
    right_origin.append(collision.contextual_assertion);
    ConsistencyViolation {
        message,
        violated_constraint: violated_constraint.to_owned(),
        focus_resource: collision.focus_resource.to_owned(),
        left_type: collision.left_type.to_owned(),
        right_type: collision.right_type.to_owned(),
        left_origin,
        right_origin,
        blame: RejectBlame {
            heuristic: collision.heuristic,
            principal_contributor: collision.principal_assertion.to_owned(),
            principal_origin: "effective property assertion".to_owned(),
            contextual_contributor: collision.contextual_assertion.to_owned(),
            contextual_origin: collision.contextual_origin_label.to_owned(),
        },
        evidence: collision.evidence,
    }
}

} // verus!
