use vstd::prelude::*;

pub mod blame;
pub mod detectors;
pub mod prepared;

use crate::output::{RejectBlame, RejectEvidence, RejectExplanation};

verus! {

/// A detected inconsistency with its explanation.
#[derive(Debug)]
pub struct ConsistencyViolation {
    pub message: String,
    pub violated_constraint: String,
    pub focus_resource: String,
    pub left_type: String,
    pub right_type: String,
    pub left_origin: String,
    pub right_origin: String,
    pub blame: RejectBlame,
    pub evidence: Vec<RejectEvidence>,
}

/// The evidence record `e` holds these texts.
pub open spec fn evidence_is(
    e: RejectEvidence,
    role: Seq<char>,
    subject: Seq<char>,
    predicate: Seq<char>,
    object: Seq<char>,
    origin: Seq<char>,
) -> bool {
    &&& e.role@ == role
    &&& e.subject@ == subject
    &&& e.predicate@ == predicate
    &&& e.object@ == object
    &&& e.origin@ == origin
}

/// The blame record `b` holds these texts.
pub open spec fn blame_is(
    b: RejectBlame,
    heuristic: Seq<char>,
    principal: Seq<char>,
    principal_origin: Seq<char>,
    contextual: Seq<char>,
    contextual_origin: Seq<char>,
) -> bool {
    &&& b.heuristic@ == heuristic
    &&& b.principal_contributor@ == principal
    &&& b.principal_origin@ == principal_origin
    &&& b.contextual_contributor@ == contextual
    &&& b.contextual_origin@ == contextual_origin
}

/// Two evidence records hold the same texts.
pub open spec fn same_evidence(a: RejectEvidence, b: RejectEvidence) -> bool {
    evidence_is(a, b.role@, b.subject@, b.predicate@, b.object@, b.origin@)
}

/// Two blame records hold the same texts.
pub open spec fn same_blame(a: RejectBlame, b: RejectBlame) -> bool {
    blame_is(
        a,
        b.heuristic@,
        b.principal_contributor@,
        b.principal_origin@,
        b.contextual_contributor@,
        b.contextual_origin@,
    )
}

/// A copy of a blame record.
pub fn copy_blame(b: &RejectBlame) -> (r: RejectBlame)
    ensures
        same_blame(r, *b),
{
    RejectBlame {
        heuristic: b.heuristic,
        principal_contributor: b.principal_contributor.clone(),
        principal_origin: b.principal_origin.clone(),
        contextual_contributor: b.contextual_contributor.clone(),
        contextual_origin: b.contextual_origin.clone(),
    }
}

/// A copy of a list of evidence records.
pub fn copy_evidence(items: &[RejectEvidence]) -> (r: Vec<RejectEvidence>)
    ensures
        r@.len() == items@.len(),
        forall|i: int| 0 <= i < items@.len() ==> #[trigger] same_evidence(r@[i], items@[i]),
{
    let mut out: Vec<RejectEvidence> = Vec::new();
    let mut i: usize = 0;
    while i < items.len()
        invariant
            i <= items@.len(),
            out@.len() == i,
            forall|j: int| 0 <= j < i ==> #[trigger] same_evidence(out@[j], items@[j]),
        decreases items@.len() - i,
    {
        let e = &items[i];
        out.push(
            RejectEvidence {
                role: e.role,
                subject: e.subject.clone(),
                predicate: e.predicate.clone(),
                object: e.object.clone(),
                origin: e.origin.clone(),
            },
        );
        i += 1;
    }
    out
}

impl ConsistencyViolation {
    /// The reject explanation of this violation: its message as summary,
    /// its two conflicting terms, its blame and its evidence.
    pub fn reject_explanation(&self) -> (r: RejectExplanation)
        ensures
            r.summary@ == self.message@,
            r.violated_constraint@ == self.violated_constraint@,
            r.focus_resource@ == self.focus_resource@,
            r.primary_conflicting_term@ == self.left_type@,
            r.secondary_conflicting_term@ == self.right_type@,
            same_blame(r.blame, self.blame),
            r.evidence@.len() == self.evidence@.len(),
            forall|i: int| 0 <= i < self.evidence@.len() ==> #[trigger] same_evidence(r.evidence@[i], self.evidence@[i]),
    {
        RejectExplanation {
            summary: self.message.clone(),
            violated_constraint: self.violated_constraint.clone(),
            focus_resource: self.focus_resource.clone(),
            primary_conflicting_term: self.left_type.clone(),
            secondary_conflicting_term: self.right_type.clone(),
            blame: copy_blame(&self.blame),
            evidence: copy_evidence(self.evidence.as_slice()),
        }
    }
}

/// `r` reports the candidates `cs` in order, one violation each.
pub open spec fn reported_in_order<C>(r: Seq<ConsistencyViolation>, cs: Seq<C>, rel: spec_fn(ConsistencyViolation, C) -> bool) -> bool {
    &&& r.len() == cs.len()
    &&& forall|k: int| 0 <= k < cs.len() ==> #[trigger] rel(r[k], cs[k])
}

/// Reporting one more candidate at the end.
pub proof fn lemma_in_order_push<C>(
    r: Seq<ConsistencyViolation>,
    cs: Seq<C>,
    rel: spec_fn(ConsistencyViolation, C) -> bool,
    v: ConsistencyViolation,
    c: C,
)
    requires
        reported_in_order(r, cs, rel),
        rel(v, c),
    ensures
        reported_in_order(r.push(v), cs.push(c), rel),
{
    assert forall|k: int| 0 <= k < cs.push(c).len() implies #[trigger] rel(r.push(v)[k], cs.push(c)[k]) by {
        if k < cs.len() {
            assert(rel(r[k], cs[k]));
        }
    }
}

} // verus!
