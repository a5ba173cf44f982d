use vstd::prelude::*;

use crate::class_consistency::{
    blame_is, evidence_is, lemma_in_order_push, reported_in_order, ConsistencyViolation,
};
use crate::dataset_index::{expanded_different_from, IndexedDataset};
use crate::explanation::assertion_evidence;
use crate::identity::equality::{canonical, equivalent, EqualityIndex};
use crate::output::RejectBlame;
use crate::pairs::{pair_lt, pairs_sorted};
use crate::property_consistency::builders::{render_assertion, rendered};
use crate::vocabulary::{OWL_DIFFERENT_FROM, OWL_SAME_AS};

verus! {

/// `v` reports that `left` and `right`, declared `owl:differentFrom`, are
/// in one equality cluster whose members `eq_left` and `eq_right` stand
/// for them.
pub open spec fn different_from_violation(
    v: ConsistencyViolation,
    left: Seq<char>,
    right: Seq<char>,
    eq_left: Seq<char>,
    eq_right: Seq<char>,
) -> bool {
    &&& v.message@ == "Consistency violation: resources "@ + left + " and "@ + right
        + " are declared owl:differentFrom but also belong to the same effective equality set"@
    &&& v.violated_constraint@ == "owl:differentFrom"@
    &&& v.focus_resource@ == left
    &&& v.left_type@ == left
    &&& v.right_type@ == right
    &&& v.left_origin@ == "asserted owl:differentFrom axiom"@
    &&& v.right_origin@ == "effective equality cluster canonicalized as "@ + eq_left + " / "@ + eq_right
    &&& blame_is(
        v.blame,
        "prefer-direct-different-from-axiom"@,
        rendered(left, OWL_DIFFERENT_FROM@, right),
        "asserted owl:differentFrom axiom"@,
        rendered(eq_left, OWL_SAME_AS@, eq_right),
        "effective equality closure"@,
    )
    &&& v.evidence@.len() == 2
    &&& evidence_is(
        v.evidence@[0],
        "constraint-axiom"@,
        left,
        OWL_DIFFERENT_FROM@,
        right,
        "asserted owl:differentFrom axiom"@,
    )
    &&& evidence_is(
        v.evidence@[1],
        "conflicting-equality"@,
        eq_left,
        OWL_SAME_AS@,
        eq_right,
        "effective equality closure"@,
    )
}

/// The violation of `left owl:differentFrom right` by their equality.
fn build_different_from_violation(left: &str, right: &str, eq_left: &str, eq_right: &str) -> (r: ConsistencyViolation)
    ensures
        different_from_violation(r, left@, right@, eq_left@, eq_right@),
{
    let mut message = "Consistency violation: resources ".to_owned();
    message.append(left);
    message.append(" and ");
    message.append(right);
    message.append(" are declared owl:differentFrom but also belong to the same effective equality set");
    let mut right_origin = "effective equality cluster canonicalized as ".to_owned();
    right_origin.append(eq_left);
    right_origin.append(" / ");
    right_origin.append(eq_right);
    let blame = RejectBlame {
        heuristic: "prefer-direct-different-from-axiom",
        principal_contributor: render_assertion(left, OWL_DIFFERENT_FROM, right),
        principal_origin: "asserted owl:differentFrom axiom".to_owned(),
        contextual_contributor: render_assertion(eq_left, OWL_SAME_AS, eq_right),
        contextual_origin: "effective equality closure".to_owned(),
    };
    let evidence = vec![
        assertion_evidence(
            "constraint-axiom",
            left,
            OWL_DIFFERENT_FROM,
            right,
            "asserted owl:differentFrom axiom".to_owned(),
        ),
        assertion_evidence(
            "conflicting-equality",
            eq_left,
            OWL_SAME_AS,
            eq_right,
            "effective equality closure".to_owned(),
        ),
    ];
    ConsistencyViolation {
        message,
        violated_constraint: "owl:differentFrom".to_owned(),
        focus_resource: left.to_owned(),
        left_type: left.to_owned(),
        right_type: right.to_owned(),
        left_origin: "asserted owl:differentFrom axiom".to_owned(),
        right_origin,
        blame,
        evidence,
    }
}

/// The `owl:differentFrom` pairs whose members are equivalent under `eq`,
/// with the terms of the members and of their canonical resources
/// resolving in `terms`.
pub open spec fn different_from_conflicts(
    pairs: Set<(u32, u32)>,
    eq: Set<(u32, u32)>,
    terms: Seq<Seq<char>>,
) -> Set<(u32, u32)> {
    pairs.filter(
        |p: (u32, u32)|
            equivalent(eq, p.0, p.1) && p.0 < terms.len() && p.1 < terms.len() && canonical(eq, p.0) < terms.len()
                && canonical(eq, p.1) < terms.len(),
    )
}

/// `v` reports the pair `p`.
pub open spec fn reports_different_from(
    eq: Set<(u32, u32)>,
    terms: Seq<Seq<char>>,
) -> spec_fn(ConsistencyViolation, (u32, u32)) -> bool {
    |v: ConsistencyViolation, p: (u32, u32)|
        different_from_violation(
            v,
            terms[p.0 as int],
            terms[p.1 as int],
            terms[canonical(eq, p.0) as int],
            terms[canonical(eq, p.1) as int],
        )
}

/// Reports each `owl:differentFrom` pair whose members are the same
/// resource under `equality`, in the order of the pairs.
pub fn detect_different_from_conflicts(index: &IndexedDataset, equality: &EqualityIndex) -> (r: Vec<
    ConsistencyViolation,
>)
    ensures
        exists|cs: Seq<(u32, u32)>|
            #[trigger] pairs_sorted(cs) && cs.to_set() == different_from_conflicts(
                expanded_different_from(index.vocab(), index.source()),
                equality.pairs(),
                index.terms(),
            ) && reported_in_order(r@, cs, reports_different_from(equality.pairs(), index.terms())),
{
    let pairs = index.different_from_pairs().sorted();
    let ghost eq = equality.pairs();
    let ghost terms = index.terms();
    let ghost conflicts = different_from_conflicts(
        expanded_different_from(index.vocab(), index.source()),
        eq,
        terms,
    );
    let ghost rel = reports_different_from(eq, terms);
    let mut violations: Vec<ConsistencyViolation> = Vec::new();
    let ghost mut cs: Seq<(u32, u32)> = Seq::empty();
    let n = pairs.len();
    let mut i: usize = 0;
    while i < n
        invariant
            n == pairs@.len(),
            pairs_sorted(pairs@),
            pairs@.to_set() == expanded_different_from(index.vocab(), index.source()),
            eq == equality.pairs(),
            terms == index.terms(),
            conflicts == different_from_conflicts(expanded_different_from(index.vocab(), index.source()), eq, terms),
            rel == reports_different_from(eq, terms),
            i <= n,
            pairs_sorted(cs),
            forall|a: int| #![trigger cs[a]] 0 <= a < cs.len() ==> exists|b: int| 0 <= b < i && #[trigger] pairs@[b] == cs[a],
            cs.to_set() == conflicts.intersect(pairs@.take(i as int).to_set()),
            reported_in_order(violations@, cs, rel),
        decreases n - i,
    {
        let p = pairs[i];
        let (left_id, right_id) = p;
        let ghost cs_before = cs;
        let mut added = false;
        proof {
            crate::idset::lemma_take_succ_to_set(pairs@, i as int);
            assert(pairs@.to_set().contains(p));
        }
        if equality.are_equivalent(left_id, right_id) {
            let symbols = index.symbols();
            match (
                symbols.resolve(left_id),
                symbols.resolve(right_id),
                symbols.resolve(equality.canonical_of(left_id)),
                symbols.resolve(equality.canonical_of(right_id)),
            ) {
                (Some(left), Some(right), Some(eq_left), Some(eq_right)) => {
                    let v = build_different_from_violation(left, right, eq_left, eq_right);
                    proof {
                        assert(rel(v, p));
                        lemma_in_order_push(violations@, cs, rel, v, p);
                        cs = cs.push(p);
                        assert forall|a: int| #![trigger cs[a]] 0 <= a < cs.len() implies exists|b: int| 0 <= b < i + 1 && #[trigger] pairs@[b] == cs[a] by {
                            if a < cs_before.len() {
                                let b = choose|b: int| 0 <= b < i && #[trigger] pairs@[b] == cs_before[a];
                                assert(pairs@[b] == cs[a]);
                            } else {
                                assert(pairs@[i as int] == cs[a]);
                            }
                        }
                        assert forall|a: int, b: int| 0 <= a < b < cs.len() implies pair_lt(#[trigger] cs[a], #[trigger] cs[b]) by {
                            if b == cs_before.len() {
                                let e = choose|e: int| 0 <= e < i && #[trigger] pairs@[e] == cs_before[a];
                                assert(pair_lt(pairs@[e], pairs@[i as int]));
                            } else {
                                assert(pair_lt(cs_before[a], cs_before[b]));
                            }
                        }
                    }
                    violations.push(v);
                    added = true;
                },
                _ => {},
            }
        }
        proof {
            let old_set = pairs@.take(i as int).to_set();
            let new_set = pairs@.take(i + 1).to_set();
            assert(new_set == old_set.insert(p));
            if added {
                assert(conflicts.contains(p));
                cs_before.lemma_push_to_set_commute(p);
            } else {
                assert(!conflicts.contains(p));
                assert(cs == cs_before);
            }
            assert(cs.to_set() =~= conflicts.intersect(new_set));
        }
        i += 1;
    }
    proof {
        assert(pairs@.take(n as int) =~= pairs@);
        assert(cs.to_set() =~= conflicts);
    }
    violations
}

} // verus!
