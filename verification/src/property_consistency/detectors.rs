use vstd::prelude::*;

use crate::class_consistency::{
    evidence_is, lemma_in_order_push, reported_in_order, ConsistencyViolation,
};
use crate::pairs::{
    pair_lt, pairs_sorted, quad_lt, quads_sorted, sorted_pair_insert, sorted_quad_insert, sorted_triple_insert,
    triple_lt, triples_sorted,
};
use crate::dataset_index::IndexedDataset;
use crate::explanation::{assertion_evidence, declaration_evidence};
use crate::idset::IdSet;
use crate::pairs::TripleSet;
use crate::property_consistency::builders::{
    build_assertion_collision_violation, build_irreflexive_property_violation,
    irreflexive_violation, render_assertion, rendered, AssertionCollision,
};
use crate::property_consistency::plan::PropertyCharacteristicPlan;
use crate::property_consistency::prepared::{
    object_of, property_subject, self_loop_set, PreparedPropertyAssertions,
};
use crate::relation::index_by;
use crate::vocabulary::{OWL_ASYMMETRIC_PROPERTY, OWL_PROPERTY_DISJOINT_WITH, RDF_TYPE};

verus! {

/// The self-loops `(subject, property)` of irreflexive properties whose
/// terms resolve.
pub open spec fn irreflexive_conflicts(
    filed: Set<(u32, u32, u32)>,
    irreflexive: Set<u32>,
    terms: Seq<Seq<char>>,
) -> Set<(u32, u32)> {
    Set::new(
        |l: (u32, u32)|
            self_loop_set(filed).contains(l) && irreflexive.contains(l.1) && l.0 < terms.len() && l.1
                < terms.len(),
    )
}

/// `v` reports the self-loop `l`.
pub open spec fn reports_irreflexive(terms: Seq<Seq<char>>) -> spec_fn(ConsistencyViolation, (u32, u32)) -> bool {
    |v: ConsistencyViolation, l: (u32, u32)| irreflexive_violation(v, terms[l.0 as int], terms[l.1 as int])
}

/// The text of id `id`.
fn resolve_text<'a>(index: &'a IndexedDataset, id: u32) -> (r: Option<&'a str>)
    ensures
        r is Some <==> id < index.terms().len(),
        r matches Some(t) ==> t@ == index.terms()[id as int],
{
    index.symbols().resolve(id)
}

/// The pairs of `items` in increasing order.
fn sorted_pairs(items: &[(u32, u32)]) -> (r: Vec<(u32, u32)>)
    ensures
        pairs_sorted(r@),
        r@.to_set() == items@.to_set(),
{
    let n = items.len();
    let mut out: Vec<(u32, u32)> = Vec::new();
    let mut i: usize = 0;
    while i < n
        invariant
            n == items@.len(),
            i <= n,
            pairs_sorted(out@),
            out@.to_set() == items@.take(i as int).to_set(),
        decreases n - i,
    {
        sorted_pair_insert(&mut out, items[i]);
        proof {
            crate::idset::lemma_take_succ_to_set(items@, i as int);
        }
        i += 1;
    }
    proof {
        assert(items@.take(n as int) =~= items@);
    }
    out
}

/// The triples of `items` in increasing order.
fn sorted_triples(items: &[(u32, u32, u32)]) -> (r: Vec<(u32, u32, u32)>)
    ensures
        triples_sorted(r@),
        r@.to_set() == items@.to_set(),
{
    let n = items.len();
    let mut out: Vec<(u32, u32, u32)> = Vec::new();
    let mut i: usize = 0;
    while i < n
        invariant
            n == items@.len(),
            i <= n,
            triples_sorted(out@),
            out@.to_set() == items@.take(i as int).to_set(),
        decreases n - i,
    {
        sorted_triple_insert(&mut out, items[i]);
        proof {
            crate::idset::lemma_take_succ_to_set(items@, i as int);
        }
        i += 1;
    }
    proof {
        assert(items@.take(n as int) =~= items@);
    }
    out
}

/// Reports each effective self-loop of an `owl:IrreflexiveProperty`, in
/// the order of `(subject, property)`.
pub fn detect_irreflexive_property_conflicts(
    index: &IndexedDataset,
    plan: &PropertyCharacteristicPlan,
    prepared: &PreparedPropertyAssertions,
) -> (r: Vec<ConsistencyViolation>)
    ensures
        irreflexive_reported(r@, prepared.filed(), plan.irreflexive(), index.terms()),
{
    let loops = sorted_pairs(prepared.self_loops());
    let irreflexive = plan.irreflexive_properties();
    let ghost terms = index.terms();
    let ghost rel = reports_irreflexive(terms);
    let ghost conflicts = irreflexive_conflicts(prepared.filed(), plan.irreflexive(), terms);
    let mut violations: Vec<ConsistencyViolation> = Vec::new();
    let ghost mut cs: Seq<(u32, u32)> = Seq::empty();
    let n = loops.len();
    let mut i: usize = 0;
    while i < n
        invariant
            n == loops@.len(),
            pairs_sorted(loops@),
            loops@.to_set() == self_loop_set(prepared.filed()),
            irreflexive@ == plan.irreflexive(),
            terms == index.terms(),
            rel == reports_irreflexive(terms),
            conflicts == irreflexive_conflicts(prepared.filed(), plan.irreflexive(), terms),
            i <= n,
            pairs_sorted(cs),
            forall|a: int| #![trigger cs[a]] 0 <= a < cs.len() ==> exists|b: int| 0 <= b < i && #[trigger] loops@[b] == cs[a],
            cs.to_set() == conflicts.intersect(loops@.take(i as int).to_set()),
            reported_in_order(violations@, cs, rel),
        decreases n - i,
    {
        let l = loops[i];
        let (subject_id, predicate_id) = l;
        let ghost cs_before = cs;
        let mut added = false;
        proof {
            crate::idset::lemma_take_succ_to_set(loops@, i as int);
            assert(loops@.to_set().contains(l));
        }
        if irreflexive.contains(predicate_id) {
            match (resolve_text(index, subject_id), resolve_text(index, predicate_id)) {
                (Some(subject), Some(property)) => {
                    let v = build_irreflexive_property_violation(subject, property);
                    proof {
                        assert(rel(v, l));
                        lemma_in_order_push(violations@, cs, rel, v, l);
                        cs = cs.push(l);
                        assert forall|a: int| #![trigger cs[a]] 0 <= a < cs.len() implies exists|b: int| 0 <= b < i + 1 && #[trigger] loops@[b] == cs[a] by {
                            if a < cs_before.len() {
                                let b = choose|b: int| 0 <= b < i && #[trigger] loops@[b] == cs_before[a];
                                assert(loops@[b] == cs[a]);
                            } else {
                                assert(loops@[i as int] == cs[a]);
                            }
                        }
                        assert forall|a: int, b: int| 0 <= a < b < cs.len() implies pair_lt(#[trigger] cs[a], #[trigger] cs[b]) by {
                            if b == cs_before.len() {
                                let e = choose|e: int| 0 <= e < i && #[trigger] loops@[e] == cs_before[a];
                                assert(pair_lt(loops@[e], loops@[i as int]));
                            } else {
                                assert(pair_lt(cs_before[a], cs_before[b]));
                            }
                        }
                    }
                    violations.push(v);
                    added = true;
                },
                _ => {},
            }
        }
        proof {
            let old_set = loops@.take(i as int).to_set();
            let new_set = loops@.take(i + 1).to_set();
            assert(new_set == old_set.insert(l));
            if added {
                assert(conflicts.contains(l));
                cs_before.lemma_push_to_set_commute(l);
            } else {
                assert(!conflicts.contains(l));
                assert(cs == cs_before);
            }
            assert(cs.to_set() =~= conflicts.intersect(new_set));
        }
        i += 1;
    }
    proof {
        assert(loops@.take(n as int) =~= loops@);
        assert(cs.to_set() =~= conflicts);
    }
    violations
}

/// `v` reports that both `subject property object` and its reverse hold
/// for an asymmetric `property`.
pub open spec fn asymmetric_violation(
    v: ConsistencyViolation,
    subject: Seq<char>,
    property: Seq<char>,
    object: Seq<char>,
) -> bool {
    let forward = rendered(subject, property, object);
    let reverse = rendered(object, property, subject);
    &&& v.message@ == "Consistency violation: property "@ + property
        + " is declared owl:AsymmetricProperty but both "@ + forward + " and "@ + reverse
        + " are present"@
    &&& v.violated_constraint@ == "owl:AsymmetricProperty"@
    &&& v.focus_resource@ == subject
    &&& v.left_type@ == property
    &&& v.right_type@ == object
    &&& v.left_origin@ == "effective assertion "@ + forward
    &&& v.right_origin@ == "effective reverse assertion"@ + " "@ + reverse
    &&& crate::class_consistency::blame_is(
        v.blame,
        "pairwise-asymmetry-assertion-collision"@,
        forward,
        "effective property assertion"@,
        reverse,
        "effective reverse assertion"@,
    )
    &&& v.evidence@.len() == 3
    &&& evidence_is(
        v.evidence@[0],
        "constraint-declaration"@,
        property,
        RDF_TYPE@,
        OWL_ASYMMETRIC_PROPERTY@,
        "property declaration"@,
    )
    &&& evidence_is(
        v.evidence@[1],
        "conflicting-assertion"@,
        subject,
        property,
        object,
        "effective property assertion"@,
    )
    &&& evidence_is(
        v.evidence@[2],
        "conflicting-assertion"@,
        object,
        property,
        subject,
        "effective reverse assertion"@,
    )
}

/// The pair `{a, b}` of an asymmetric property `p`, as `(p, smaller,
/// larger)`, when both `a p b` and `b p a` hold with `a != b`.
pub open spec fn asymmetric_pair(filed: Set<(u32, u32, u32)>, asymmetric: Set<u32>, c: (u32, u32, u32)) -> bool {
    &&& c.1 < c.2
    &&& asymmetric.contains(c.0)
    &&& filed.contains((c.1, c.0, c.2))
    &&& filed.contains((c.2, c.0, c.1))
}

/// The asymmetric pairs whose terms resolve.
pub open spec fn asymmetric_conflicts(
    filed: Set<(u32, u32, u32)>,
    asymmetric: Set<u32>,
    terms: Seq<Seq<char>>,
) -> Set<(u32, u32, u32)> {
    Set::new(
        |c: (u32, u32, u32)|
            asymmetric_pair(filed, asymmetric, c) && c.0 < terms.len() && c.1 < terms.len() && c.2
                < terms.len(),
    )
}

/// `v` reports the asymmetric pair `c`, from its smaller resource.
pub open spec fn reports_asymmetric(terms: Seq<Seq<char>>) -> spec_fn(ConsistencyViolation, (u32, u32, u32)) -> bool {
    |v: ConsistencyViolation, c: (u32, u32, u32)| asymmetric_violation(v, terms[c.1 as int], terms[c.0 as int], terms[c.2 as int])
}

/// The violation of asymmetric `property` by `subject property object` and
/// its reverse.
fn asymmetric_violation_for(subject: &str, property: &str, object: &str) -> (r: ConsistencyViolation)
    ensures
        asymmetric_violation(r, subject@, property@, object@),
{
    let forward = render_assertion(subject, property, object);
    let reverse = render_assertion(object, property, subject);
    let mut message = "Consistency violation: property ".to_owned();
    message.append(property);
    message.append(" is declared owl:AsymmetricProperty but both ");
    message.append(forward.as_str());
    message.append(" and ");
    message.append(reverse.as_str());
    message.append(" are present");
    let evidence = vec![
        declaration_evidence(
            "constraint-declaration",
            property,
            OWL_ASYMMETRIC_PROPERTY,
            "property declaration".to_owned(),
        ),
        assertion_evidence(
            "conflicting-assertion",
            subject,
            property,
            object,
            "effective property assertion".to_owned(),
        ),
        assertion_evidence(
            "conflicting-assertion",
            object,
            property,
            subject,
            "effective reverse assertion".to_owned(),
        ),
    ];
    let collision = AssertionCollision {
        focus_resource: subject,
        left_type: property,
        right_type: object,
        principal_assertion: forward.as_str(),
        contextual_assertion: reverse.as_str(),
        heuristic: "pairwise-asymmetry-assertion-collision",
        contextual_origin_label: "effective reverse assertion",
        evidence,
    };
    build_assertion_collision_violation("owl:AsymmetricProperty", message, collision)
}

/// Reports each pair of resources related both ways by an
/// `owl:AsymmetricProperty`, once.
pub fn detect_asymmetric_property_conflicts(
    index: &IndexedDataset,
    plan: &PropertyCharacteristicPlan,
    prepared: &PreparedPropertyAssertions,
) -> (r: Vec<ConsistencyViolation>)
    ensures
        asymmetric_reported(r@, prepared.filed(), plan.asymmetric(), index.terms()),
{
    let outgoing = prepared.outgoing_objects_by_property_subject();
    let asymmetric = plan.asymmetric_properties();
    let ghost terms = index.terms();
    let ghost filed = prepared.filed();
    let ghost rel = reports_asymmetric(terms);
    let ghost structural = Set::new(|c: (u32, u32, u32)| asymmetric_pair(filed, plan.asymmetric(), c));
    let keys = outgoing.keys();
    let n = keys.len();
    let mut seen = TripleSet::new();
    let mut x: usize = 0;
    while x < n
        invariant
            n == keys@.len(),
            keys@.no_duplicates(),
            keys@.to_set() == outgoing@.dom(),
            outgoing@ == index_by(filed, property_subject(), object_of()),
            filed == prepared.filed(),
            asymmetric@ == plan.asymmetric(),
            terms == index.terms(),
            rel == reports_asymmetric(terms),
            structural == Set::new(|c: (u32, u32, u32)| asymmetric_pair(filed, plan.asymmetric(), c)),
            x <= n,
            seen@ == structural.filter(|c: (u32, u32, u32)| exists|k: int| 0 <= k < x && (keys@[k] == (c.0, c.1) || keys@[k] == (c.0, c.2))),
        decreases n - x,
    {
        let (predicate_id, subject_id) = keys[x];
        let ghost seen_before = seen@;
        if asymmetric.contains(predicate_id) {
            let objects = match outgoing.get((predicate_id, subject_id)) {
                Some(set) => set.as_slice(),
                None => {
                    proof {
                        assert(keys@.to_set().contains(keys@[x as int]));
                    }
                    &[]
                },
            };
            let m = objects.len();
            let mut y: usize = 0;
            while y < m
                invariant
                    n == keys@.len(),
                    keys@.no_duplicates(),
                    keys@.to_set() == outgoing@.dom(),
                    outgoing@ == index_by(filed, property_subject(), object_of()),
                    filed == prepared.filed(),
                    asymmetric@ == plan.asymmetric(),
                    plan.asymmetric().contains(predicate_id),
                    terms == index.terms(),
                    rel == reports_asymmetric(terms),
                    structural == Set::new(|c: (u32, u32, u32)| asymmetric_pair(filed, plan.asymmetric(), c)),
                    x < n,
                    keys@[x as int] == (predicate_id, subject_id),
                    m == objects@.len(),
                    objects@.to_set() == outgoing@[(predicate_id, subject_id)],
                    y <= m,
                    seen@ == seen_before.union(structural.filter(|c: (u32, u32, u32)| c.0 == predicate_id && exists|k: int| 0 <= k < y && ((c.1 == subject_id && c.2 == objects@[k]) || (c.2 == subject_id && c.1 == objects@[k])))),
                    seen_before == structural.filter(|c: (u32, u32, u32)| exists|k: int| 0 <= k < x && (keys@[k] == (c.0, c.1) || keys@[k] == (c.0, c.2))),
                decreases m - y,
            {
                let object_id = objects[y];
                proof {
                    assert(objects@.to_set().contains(object_id));
                    assert(filed.contains((subject_id, predicate_id, object_id))) by {
                        let t = choose|t: (u32, u32, u32)| #[trigger] filed.contains(t) && (property_subject())(t) == (predicate_id, subject_id) && (object_of())(t) == object_id;
                    }
                }
                if subject_id != object_id {
                    let reverse_holds = match prepared.objects_for(predicate_id, object_id) {
                        Some(reverse) => reverse.contains(subject_id),
                        None => false,
                    };
                    let ghost seen_mid = seen@;
                    if reverse_holds {
                        let (lo, hi) = crate::dataset_index::builder::ordered_pair(subject_id, object_id);
                        let c = (predicate_id, lo, hi);
                        proof {
                            assert(filed.contains((object_id, predicate_id, subject_id))) by {
                                let t = choose|t: (u32, u32, u32)| #[trigger] filed.contains(t) && (property_subject())(t) == (predicate_id, object_id) && (object_of())(t) == subject_id;
                            }
                            assert(asymmetric_pair(filed, plan.asymmetric(), c));
                        }
                        seen.insert(c);
                        proof {
                            assert(seen@ =~= seen_before.union(structural.filter(|c2: (u32, u32, u32)| c2.0 == predicate_id && exists|k: int| 0 <= k < y + 1 && ((c2.1 == subject_id && c2.2 == objects@[k]) || (c2.2 == subject_id && c2.1 == objects@[k]))))) by {
                                assert forall|c2: (u32, u32, u32)| seen_before.union(structural.filter(|c3: (u32, u32, u32)| c3.0 == predicate_id && exists|k: int| 0 <= k < y + 1 && ((c3.1 == subject_id && c3.2 == objects@[k]) || (c3.2 == subject_id && c3.1 == objects@[k])))).contains(c2) implies seen@.contains(c2) by {
                                    if !seen_before.contains(c2) {
                                        let k = choose|k: int| 0 <= k < y + 1 && ((c2.1 == subject_id && c2.2 == objects@[k]) || (c2.2 == subject_id && c2.1 == objects@[k]));
                                        if k < y {
                                            assert(seen_mid.contains(c2));
                                        } else {
                                            assert(c2 == c);
                                        }
                                    }
                                }
                            }
                        }
                    } else {
                        proof {
                            assert(seen@ =~= seen_before.union(structural.filter(|c2: (u32, u32, u32)| c2.0 == predicate_id && exists|k: int| 0 <= k < y + 1 && ((c2.1 == subject_id && c2.2 == objects@[k]) || (c2.2 == subject_id && c2.1 == objects@[k]))))) by {
                                assert forall|c2: (u32, u32, u32)| seen_before.union(structural.filter(|c3: (u32, u32, u32)| c3.0 == predicate_id && exists|k: int| 0 <= k < y + 1 && ((c3.1 == subject_id && c3.2 == objects@[k]) || (c3.2 == subject_id && c3.1 == objects@[k])))).contains(c2) implies seen@.contains(c2) by {
                                    if !seen_before.contains(c2) {
                                        let k = choose|k: int| 0 <= k < y + 1 && ((c2.1 == subject_id && c2.2 == objects@[k]) || (c2.2 == subject_id && c2.1 == objects@[k]));
                                        if k == y {
                                            assert(asymmetric_pair(filed, plan.asymmetric(), c2));
                                            if c2.1 == subject_id {
                                                assert(filed.contains((object_id, predicate_id, subject_id)));
                                            } else {
                                                assert(filed.contains((object_id, predicate_id, subject_id)));
                                            }
                                            assert(index_by(filed, property_subject(), object_of()).contains_key((predicate_id, object_id))) by {
                                                assert(filed.contains((object_id, predicate_id, subject_id)) && (property_subject())((object_id, predicate_id, subject_id)) == (predicate_id, object_id));
                                            }
                                            assert(index_by(filed, property_subject(), object_of())[(predicate_id, object_id)].contains(subject_id)) by {
                                                assert(filed.contains((object_id, predicate_id, subject_id)) && (property_subject())((object_id, predicate_id, subject_id)) == (predicate_id, object_id) && (object_of())((object_id, predicate_id, subject_id)) == subject_id);
                                            }
                                        }
                                    }
                                }
                            }
                        }
                    }
                } else {
                    proof {
                        assert(seen@ =~= seen_before.union(structural.filter(|c2: (u32, u32, u32)| c2.0 == predicate_id && exists|k: int| 0 <= k < y + 1 && ((c2.1 == subject_id && c2.2 == objects@[k]) || (c2.2 == subject_id && c2.1 == objects@[k]))))) by {
                            assert forall|c2: (u32, u32, u32)| seen_before.union(structural.filter(|c3: (u32, u32, u32)| c3.0 == predicate_id && exists|k: int| 0 <= k < y + 1 && ((c3.1 == subject_id && c3.2 == objects@[k]) || (c3.2 == subject_id && c3.1 == objects@[k])))).contains(c2) implies seen@.contains(c2) by {
                                if !seen_before.contains(c2) {
                                    let k = choose|k: int| 0 <= k < y + 1 && ((c2.1 == subject_id && c2.2 == objects@[k]) || (c2.2 == subject_id && c2.1 == objects@[k]));
                                    assert(k < y);
                                }
                            }
                        }
                    }
                }
                y += 1;
            }
            proof {
                assert(seen@ =~= structural.filter(|c: (u32, u32, u32)| exists|k: int| 0 <= k < x + 1 && (keys@[k] == (c.0, c.1) || keys@[k] == (c.0, c.2)))) by {
                    assert forall|c: (u32, u32, u32)| structural.filter(|c3: (u32, u32, u32)| exists|k: int| 0 <= k < x + 1 && (keys@[k] == (c3.0, c3.1) || keys@[k] == (c3.0, c3.2))).contains(c) implies seen@.contains(c) by {
                        let k = choose|k: int| 0 <= k < x + 1 && (keys@[k] == (c.0, c.1) || keys@[k] == (c.0, c.2));
                        if k == x {
                            let other = if keys@[k] == (c.0, c.1) { c.2 } else { c.1 };
                            assert(filed.contains((subject_id, predicate_id, other)));
                            assert(outgoing@[(predicate_id, subject_id)].contains(other)) by {
                                assert(filed.contains((subject_id, predicate_id, other)) && (property_subject())((subject_id, predicate_id, other)) == (predicate_id, subject_id) && (object_of())((subject_id, predicate_id, other)) == other);
                            }
                            assert(objects@.to_set().contains(other));
                            let j = choose|j: int| 0 <= j < m && objects@[j] == other;
                        }
                    }
                    assert forall|c: (u32, u32, u32)| seen@.contains(c) implies structural.filter(|c3: (u32, u32, u32)| exists|k: int| 0 <= k < x + 1 && (keys@[k] == (c3.0, c3.1) || keys@[k] == (c3.0, c3.2))).contains(c) by {
                        if !seen_before.contains(c) {
                            assert(keys@[x as int] == (c.0, c.1) || keys@[x as int] == (c.0, c.2));
                        } else {
                            let k = choose|k: int| 0 <= k < x && (keys@[k] == (c.0, c.1) || keys@[k] == (c.0, c.2));
                            assert(0 <= k < x + 1);
                        }
                    }
                }
            }
        } else {
            proof {
                assert(seen@ =~= structural.filter(|c: (u32, u32, u32)| exists|k: int| 0 <= k < x + 1 && (keys@[k] == (c.0, c.1) || keys@[k] == (c.0, c.2)))) by {
                    assert forall|c: (u32, u32, u32)| structural.filter(|c3: (u32, u32, u32)| exists|k: int| 0 <= k < x + 1 && (keys@[k] == (c3.0, c3.1) || keys@[k] == (c3.0, c3.2))).contains(c) implies seen@.contains(c) by {
                        let k = choose|k: int| 0 <= k < x + 1 && (keys@[k] == (c.0, c.1) || keys@[k] == (c.0, c.2));
                        if k == x {
                            assert(plan.asymmetric().contains(c.0));
                        }
                    }
                }
            }
        }
        x += 1;
    }
    proof {
        assert(seen@ =~= structural) by {
            assert forall|c: (u32, u32, u32)| structural.contains(c) implies seen@.contains(c) by {
                assert(filed.contains((c.1, c.0, c.2)));
                assert(outgoing@.contains_key((c.0, c.1))) by {
                    assert(filed.contains((c.1, c.0, c.2)) && (property_subject())((c.1, c.0, c.2)) == (c.0, c.1));
                }
                assert(keys@.to_set().contains((c.0, c.1)));
                let k = choose|k: int| 0 <= k < n && keys@[k] == (c.0, c.1);
            }
        }
    }
    let found = sorted_triples(seen.as_slice());
    let ghost conflicts = asymmetric_conflicts(filed, plan.asymmetric(), terms);
    proof {
        assert(conflicts =~= structural.filter(|c: (u32, u32, u32)| c.0 < terms.len() && c.1 < terms.len() && c.2 < terms.len()));
    }
    let mut violations: Vec<ConsistencyViolation> = Vec::new();
    let ghost mut cs: Seq<(u32, u32, u32)> = Seq::empty();
    let total = found.len();
    let mut q: usize = 0;
    while q < total
        invariant
            total == found@.len(),
            triples_sorted(found@),
            found@.to_set() == structural,
            structural == Set::new(|c: (u32, u32, u32)| asymmetric_pair(filed, plan.asymmetric(), c)),
            conflicts == asymmetric_conflicts(filed, plan.asymmetric(), terms),
            terms == index.terms(),
            rel == reports_asymmetric(terms),
            q <= total,
            triples_sorted(cs),
            forall|a: int| #![trigger cs[a]] 0 <= a < cs.len() ==> exists|b: int| 0 <= b < q && #[trigger] found@[b] == cs[a],
            cs.to_set() == conflicts.intersect(found@.take(q as int).to_set()),
            reported_in_order(violations@, cs, rel),
        decreases total - q,
    {
        let c = found[q];
        let (predicate_id, lo, hi) = c;
        let ghost cs_before = cs;
        let mut added = false;
        proof {
            crate::idset::lemma_take_succ_to_set(found@, q as int);
            assert(found@.to_set().contains(c));
        }
        match (resolve_text(index, lo), resolve_text(index, predicate_id), resolve_text(index, hi)) {
            (Some(subject), Some(property), Some(object)) => {
                let v = asymmetric_violation_for(subject, property, object);
                proof {
                    assert(rel(v, c));
                    lemma_in_order_push(violations@, cs, rel, v, c);
                    cs = cs.push(c);
                    assert forall|a: int| #![trigger cs[a]] 0 <= a < cs.len() implies exists|b: int| 0 <= b < q + 1 && #[trigger] found@[b] == cs[a] by {
                        if a < cs_before.len() {
                            let b = choose|b: int| 0 <= b < q && #[trigger] found@[b] == cs_before[a];
                            assert(found@[b] == cs[a]);
                        } else {
                            assert(found@[q as int] == cs[a]);
                        }
                    }
                    assert forall|a: int, b: int| 0 <= a < b < cs.len() implies triple_lt(#[trigger] cs[a], #[trigger] cs[b]) by {
                        if b == cs_before.len() {
                            let e = choose|e: int| 0 <= e < q && #[trigger] found@[e] == cs_before[a];
                            assert(triple_lt(found@[e], found@[q as int]));
                        } else {
                            assert(triple_lt(cs_before[a], cs_before[b]));
                        }
                    }
                }
                violations.push(v);
                added = true;
            },
            _ => {},
        }
        proof {
            let old_set = found@.take(q as int).to_set();
            let new_set = found@.take(q + 1).to_set();
            assert(new_set == old_set.insert(c));
            if added {
                assert(conflicts.contains(c));
                cs_before.lemma_push_to_set_commute(c);
            } else {
                assert(!conflicts.contains(c));
                assert(cs == cs_before);
            }
            assert(cs.to_set() =~= conflicts.intersect(new_set));
        }
        q += 1;
    }
    proof {
        assert(found@.take(total as int) =~= found@);
        assert(cs.to_set() =~= conflicts);
    }
    violations
}

/// `v` reports that `subject` relates to `object` through two disjoint
/// properties.
pub open spec fn disjoint_property_violation(
    v: ConsistencyViolation,
    subject: Seq<char>,
    left_property: Seq<char>,
    right_property: Seq<char>,
    object: Seq<char>,
) -> bool {
    let left_assertion = rendered(subject, left_property, object);
    let right_assertion = rendered(subject, right_property, object);
    &&& v.message@ == "Consistency violation: properties "@ + left_property + " and "@
        + right_property + " are declared owl:propertyDisjointWith but both "@ + left_assertion
        + " and "@ + right_assertion + " are present"@
    &&& v.violated_constraint@ == "owl:propertyDisjointWith"@
    &&& v.focus_resource@ == subject
    &&& v.left_type@ == left_property
    &&& v.right_type@ == right_property
    &&& v.left_origin@ == "effective assertion "@ + left_assertion
    &&& v.right_origin@ == "effective assertion"@ + " "@ + right_assertion
    &&& crate::class_consistency::blame_is(
        v.blame,
        "pairwise-property-disjointness-assertion-collision"@,
        left_assertion,
        "effective property assertion"@,
        right_assertion,
        "effective assertion"@,
    )
    &&& v.evidence@.len() == 3
    &&& evidence_is(
        v.evidence@[0],
        "constraint-axiom"@,
        left_property,
        OWL_PROPERTY_DISJOINT_WITH@,
        right_property,
        "asserted property disjointness axiom"@,
    )
    &&& evidence_is(
        v.evidence@[1],
        "conflicting-assertion"@,
        subject,
        left_property,
        object,
        "effective property assertion"@,
    )
    &&& evidence_is(
        v.evidence@[2],
        "conflicting-assertion"@,
        subject,
        right_property,
        object,
        "effective assertion"@,
    )
}

/// The pairs of disjoint properties `(subject, object, p, q)`: `subject`
/// relates to `object` through `p` and through `q`, `q` is declared
/// disjoint with `p`, and `p <= q`.
pub open spec fn disjoint_property_pairs(filed: Set<(u32, u32, u32)>, disjoint: Map<u32, Set<u32>>) -> Set<(u32, u32, u32, u32)> {
    Set::new(
        |c: (u32, u32, u32, u32)|
            filed.contains((c.0, c.2, c.1)) && filed.contains((c.0, c.3, c.1))
                && crate::closure_index::successors(disjoint, c.2).contains(c.3) && c.2 <= c.3,
    )
}

/// The pairs of `disjoint_property_pairs` whose four terms resolve.
pub open spec fn disjoint_property_conflicts(
    filed: Set<(u32, u32, u32)>,
    disjoint: Map<u32, Set<u32>>,
    terms: Seq<Seq<char>>,
) -> Set<(u32, u32, u32, u32)> {
    disjoint_property_pairs(filed, disjoint).filter(
        |c: (u32, u32, u32, u32)| c.0 < terms.len() && c.1 < terms.len() && c.2 < terms.len() && c.3 < terms.len(),
    )
}

/// `v` reports the conflict `c`.
pub open spec fn reports_disjoint_property(terms: Seq<Seq<char>>) -> spec_fn(ConsistencyViolation, (u32, u32, u32, u32)) -> bool {
    |v: ConsistencyViolation, c: (u32, u32, u32, u32)|
        disjoint_property_violation(
            v,
            terms[c.0 as int],
            terms[c.2 as int],
            terms[c.3 as int],
            terms[c.1 as int],
        )
}

/// The violation of disjoint `left_property` and `right_property` by
/// `subject` and `object`.
fn disjoint_violation_for(subject: &str, left_property: &str, right_property: &str, object: &str) -> (r: ConsistencyViolation)
    ensures
        disjoint_property_violation(r, subject@, left_property@, right_property@, object@),
{
    let left_assertion = render_assertion(subject, left_property, object);
    let right_assertion = render_assertion(subject, right_property, object);
    let mut message = "Consistency violation: properties ".to_owned();
    message.append(left_property);
    message.append(" and ");
    message.append(right_property);
    message.append(" are declared owl:propertyDisjointWith but both ");
    message.append(left_assertion.as_str());
    message.append(" and ");
    message.append(right_assertion.as_str());
    message.append(" are present");
    let evidence = vec![
        assertion_evidence(
            "constraint-axiom",
            left_property,
            OWL_PROPERTY_DISJOINT_WITH,
            right_property,
            "asserted property disjointness axiom".to_owned(),
        ),
        assertion_evidence(
            "conflicting-assertion",
            subject,
            left_property,
            object,
            "effective property assertion".to_owned(),
        ),
        assertion_evidence(
            "conflicting-assertion",
            subject,
            right_property,
            object,
            "effective assertion".to_owned(),
        ),
    ];
    let collision = AssertionCollision {
        focus_resource: subject,
        left_type: left_property,
        right_type: right_property,
        principal_assertion: left_assertion.as_str(),
        contextual_assertion: right_assertion.as_str(),
        heuristic: "pairwise-property-disjointness-assertion-collision",
        contextual_origin_label: "effective assertion",
        evidence,
    };
    build_assertion_collision_violation("owl:propertyDisjointWith", message, collision)
}

/// Adds to the sorted `found` the pairs of disjoint properties of
/// `subject`, `object` and property `p`, given the properties `preds`
/// relating them.
fn disjoint_pairs_through(
    plan: &PropertyCharacteristicPlan,
    prepared: &PreparedPropertyAssertions,
    subject_id: u32,
    object_id: u32,
    predicate_id: u32,
    preds: &IdSet,
    found: &mut Vec<(u32, u32, u32, u32)>,
)
    requires
        quads_sorted(old(found)@),
        preds@ == Set::new(|p: u32| prepared.filed().contains((subject_id, p, object_id))),
        preds@.contains(predicate_id),
    ensures
        quads_sorted(final(found)@),
        final(found)@.to_set() == old(found)@.to_set().union(
            disjoint_property_pairs(prepared.filed(), plan.disjoint_pairs()).filter(
                |c: (u32, u32, u32, u32)| c.0 == subject_id && c.1 == object_id && c.2 == predicate_id,
            ),
        ),
{
    let ghost start = found@.to_set();
    let ghost target_set = disjoint_property_pairs(prepared.filed(), plan.disjoint_pairs()).filter(
        |c: (u32, u32, u32, u32)| c.0 == subject_id && c.1 == object_id && c.2 == predicate_id,
    );
    let others = match plan.property_disjoint_pairs().get(predicate_id) {
        Some(set) => set.as_slice(),
        None => {
            proof {
                assert(start.union(target_set) =~= start);
            }
            return;
        },
    };
    let m = others.len();
    let mut z: usize = 0;
    while z < m
        invariant
            m == others@.len(),
            others@.to_set() == plan.disjoint_pairs()[predicate_id],
            plan.disjoint_pairs().contains_key(predicate_id),
            preds@ == Set::new(|p: u32| prepared.filed().contains((subject_id, p, object_id))),
            preds@.contains(predicate_id),
            target_set == disjoint_property_pairs(prepared.filed(), plan.disjoint_pairs()).filter(
                |c: (u32, u32, u32, u32)| c.0 == subject_id && c.1 == object_id && c.2 == predicate_id,
            ),
            z <= m,
            quads_sorted(found@),
            found@.to_set() == start.union(target_set.filter(|c: (u32, u32, u32, u32)| exists|k: int| 0 <= k < z && others@[k] == c.3)),
        decreases m - z,
    {
        let other_id = others[z];
        let c = (subject_id, object_id, predicate_id, other_id);
        let ghost before = found@.to_set();
        proof {
            assert(others@.to_set().contains(other_id));
        }
        if preds.contains(other_id) && predicate_id <= other_id {
            sorted_quad_insert(found, c);
        }
        proof {
            let next = start.union(target_set.filter(|c2: (u32, u32, u32, u32)| exists|k: int| 0 <= k < z + 1 && others@[k] == c2.3));
            assert(found@.to_set() =~= next) by {
                assert forall|c2: (u32, u32, u32, u32)| next.contains(c2) implies found@.to_set().contains(c2) by {
                    if !start.contains(c2) {
                        let k = choose|k: int| 0 <= k < z + 1 && others@[k] == c2.3;
                        if k < z {
                            assert(before.contains(c2));
                        } else {
                            assert(c2 == c);
                            assert(preds@.contains(other_id));
                        }
                    }
                }
                assert forall|c2: (u32, u32, u32, u32)| found@.to_set().contains(c2) implies next.contains(c2) by {
                    if before.contains(c2) && !start.contains(c2) {
                        let k = choose|k: int| 0 <= k < z && others@[k] == c2.3;
                        assert(0 <= k < z + 1);
                    }
                    if !before.contains(c2) {
                        assert(c2 == c);
                        assert(others@[z as int] == c2.3);
                    }
                }
            }
        }
        z += 1;
    }
    proof {
        assert(found@.to_set() =~= start.union(target_set)) by {
            assert forall|c2: (u32, u32, u32, u32)| target_set.contains(c2) implies found@.to_set().contains(c2) by {
                assert(others@.to_set().contains(c2.3));
                let k = choose|k: int| 0 <= k < m && others@[k] == c2.3;
            }
        }
    }
}

/// Reports each resource pair related through two properties declared
/// `owl:propertyDisjointWith`, in the order of `(subject, object, p, q)`.
pub fn detect_disjoint_property_conflicts(
    index: &IndexedDataset,
    plan: &PropertyCharacteristicPlan,
    prepared: &PreparedPropertyAssertions,
) -> (r: Vec<ConsistencyViolation>)
    ensures
        disjoint_property_reported(r@, prepared.filed(), plan.disjoint_pairs(), index.terms()),
{
    let by_pair = prepared.predicates_by_subject_object();
    let ghost terms = index.terms();
    let ghost rel = reports_disjoint_property(terms);
    let ghost filed = prepared.filed();
    let ghost all = disjoint_property_pairs(filed, plan.disjoint_pairs());
    let keys = by_pair.keys();
    let n = keys.len();
    let mut found: Vec<(u32, u32, u32, u32)> = Vec::new();
    let mut x: usize = 0;
    proof {
        assert(found@.to_set() =~= all.filter(|c: (u32, u32, u32, u32)| exists|k: int| 0 <= k < 0 && keys@[k] == (c.0, c.1)));
    }
    while x < n
        invariant
            n == keys@.len(),
            n == by_pair.set_seq().len(),
            keys@ == by_pair.key_seq(),
            by_pair@ == index_by(filed, crate::property_consistency::prepared::subject_object(), crate::property_consistency::prepared::property_of()),
            filed == prepared.filed(),
            all == disjoint_property_pairs(filed, plan.disjoint_pairs()),
            x <= n,
            quads_sorted(found@),
            found@.to_set() == all.filter(|c: (u32, u32, u32, u32)| exists|k: int| 0 <= k < x && keys@[k] == (c.0, c.1)),
        decreases n - x,
    {
        let (subject_id, object_id) = by_pair.key_at(x);
        let preds = by_pair.set_at(x);
        let items = preds.as_slice();
        let m = items.len();
        proof {
            assert(preds@ =~= Set::new(|p: u32| filed.contains((subject_id, p, object_id)))) by {
                assert forall|p: u32| preds@.contains(p) implies filed.contains((subject_id, p, object_id)) by {
                    let t = choose|t: (u32, u32, u32)| #[trigger] filed.contains(t) && (crate::property_consistency::prepared::subject_object())(t) == (subject_id, object_id) && (crate::property_consistency::prepared::property_of())(t) == p;
                }
                assert forall|p: u32| filed.contains((subject_id, p, object_id)) implies preds@.contains(p) by {
                    assert((crate::property_consistency::prepared::subject_object())((subject_id, p, object_id)) == (subject_id, object_id));
                }
            }
        }
        let mut y: usize = 0;
        let ghost row_start = found@.to_set();
        while y < m
            invariant
                m == items@.len(),
                items@.to_set() == preds@,
                preds@ == Set::new(|p: u32| filed.contains((subject_id, p, object_id))),
                filed == prepared.filed(),
                all == disjoint_property_pairs(filed, plan.disjoint_pairs()),
                y <= m,
                quads_sorted(found@),
                found@.to_set() == row_start.union(all.filter(|c: (u32, u32, u32, u32)| c.0 == subject_id && c.1 == object_id && exists|k: int| 0 <= k < y && items@[k] == c.2)),
            decreases m - y,
        {
            let predicate_id = items[y];
            let ghost before = found@.to_set();
            proof {
                assert(items@.to_set().contains(predicate_id));
            }
            disjoint_pairs_through(plan, prepared, subject_id, object_id, predicate_id, preds, &mut found);
            proof {
                let next = row_start.union(all.filter(|c: (u32, u32, u32, u32)| c.0 == subject_id && c.1 == object_id && exists|k: int| 0 <= k < y + 1 && items@[k] == c.2));
                let added = all.filter(|c: (u32, u32, u32, u32)| c.0 == subject_id && c.1 == object_id && c.2 == predicate_id);
                assert(before.union(added) =~= next) by {
                    assert forall|c: (u32, u32, u32, u32)| next.contains(c) implies before.union(added).contains(c) by {
                        if !row_start.contains(c) {
                            let k = choose|k: int| 0 <= k < y + 1 && items@[k] == c.2;
                            if k == y {
                                assert(added.contains(c));
                            }
                        }
                    }
                    assert forall|c: (u32, u32, u32, u32)| before.union(added).contains(c) implies next.contains(c) by {
                        if added.contains(c) && !row_start.contains(c) {
                            assert(items@[y as int] == c.2);
                        }
                        if before.contains(c) && !row_start.contains(c) {
                            let k = choose|k: int| 0 <= k < y && items@[k] == c.2;
                            assert(0 <= k < y + 1);
                        }
                    }
                }
            }
            y += 1;
        }
        proof {
            let next = all.filter(|c: (u32, u32, u32, u32)| exists|k: int| 0 <= k < x + 1 && keys@[k] == (c.0, c.1));
            assert(found@.to_set() =~= next) by {
                assert forall|c: (u32, u32, u32, u32)| next.contains(c) implies found@.to_set().contains(c) by {
                    let k = choose|k: int| 0 <= k < x + 1 && keys@[k] == (c.0, c.1);
                    if k == x {
                        assert(preds@.contains(c.2));
                        assert(items@.to_set().contains(c.2));
                        let j = choose|j: int| 0 <= j < m && items@[j] == c.2;
                    }
                }
                assert forall|c: (u32, u32, u32, u32)| found@.to_set().contains(c) implies next.contains(c) by {
                    if !row_start.contains(c) {
                        assert(keys@[x as int] == (c.0, c.1));
                    } else {
                        let k = choose|k: int| 0 <= k < x && keys@[k] == (c.0, c.1);
                        assert(0 <= k < x + 1);
                    }
                }
            }
        }
        x += 1;
    }
    proof {
        assert(found@.to_set() =~= all) by {
            assert forall|c: (u32, u32, u32, u32)| all.contains(c) implies found@.to_set().contains(c) by {
                assert(filed.contains((c.0, c.2, c.1)));
                assert(by_pair@.contains_key((c.0, c.1))) by {
                    assert((crate::property_consistency::prepared::subject_object())((c.0, c.2, c.1)) == (c.0, c.1));
                }
                assert(by_pair.key_seq().contains((c.0, c.1)));
                let k = choose|k: int| 0 <= k < n && keys@[k] == (c.0, c.1);
            }
        }
    }
    let ghost conflicts = disjoint_property_conflicts(filed, plan.disjoint_pairs(), terms);
    let mut violations: Vec<ConsistencyViolation> = Vec::new();
    let ghost mut cs: Seq<(u32, u32, u32, u32)> = Seq::empty();
    let total = found.len();
    let mut q: usize = 0;
    while q < total
        invariant
            total == found@.len(),
            quads_sorted(found@),
            found@.to_set() == all,
            all == disjoint_property_pairs(filed, plan.disjoint_pairs()),
            conflicts == disjoint_property_conflicts(filed, plan.disjoint_pairs(), terms),
            terms == index.terms(),
            rel == reports_disjoint_property(terms),
            q <= total,
            quads_sorted(cs),
            forall|a: int| #![trigger cs[a]] 0 <= a < cs.len() ==> exists|b: int| 0 <= b < q && #[trigger] found@[b] == cs[a],
            cs.to_set() == conflicts.intersect(found@.take(q as int).to_set()),
            reported_in_order(violations@, cs, rel),
        decreases total - q,
    {
        let c = found[q];
        let (subject_id, object_id, predicate_id, other_id) = c;
        let ghost cs_before = cs;
        let mut added = false;
        proof {
            crate::idset::lemma_take_succ_to_set(found@, q as int);
            assert(found@.to_set().contains(c));
        }
        match (
            resolve_text(index, subject_id),
            resolve_text(index, object_id),
            resolve_text(index, predicate_id),
            resolve_text(index, other_id),
        ) {
            (Some(subject), Some(object), Some(left), Some(right)) => {
                let v = disjoint_violation_for(subject, left, right, object);
                proof {
                    assert(rel(v, c));
                    lemma_in_order_push(violations@, cs, rel, v, c);
                    cs = cs.push(c);
                    assert forall|a: int| #![trigger cs[a]] 0 <= a < cs.len() implies exists|b: int| 0 <= b < q + 1 && #[trigger] found@[b] == cs[a] by {
                        if a < cs_before.len() {
                            let b = choose|b: int| 0 <= b < q && #[trigger] found@[b] == cs_before[a];
                            assert(found@[b] == cs[a]);
                        } else {
                            assert(found@[q as int] == cs[a]);
                        }
                    }
                    assert forall|a: int, b: int| 0 <= a < b < cs.len() implies quad_lt(#[trigger] cs[a], #[trigger] cs[b]) by {
                        if b == cs_before.len() {
                            let e = choose|e: int| 0 <= e < q && #[trigger] found@[e] == cs_before[a];
                            assert(quad_lt(found@[e], found@[q as int]));
                        } else {
                            assert(quad_lt(cs_before[a], cs_before[b]));
                        }
                    }
                }
                violations.push(v);
                added = true;
            },
            _ => {},
        }
        proof {
            let old_set = found@.take(q as int).to_set();
            let new_set = found@.take(q + 1).to_set();
            assert(new_set == old_set.insert(c));
            if added {
                assert(conflicts.contains(c));
                cs_before.lemma_push_to_set_commute(c);
            } else {
                assert(!conflicts.contains(c));
                assert(cs == cs_before);
            }
            assert(cs.to_set() =~= conflicts.intersect(new_set));
        }
        q += 1;
    }
    proof {
        assert(found@.take(total as int) =~= found@);
        assert(cs.to_set() =~= conflicts);
    }
    violations
}

/// `r` reports the conflicts of `irreflexive_conflicts` one violation
/// each, in the order of `(subject, property)`.
pub open spec fn irreflexive_reported(
    r: Seq<ConsistencyViolation>,
    filed: Set<(u32, u32, u32)>,
    irreflexive: Set<u32>,
    terms: Seq<Seq<char>>,
) -> bool {
    exists|cs: Seq<(u32, u32)>|
        #[trigger] pairs_sorted(cs) && cs.to_set() == irreflexive_conflicts(filed, irreflexive, terms) && reported_in_order(
            r,
            cs,
            reports_irreflexive(terms),
        )
}

/// `r` reports the conflicts of `asymmetric_conflicts` one violation each,
/// in the order of `(property, smaller, larger)`.
pub open spec fn asymmetric_reported(
    r: Seq<ConsistencyViolation>,
    filed: Set<(u32, u32, u32)>,
    asymmetric: Set<u32>,
    terms: Seq<Seq<char>>,
) -> bool {
    exists|cs: Seq<(u32, u32, u32)>|
        #[trigger] triples_sorted(cs) && cs.to_set() == asymmetric_conflicts(filed, asymmetric, terms) && reported_in_order(
            r,
            cs,
            reports_asymmetric(terms),
        )
}

/// `r` reports the conflicts of `disjoint_property_conflicts` one violation
/// each, in the order of `(subject, object, p, q)`.
pub open spec fn disjoint_property_reported(
    r: Seq<ConsistencyViolation>,
    filed: Set<(u32, u32, u32)>,
    disjoint: Map<u32, Set<u32>>,
    terms: Seq<Seq<char>>,
) -> bool {
    exists|cs: Seq<(u32, u32, u32, u32)>|
        #[trigger] quads_sorted(cs) && cs.to_set() == disjoint_property_conflicts(filed, disjoint, terms)
            && reported_in_order(r, cs, reports_disjoint_property(terms))
}

/// Reports every conflict with a declared property characteristic:
/// irreflexive self-loops, asymmetric pairs and disjoint property pairs.
pub fn detect_property_characteristic_conflicts_prepared(
    index: &IndexedDataset,
    plan: &PropertyCharacteristicPlan,
    prepared: &PreparedPropertyAssertions,
) -> (r: Vec<ConsistencyViolation>)
    ensures
        exists|a: int, b: int|
            0 <= a <= b <= r@.len() && irreflexive_reported(#[trigger] r@.take(a), prepared.filed(), plan.irreflexive(), index.terms())
                && asymmetric_reported(#[trigger] r@.subrange(a, b), prepared.filed(), plan.asymmetric(), index.terms())
                && disjoint_property_reported(r@.subrange(b, r@.len() as int), prepared.filed(), plan.disjoint_pairs(), index.terms()),
{
    let mut violations = detect_irreflexive_property_conflicts(index, plan, prepared);
    let ghost first = violations@;
    let mut asymmetric = detect_asymmetric_property_conflicts(index, plan, prepared);
    let ghost second = asymmetric@;
    let mut disjoint = detect_disjoint_property_conflicts(index, plan, prepared);
    let ghost third = disjoint@;
    violations.append(&mut asymmetric);
    violations.append(&mut disjoint);
    proof {
        let a = first.len() as int;
        let b = a + second.len();
        assert(violations@.take(a) =~= first);
        assert(violations@.subrange(a, b) =~= second);
        assert(violations@.subrange(b, violations@.len() as int) =~= third);
    }
    violations
}

} // verus!
