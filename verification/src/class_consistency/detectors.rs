use vstd::prelude::*;

use crate::class_consistency::blame::{
    build_disjoint_blame, build_nothing_blame, disjoint_blame, nothing_blame,
};
use crate::class_consistency::prepared::PreparedClassConsistency;
use crate::class_consistency::{
    evidence_is, lemma_in_order_push, reported_in_order, ConsistencyViolation,
};
use crate::dataset_index::IndexedDataset;
use crate::effective_types::maps::OriginMap;
use crate::effective_types::origins::{
    effective_origin_rank, effective_rank, origin_text, rank_byte, EffectiveTypeOrigin,
};
use crate::closure_index::successors;
use crate::effective_types::{has_class, EffectiveTypeSet};
use crate::explanation::{assertion_evidence, type_assertion_evidence};
use crate::idset::IdSet;
use crate::pairs::{sorted_triple_insert, triple_lt, triples_sorted};
use crate::vocabulary::{OWL_DISJOINT_WITH, OWL_NOTHING, RDF_TYPE};

verus! {

/// The rank of the origin of class `c` in the class map `m`.
pub open spec fn rank_in(m: Map<u32, EffectiveTypeOrigin>, c: u32) -> u8 {
    rank_byte(effective_rank(m[c]))
}

/// The key `(origin rank, class id)` of `c` in `m` is at most that of `d`.
pub open spec fn class_key_le(m: Map<u32, EffectiveTypeOrigin>, c: u32, d: u32) -> bool {
    rank_in(m, c) < rank_in(m, d) || (rank_in(m, c) == rank_in(m, d) && c <= d)
}

/// `s` is the unsatisfiable class of the class map `m` with the smallest
/// key `(origin rank, class id)`.
pub open spec fn supporting_class(m: Map<u32, EffectiveTypeOrigin>, unsat: Set<u32>, s: u32) -> bool {
    &&& m.contains_key(s)
    &&& unsat.contains(s)
    &&& forall|d: u32| #[trigger] m.contains_key(d) && unsat.contains(d) ==> class_key_le(m, s, d)
}

/// A class map has at most one supporting class.
pub proof fn lemma_supporting_unique(m: Map<u32, EffectiveTypeOrigin>, unsat: Set<u32>, s: u32, t: u32)
    requires
        supporting_class(m, unsat, s),
        supporting_class(m, unsat, t),
    ensures
        s == t,
{
    assert(class_key_le(m, s, t));
    assert(class_key_le(m, t, s));
}

/// `v` reports that the instance `inst` has the unsatisfiable class
/// `class` (origin `origin`, described `text`) and so `owl:Nothing`
/// (described `nothing_text`); `is_nothing` when `class` is
/// `owl:Nothing` itself.
pub open spec fn nothing_violation(
    v: ConsistencyViolation,
    inst: Seq<char>,
    class: Seq<char>,
    is_nothing: bool,
    origin: EffectiveTypeOrigin,
    text: Seq<char>,
    nothing_text: Seq<char>,
) -> bool {
    &&& v.message@ == (if is_nothing {
        "Consistency violation: "@ + inst + " has effective type "@ + OWL_NOTHING@ + " ("@ + nothing_text + ")"@
    } else {
        "Consistency violation: "@ + inst + " has effective type "@ + class + " ("@ + text + "), and "@ + class
            + " closes to "@ + OWL_NOTHING@
    })
    &&& v.violated_constraint@ == "owl:Nothing"@
    &&& v.focus_resource@ == inst
    &&& v.left_type@ == class
    &&& v.right_type@ == OWL_NOTHING@
    &&& v.left_origin@ == text
    &&& v.right_origin@ == nothing_text
    &&& nothing_blame(v.blame, class, origin, text, nothing_text)
    &&& v.evidence@.len() == 2
    &&& evidence_is(v.evidence@[0], "conflicting-type"@, inst, RDF_TYPE@, class, text)
    &&& evidence_is(v.evidence@[1], "conflicting-type"@, inst, RDF_TYPE@, OWL_NOTHING@, nothing_text)
}

/// The violation of an instance typed with an unsatisfiable class.
fn build_nothing_violation(
    instance: &str,
    class: &str,
    is_nothing: bool,
    origin: &EffectiveTypeOrigin,
    text: String,
    nothing_text: String,
) -> (r: ConsistencyViolation)
    ensures
        nothing_violation(r, instance@, class@, is_nothing, *origin, text@, nothing_text@),
{
    let mut message = "Consistency violation: ".to_owned();
    message.append(instance);
    message.append(" has effective type ");
    if is_nothing {
        message.append(OWL_NOTHING);
        message.append(" (");
        message.append(nothing_text.as_str());
        message.append(")");
    } else {
        message.append(class);
        message.append(" (");
        message.append(text.as_str());
        message.append("), and ");
        message.append(class);
        message.append(" closes to ");
        message.append(OWL_NOTHING);
    }
    let blame = build_nothing_blame(class, origin, text.as_str(), nothing_text.as_str());
    let evidence = vec![
        type_assertion_evidence("conflicting-type", instance, class, text.clone()),
        type_assertion_evidence("conflicting-type", instance, OWL_NOTHING, nothing_text.clone()),
    ];
    ConsistencyViolation {
        message,
        violated_constraint: "owl:Nothing".to_owned(),
        focus_resource: instance.to_owned(),
        left_type: class.to_owned(),
        right_type: OWL_NOTHING.to_owned(),
        left_origin: text,
        right_origin: nothing_text,
        blame,
        evidence,
    }
}

/// The pairs `(instance, supporting class)` of the instances that have an
/// unsatisfiable class and `owl:Nothing`, whose terms and origins resolve
/// in `terms`.
pub open spec fn nothing_conflicts(
    types: Map<u32, Map<u32, EffectiveTypeOrigin>>,
    unsat: Set<u32>,
    nothing: u32,
    terms: Seq<Seq<char>>,
) -> Set<(u32, u32)> {
    Set::new(
        |p: (u32, u32)|
            {
                &&& types.contains_key(p.0)
                &&& supporting_class(types[p.0], unsat, p.1)
                &&& types[p.0].contains_key(nothing)
                &&& p.0 < terms.len()
                &&& p.1 < terms.len()
                &&& origin_text(terms, types[p.0][p.1]) is Some
                &&& origin_text(terms, types[p.0][nothing]) is Some
            },
    )
}

/// `v` reports the pair `(instance, supporting class)`.
pub open spec fn reports_nothing(
    types: Map<u32, Map<u32, EffectiveTypeOrigin>>,
    nothing: u32,
    terms: Seq<Seq<char>>,
) -> spec_fn(ConsistencyViolation, (u32, u32)) -> bool {
    |v: ConsistencyViolation, p: (u32, u32)|
        nothing_violation(
            v,
            terms[p.0 as int],
            terms[p.1 as int],
            p.1 == nothing,
            types[p.0][p.1],
            origin_text(terms, types[p.0][p.1])->0,
            origin_text(terms, types[p.0][nothing])->0,
        )
}

/// `r` reports each conflict of `nothing_conflicts` once: there is a list of
/// the conflicts, each instance in it once, that `r` reports one by one.
pub open spec fn nothing_reported(
    r: Seq<ConsistencyViolation>,
    types: Map<u32, Map<u32, EffectiveTypeOrigin>>,
    unsat: Set<u32>,
    nothing: u32,
    terms: Seq<Seq<char>>,
) -> bool {
    exists|cs: Seq<(u32, u32)>|
        #[trigger] distinct_instances(cs) && cs.to_set() == nothing_conflicts(types, unsat, nothing, terms)
            && reported_in_order(r, cs, reports_nothing(types, nothing, terms))
}

/// No instance occurs twice in `cs`.
pub open spec fn distinct_instances(cs: Seq<(u32, u32)>) -> bool {
    forall|a: int, b: int| 0 <= a < b < cs.len() ==> (#[trigger] cs[a]).0 != (#[trigger] cs[b]).0
}

/// The position in `m` of its supporting class, if it has an unsatisfiable
/// class.
fn find_supporting(m: &OriginMap<EffectiveTypeOrigin>, unsat: &IdSet) -> (r: Option<usize>)
    requires
        m.wf(),
    ensures
        r matches Some(j) ==> j < m.key_seq().len() && supporting_class(m@, unsat@, m.key_seq()[j as int]),
        r is None ==> forall|c: u32| #[trigger] m@.contains_key(c) ==> !unsat@.contains(c),
{
    let keys = m.keys();
    let n = keys.len();
    let mut best: Option<usize> = None;
    let mut best_rank: u8 = 0;
    let mut j: usize = 0;
    while j < n
        invariant
            m.wf(),
            n == keys@.len(),
            keys@ == m.key_seq(),
            keys@.to_set() == m@.dom(),
            n == m.value_seq().len(),
            j <= n,
            best matches Some(b) ==> b < j && unsat@.contains(keys@[b as int]) && best_rank == rank_in(m@, keys@[b as int])
                && forall|k: int| 0 <= k < j && unsat@.contains(#[trigger] keys@[k]) ==> class_key_le(m@, keys@[b as int], keys@[k]),
            best is None ==> forall|k: int| 0 <= k < j ==> !unsat@.contains(#[trigger] keys@[k]),
        decreases n - j,
    {
        let c = keys[j];
        if unsat.contains(c) {
            let rank = effective_origin_rank(m.value_at(j));
            let better = match best {
                Some(b) => rank < best_rank || (rank == best_rank && c < keys[b]),
                None => true,
            };
            if better {
                best = Some(j);
                best_rank = rank;
            }
        }
        j += 1;
    }
    proof {
        assert forall|c: u32| #[trigger] m@.contains_key(c) implies exists|k: int| 0 <= k < n && keys@[k] == c by {
            assert(keys@.to_set().contains(c));
        }
    }
    best
}

/// Reports each instance that has an unsatisfiable class, and so
/// `owl:Nothing`, through its supporting class.
pub fn detect_nothing_type_conflicts(
    index: &IndexedDataset,
    effective_types: &EffectiveTypeSet,
    prepared: &PreparedClassConsistency,
) -> (r: Vec<ConsistencyViolation>)
    ensures
        nothing_reported(r@, effective_types@, prepared.unsatisfiable(), prepared.nothing(), index.terms()),
{
    let instances = effective_types.instances();
    let unsat = prepared.unsatisfiable_classes();
    let nothing = prepared.owl_nothing_id();
    let ghost types = effective_types@;
    let ghost terms = index.terms();
    let ghost all = nothing_conflicts(types, unsat@, nothing, terms);
    let ghost rel = reports_nothing(types, nothing, terms);
    let mut violations: Vec<ConsistencyViolation> = Vec::new();
    let ghost mut cands: Set<(u32, u32)> = Set::empty();
    let ghost mut cs: Seq<(u32, u32)> = Seq::empty();
    let n = instances.len();
    let mut i: usize = 0;
    while i < n
        invariant
            n == instances@.len(),
            instances@.no_duplicates(),
            instances@.to_set() == types.dom(),
            types == effective_types@,
            terms == index.terms(),
            unsat@ == prepared.unsatisfiable(),
            nothing == prepared.nothing(),
            all == nothing_conflicts(types, unsat@, nothing, terms),
            rel == reports_nothing(types, nothing, terms),
            i <= n,
            cands == all.filter(|p: (u32, u32)| instances@.take(i as int).contains(p.0)),
            reported_in_order(violations@, cs, rel),
            cs.to_set() == cands,
            distinct_instances(cs),
            forall|k: int| 0 <= k < cs.len() ==> instances@.take(i as int).contains(#[trigger] cs[k].0),
        decreases n - i,
    {
        let x = instances[i];
        let ghost before = cands;
        proof {
            crate::idset::lemma_take_succ_to_set(instances@, i as int);
            assert(instances@.to_set().contains(x));
        }
        match effective_types.classes_for(x) {
            Some(m) => {
                match find_supporting(m, unsat) {
                    Some(j) => {
                        let s = m.keys()[j];
                        let supporting_origin = m.value_at(j);
                        match m.get(nothing) {
                            Some(nothing_origin) => {
                                match (resolve_text(index, x), resolve_text(index, s)) {
                                    (Some(instance), Some(class)) => {
                                        match (
                                            EffectiveTypeSet::describe_origin(index, supporting_origin),
                                            EffectiveTypeSet::describe_origin(index, nothing_origin),
                                        ) {
                                            (Some(text), Some(nothing_text)) => {
                                                let v = build_nothing_violation(
                                                    instance,
                                                    class,
                                                    s == nothing,
                                                    supporting_origin,
                                                    text,
                                                    nothing_text,
                                                );
                                                proof {
                                                    assert(all.contains((x, s)));
                                                    assert(rel(v, (x, s)));
                                                    lemma_in_order_push(violations@, cs, rel, v, (x, s));
                                                    assert(!instances@.take(i as int).contains(x)) by {
                                                        if instances@.take(i as int).contains(x) {
                                                            let k = choose|k: int| 0 <= k < i && instances@.take(i as int)[k] == x;
                                                            assert(instances@[k] == instances@[i as int]);
                                                        }
                                                    }
                                                    let ghost old_cs = cs;
                                                    cs = cs.push((x, s));
                                                    assert(cs.to_set() =~= old_cs.to_set().insert((x, s))) by {
                                                        assert forall|q: (u32, u32)| cs.to_set().contains(q) <==> old_cs.to_set().insert((x, s)).contains(q) by {
                                                            if cs.to_set().contains(q) {
                                                                let k = choose|k: int| 0 <= k < cs.len() && cs[k] == q;
                                                                if k < old_cs.len() {
                                                                    assert(old_cs[k] == q);
                                                                }
                                                            }
                                                            if old_cs.to_set().contains(q) && q != (x, s) {
                                                                let k = choose|k: int| 0 <= k < old_cs.len() && old_cs[k] == q;
                                                                assert(cs[k] == q);
                                                            }
                                                            if q == (x, s) {
                                                                assert(cs[old_cs.len() as int] == q);
                                                            }
                                                        }
                                                    }
                                                    assert forall|a: int, b: int| 0 <= a < b < cs.len() implies (#[trigger] cs[a]).0 != (#[trigger] cs[b]).0 by {
                                                        if b == old_cs.len() {
                                                            assert(instances@.take(i as int).contains(old_cs[a].0));
                                                        } else {
                                                            assert(cs[a] == old_cs[a] && cs[b] == old_cs[b]);
                                                        }
                                                    }
                                                    cands = cands.insert((x, s));
                                                }
                                                violations.push(v);
                                            },
                                            _ => {},
                                        }
                                    },
                                    _ => {},
                                }
                            },
                            None => {},
                        }
                        proof {
                            assert forall|p: (u32, u32)| #[trigger] all.contains(p) && p.0 == x implies p.1 == s by {
                                lemma_supporting_unique(types[x], unsat@, p.1, s);
                            }
                        }
                    },
                    None => {},
                }
            },
            None => {},
        }
        proof {
            assert forall|p: (u32, u32)| instances@.take(i + 1).contains(p.0) <==> (instances@.take(i as int).contains(p.0) || p.0 == x) by {
                assert(instances@.take(i + 1).to_set() == instances@.take(i as int).to_set().insert(x));
                assert(instances@.take(i + 1).contains(p.0) <==> instances@.take(i + 1).to_set().contains(p.0));
                assert(instances@.take(i as int).contains(p.0) <==> instances@.take(i as int).to_set().contains(p.0));
            }
            assert(!instances@.take(i as int).contains(x)) by {
                if instances@.take(i as int).contains(x) {
                    let k = choose|k: int| 0 <= k < i && instances@.take(i as int)[k] == x;
                    assert(instances@[k] == instances@[i as int]);
                }
            }
            assert(cands =~= all.filter(|p: (u32, u32)| instances@.take(i + 1).contains(p.0)));
            assert forall|k: int| 0 <= k < cs.len() implies instances@.take(i + 1).contains(#[trigger] cs[k].0) by {
                if cs[k].0 != x {
                    assert(instances@.take(i as int).contains(cs[k].0));
                }
            }
        }
        i += 1;
    }
    proof {
        assert(instances@.take(n as int) =~= instances@);
        assert forall|p: (u32, u32)| all.contains(p) implies instances@.contains(p.0) by {
            assert(instances@.to_set().contains(p.0));
        }
        assert(cands =~= all);
        assert(distinct_instances(cs));
    }
    violations
}


/// The triples that `x`, with classes `dom`, has from its class `c` and
/// the classes `tg` declared disjoint with `c`: each as `(x, lower id,
/// higher id)`.
pub open spec fn class_pairs(x: u32, c: u32, tg: Set<u32>, dom: Set<u32>) -> Set<(u32, u32, u32)> {
    Set::new(
        |t: (u32, u32, u32)|
            t.0 == x && ((t.1 == c && c <= t.2 && tg.contains(t.2) && dom.contains(t.2)) || (t.2 == c && t.1
                < c && tg.contains(t.1) && dom.contains(t.1))),
    )
}

/// Adds to `found` the triples of `x` from its class `c` and the classes
/// `targets` declared disjoint with it.
fn add_class_pairs(
    found: &mut Vec<(u32, u32, u32)>,
    x: u32,
    c: u32,
    targets: &[u32],
    m: &OriginMap<EffectiveTypeOrigin>,
)
    requires
        m.wf(),
        triples_sorted(old(found)@),
    ensures
        triples_sorted(final(found)@),
        final(found)@.to_set() == old(found)@.to_set().union(class_pairs(x, c, targets@.to_set(), m@.dom())),
{
    let ghost start = found@.to_set();
    let n = targets.len();
    let mut k: usize = 0;
    while k < n
        invariant
            m.wf(),
            n == targets@.len(),
            k <= n,
            triples_sorted(found@),
            found@.to_set() == start.union(class_pairs(x, c, targets@.take(k as int).to_set(), m@.dom())),
        decreases n - k,
    {
        let o = targets[k];
        let ghost before = found@.to_set();
        let present = match m.get(o) {
            Some(_) => true,
            None => false,
        };
        if present {
            let t = if c <= o { (x, c, o) } else { (x, o, c) };
            sorted_triple_insert(found, t);
        }
        proof {
            crate::idset::lemma_take_succ_to_set(targets@, k as int);
            let old_tg = targets@.take(k as int).to_set();
            let new_tg = targets@.take(k + 1).to_set();
            assert(new_tg == old_tg.insert(o));
            assert(found@.to_set() =~= start.union(class_pairs(x, c, new_tg, m@.dom())));
        }
        k += 1;
    }
    proof {
        assert(targets@.take(n as int) =~= targets@);
    }
}

/// The triples `(instance, left, right)`, `left <= right`, of the
/// instances with two effective classes declared disjoint in `dis`, one
/// way or the other.
pub open spec fn disjoint_type_pairs(
    types: Map<u32, Map<u32, EffectiveTypeOrigin>>,
    dis: Map<u32, Set<u32>>,
) -> Set<(u32, u32, u32)> {
    Set::new(
        |t: (u32, u32, u32)|
            {
                &&& has_class(types, t.0, t.1)
                &&& has_class(types, t.0, t.2)
                &&& t.1 <= t.2
                &&& (successors(dis, t.1).contains(t.2) || successors(dis, t.2).contains(t.1))
            },
    )
}

/// The triples of `disjoint_type_pairs` whose terms and origins resolve in
/// `terms`.
pub open spec fn disjoint_conflicts(
    types: Map<u32, Map<u32, EffectiveTypeOrigin>>,
    dis: Map<u32, Set<u32>>,
    terms: Seq<Seq<char>>,
) -> Set<(u32, u32, u32)> {
    disjoint_type_pairs(types, dis).filter(
        |t: (u32, u32, u32)|
            t.0 < terms.len() && t.1 < terms.len() && t.2 < terms.len() && origin_text(terms, types[t.0][t.1]) is Some
                && origin_text(terms, types[t.0][t.2]) is Some,
    )
}

/// The sorted triples of `x`: those of `disjoint_type_pairs` about `x`.
proof fn lemma_instance_pairs(
    types: Map<u32, Map<u32, EffectiveTypeOrigin>>,
    dis: Map<u32, Set<u32>>,
    x: u32,
    keys: Seq<u32>,
)
    requires
        types.contains_key(x),
        keys.to_set() == types[x].dom(),
    ensures
        disjoint_type_pairs(types, dis).filter(|t: (u32, u32, u32)| t.0 == x) == Set::new(
            |t: (u32, u32, u32)|
                exists|j: int| 0 <= j < keys.len() && #[trigger] class_pairs(x, keys[j], successors(dis, keys[j]), types[x].dom()).contains(t),
        ),
{
    let lhs = disjoint_type_pairs(types, dis).filter(|t: (u32, u32, u32)| t.0 == x);
    let rhs = Set::new(
        |t: (u32, u32, u32)|
            exists|j: int| 0 <= j < keys.len() && #[trigger] class_pairs(x, keys[j], successors(dis, keys[j]), types[x].dom()).contains(t),
    );
    let dom = types[x].dom();
    assert forall|t: (u32, u32, u32)| lhs.contains(t) implies rhs.contains(t) by {
        let c = if successors(dis, t.1).contains(t.2) { t.1 } else { t.2 };
        assert(keys.to_set().contains(c));
        let j = choose|j: int| 0 <= j < keys.len() && keys[j] == c;
        assert(class_pairs(x, keys[j], successors(dis, keys[j]), dom).contains(t));
    }
    assert forall|t: (u32, u32, u32)| rhs.contains(t) implies lhs.contains(t) by {
        let j = choose|j: int| 0 <= j < keys.len() && #[trigger] class_pairs(x, keys[j], successors(dis, keys[j]), dom).contains(t);
        assert(keys.to_set().contains(keys[j]));
    }
    assert(lhs =~= rhs);
}


/// `v` reports that the instance `inst` has the disjoint effective classes
/// `left` and `right`, with origins `lo` and `ro` described `lt` and `rt`.
pub open spec fn disjoint_violation(
    v: ConsistencyViolation,
    inst: Seq<char>,
    left: Seq<char>,
    right: Seq<char>,
    lo: EffectiveTypeOrigin,
    ro: EffectiveTypeOrigin,
    lt: Seq<char>,
    rt: Seq<char>,
) -> bool {
    &&& v.message@ == "Consistency violation: "@ + inst + " has disjoint effective types "@ + left + " ("@ + lt
        + ") and "@ + right + " ("@ + rt + ") via owl:disjointWith"@
    &&& v.violated_constraint@ == "owl:disjointWith"@
    &&& v.focus_resource@ == inst
    &&& v.left_type@ == left
    &&& v.right_type@ == right
    &&& v.left_origin@ == lt
    &&& v.right_origin@ == rt
    &&& disjoint_blame(v.blame, left, lo, lt, right, ro, rt)
    &&& v.evidence@.len() == 3
    &&& evidence_is(v.evidence@[0], "constraint-axiom"@, left, OWL_DISJOINT_WITH@, right, "asserted disjointness axiom"@)
    &&& evidence_is(v.evidence@[1], "conflicting-type"@, inst, RDF_TYPE@, left, lt)
    &&& evidence_is(v.evidence@[2], "conflicting-type"@, inst, RDF_TYPE@, right, rt)
}

/// The violation of an instance typed with two disjoint classes.
fn build_disjoint_violation(
    instance: &str,
    left: &str,
    right: &str,
    left_origin: &EffectiveTypeOrigin,
    right_origin: &EffectiveTypeOrigin,
    left_text: String,
    right_text: String,
) -> (r: ConsistencyViolation)
    ensures
        disjoint_violation(r, instance@, left@, right@, *left_origin, *right_origin, left_text@, right_text@),
{
    let mut message = "Consistency violation: ".to_owned();
    message.append(instance);
    message.append(" has disjoint effective types ");
    message.append(left);
    message.append(" (");
    message.append(left_text.as_str());
    message.append(") and ");
    message.append(right);
    message.append(" (");
    message.append(right_text.as_str());
    message.append(") via owl:disjointWith");
    let blame = build_disjoint_blame(left, left_origin, left_text.as_str(), right, right_origin, right_text.as_str());
    let evidence = vec![
        assertion_evidence(
            "constraint-axiom",
            left,
            OWL_DISJOINT_WITH,
            right,
            "asserted disjointness axiom".to_owned(),
        ),
        type_assertion_evidence("conflicting-type", instance, left, left_text.clone()),
        type_assertion_evidence("conflicting-type", instance, right, right_text.clone()),
    ];
    ConsistencyViolation {
        message,
        violated_constraint: "owl:disjointWith".to_owned(),
        focus_resource: instance.to_owned(),
        left_type: left.to_owned(),
        right_type: right.to_owned(),
        left_origin: left_text,
        right_origin: right_text,
        blame,
        evidence,
    }
}

/// `v` reports the triple `(instance, left, right)`.
pub open spec fn reports_disjoint(
    types: Map<u32, Map<u32, EffectiveTypeOrigin>>,
    terms: Seq<Seq<char>>,
) -> spec_fn(ConsistencyViolation, (u32, u32, u32)) -> bool {
    |v: ConsistencyViolation, t: (u32, u32, u32)|
        disjoint_violation(
            v,
            terms[t.0 as int],
            terms[t.1 as int],
            terms[t.2 as int],
            types[t.0][t.1],
            types[t.0][t.2],
            origin_text(terms, types[t.0][t.1])->0,
            origin_text(terms, types[t.0][t.2])->0,
        )
}

/// `r` reports the conflicts of `disjoint_conflicts` one violation each, in
/// the order of their triples.
pub open spec fn disjoint_reported(
    r: Seq<ConsistencyViolation>,
    types: Map<u32, Map<u32, EffectiveTypeOrigin>>,
    dis: Map<u32, Set<u32>>,
    terms: Seq<Seq<char>>,
) -> bool {
    exists|cs: Seq<(u32, u32, u32)>|
        #[trigger] triples_sorted(cs) && cs.to_set() == disjoint_conflicts(types, dis, terms) && reported_in_order(
            r,
            cs,
            reports_disjoint(types, terms),
        )
}

/// Reports each instance with two effective classes declared disjoint,
/// once per pair of classes, in the order of `(instance, left, right)`.
pub fn detect_disjoint_type_conflicts(
    index: &IndexedDataset,
    effective_types: &EffectiveTypeSet,
    prepared: &PreparedClassConsistency,
) -> (r: Vec<ConsistencyViolation>)
    ensures
        disjoint_reported(r@, effective_types@, prepared.disjoint(), index.terms()),
{
    let instances = effective_types.instances();
    let ghost types = effective_types@;
    let ghost dis = prepared.disjoint();
    let ghost terms = index.terms();
    let ghost pairs = disjoint_type_pairs(types, dis);
    let mut found: Vec<(u32, u32, u32)> = Vec::new();
    let n = instances.len();
    let mut i: usize = 0;
    while i < n
        invariant
            n == instances@.len(),
            instances@.no_duplicates(),
            instances@.to_set() == types.dom(),
            types == effective_types@,
            dis == prepared.disjoint(),
            pairs == disjoint_type_pairs(types, dis),
            i <= n,
            triples_sorted(found@),
            found@.to_set() == pairs.filter(|t: (u32, u32, u32)| instances@.take(i as int).contains(t.0)),
        decreases n - i,
    {
        let x = instances[i];
        let ghost before = found@.to_set();
        proof {
            crate::idset::lemma_take_succ_to_set(instances@, i as int);
            assert(instances@.to_set().contains(x));
        }
        match effective_types.classes_for(x) {
            Some(m) => {
                let keys = m.keys();
                let k = keys.len();
                let mut j: usize = 0;
                while j < k
                    invariant
                        m.wf(),
                        m@ == types[x],
                        k == keys@.len(),
                        keys@.to_set() == m@.dom(),
                        dis == prepared.disjoint(),
                        j <= k,
                        triples_sorted(found@),
                        found@.to_set() == before.union(
                            Set::new(
                                |t: (u32, u32, u32)|
                                    exists|jj: int|
                                        0 <= jj < j && #[trigger] class_pairs(
                                            x,
                                            keys@[jj],
                                            successors(dis, keys@[jj]),
                                            m@.dom(),
                                        ).contains(t),
                            ),
                        ),
                    decreases k - j,
                {
                    let c = keys[j];
                    let ghost mid = found@.to_set();
                    match prepared.effective_disjoint_targets(c) {
                        Some(targets) => {
                            add_class_pairs(&mut found, x, c, targets.as_slice(), m);
                        },
                        None => {
                            assert(class_pairs(x, c, successors(dis, c), m@.dom()) =~= Set::empty());
                        },
                    }
                    proof {
                        assert(found@.to_set() == mid.union(class_pairs(x, c, successors(dis, c), m@.dom())));
                        assert(found@.to_set() =~= before.union(
                            Set::new(
                                |t: (u32, u32, u32)|
                                    exists|jj: int|
                                        0 <= jj < j + 1 && #[trigger] class_pairs(
                                            x,
                                            keys@[jj],
                                            successors(dis, keys@[jj]),
                                            m@.dom(),
                                        ).contains(t),
                            ),
                        ));
                    }
                    j += 1;
                }
                proof {
                    lemma_instance_pairs(types, dis, x, keys@);
                }
            },
            None => {},
        }
        proof {
            assert forall|y: u32| instances@.take(i + 1).contains(y) <==> (instances@.take(i as int).contains(y) || y == x) by {
                assert(instances@.take(i + 1).to_set() == instances@.take(i as int).to_set().insert(x));
                assert(instances@.take(i + 1).contains(y) <==> instances@.take(i + 1).to_set().contains(y));
                assert(instances@.take(i as int).contains(y) <==> instances@.take(i as int).to_set().contains(y));
            }
            assert(found@.to_set() =~= pairs.filter(|t: (u32, u32, u32)| instances@.take(i + 1).contains(t.0)));
        }
        i += 1;
    }
    proof {
        assert(instances@.take(n as int) =~= instances@);
        assert forall|t: (u32, u32, u32)| pairs.contains(t) implies instances@.contains(t.0) by {
            assert(instances@.to_set().contains(t.0));
        }
        assert(found@.to_set() =~= pairs);
    }
    let ghost conflicts = disjoint_conflicts(types, dis, terms);
    let ghost rel = reports_disjoint(types, terms);
    let mut violations: Vec<ConsistencyViolation> = Vec::new();
    let ghost mut cs: Seq<(u32, u32, u32)> = Seq::empty();
    let total = found.len();
    let mut q: usize = 0;
    while q < total
        invariant
            total == found@.len(),
            triples_sorted(found@),
            found@.to_set() == pairs,
            pairs == disjoint_type_pairs(types, dis),
            conflicts == disjoint_conflicts(types, dis, terms),
            rel == reports_disjoint(types, terms),
            types == effective_types@,
            terms == index.terms(),
            q <= total,
            triples_sorted(cs),
            forall|a: int| #![trigger cs[a]] 0 <= a < cs.len() ==> exists|b: int| 0 <= b < q && #[trigger] found@[b] == cs[a],
            cs.to_set() == conflicts.intersect(found@.take(q as int).to_set()),
            reported_in_order(violations@, cs, rel),
        decreases total - q,
    {
        let t = found[q];
        let (x, left_id, right_id) = t;
        proof {
            crate::idset::lemma_take_succ_to_set(found@, q as int);
            assert(found@.to_set().contains(t));
        }
        let mut added = false;
        let ghost cs_before = cs;
        match (resolve_text(index, x), resolve_text(index, left_id), resolve_text(index, right_id)) {
            (Some(instance), Some(left), Some(right)) => {
                match effective_types.classes_for(x) {
                    Some(m) => {
                        match (m.get(left_id), m.get(right_id)) {
                            (Some(lo), Some(ro)) => {
                                match (
                                    EffectiveTypeSet::describe_origin(index, lo),
                                    EffectiveTypeSet::describe_origin(index, ro),
                                ) {
                                    (Some(lt), Some(rt)) => {
                                        let v = build_disjoint_violation(instance, left, right, lo, ro, lt, rt);
                                        proof {
                                            assert(rel(v, t));
                                            let old_cs = cs;
                                            cs = cs.push(t);
                                            assert forall|a: int| #![trigger cs[a]] 0 <= a < cs.len() implies exists|b: int| 0 <= b < q + 1 && #[trigger] found@[b] == cs[a] by {
                                                if a < old_cs.len() {
                                                    let b = choose|b: int| 0 <= b < q && #[trigger] found@[b] == old_cs[a];
                                                    assert(found@[b] == cs[a]);
                                                } else {
                                                    assert(found@[q as int] == cs[a]);
                                                }
                                            }
                                            assert forall|a: int, b: int| 0 <= a < b < cs.len() implies triple_lt(#[trigger] cs[a], #[trigger] cs[b]) by {
                                                if b == old_cs.len() {
                                                    let e = choose|e: int| 0 <= e < q && #[trigger] found@[e] == old_cs[a];
                                                    assert(triple_lt(found@[e], found@[q as int]));
                                                } else {
                                                    assert(triple_lt(old_cs[a], old_cs[b]));
                                                }
                                            }
                                            assert forall|k: int| 0 <= k < cs.len() implies #[trigger] rel(violations@.push(v)[k], cs[k]) by {
                                                if k < old_cs.len() {
                                                    assert(rel(violations@[k], old_cs[k]));
                                                }
                                            }
                                        }
                                        violations.push(v);
                                        added = true;
                                    },
                                    _ => {},
                                }
                            },
                            _ => {},
                        }
                    },
                    None => {},
                }
            },
            _ => {},
        }
        proof {
            let old_set = found@.take(q as int).to_set();
            let new_set = found@.take(q + 1).to_set();
            assert(new_set == old_set.insert(t));
            if added {
                assert(conflicts.contains(t));
            } else {
                assert(!conflicts.contains(t));
            }
            if added {
                assert(cs == cs_before.push(t));
                assert forall|y: (u32, u32, u32)| #[trigger] cs.contains(y) <==> (cs_before.contains(y) || y == t) by {
                    if cs.contains(y) {
                        let k = choose|k: int| 0 <= k < cs.len() && cs[k] == y;
                        if k < cs_before.len() {
                            assert(cs_before[k] == y);
                        }
                    }
                    if cs_before.contains(y) {
                        let k = choose|k: int| 0 <= k < cs_before.len() && cs_before[k] == y;
                        assert(cs[k] == y);
                    }
                    if y == t {
                        assert(cs[cs_before.len() as int] == y);
                    }
                }
                assert(cs.to_set() =~= cs_before.to_set().insert(t));
            } else {
                assert(cs == cs_before);
            }
            assert(cs.to_set() =~= conflicts.intersect(new_set));
        }
        q += 1;
    }
    proof {
        assert(found@.take(total as int) =~= found@);
        assert(cs.to_set() =~= conflicts);
    }
    violations
}


/// Reports the instances that have `owl:Nothing` through an unsatisfiable
/// class, then, in the order of their triples, the instances with two
/// effective classes declared disjoint.
pub fn detect_class_consistency_conflicts(
    index: &IndexedDataset,
    effective_types: &EffectiveTypeSet,
    prepared: &PreparedClassConsistency,
) -> (r: Vec<ConsistencyViolation>)
    ensures
        exists|a: int|
            #![trigger r@.take(a)]
            0 <= a <= r@.len() && nothing_reported(
                r@.take(a),
                effective_types@,
                prepared.unsatisfiable(),
                prepared.nothing(),
                index.terms(),
            ) && disjoint_reported(r@.skip(a), effective_types@, prepared.disjoint(), index.terms()),
{
    let mut conflicts = detect_nothing_type_conflicts(index, effective_types, prepared);
    let ghost first = conflicts@;
    let mut disjoint = detect_disjoint_type_conflicts(index, effective_types, prepared);
    let ghost second = disjoint@;
    conflicts.append(&mut disjoint);
    proof {
        let a = first.len() as int;
        assert(conflicts@.take(a) =~= first);
        assert(conflicts@.skip(a) =~= second);
    }
    conflicts
}

/// The text of id `id`.
fn resolve_text<'a>(index: &'a IndexedDataset, id: u32) -> (r: Option<&'a str>)
    ensures
        r is Some <==> id < index.terms().len(),
        r matches Some(t) ==> t@ == index.terms()[id as int],
{
    index.symbols().resolve(id)
}

} // verus!
