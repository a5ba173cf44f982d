use vstd::prelude::*;

use crate::closure_index::PropertyTaxonomyIndex;
use crate::dataset_index::spec::same_as_seq;
use crate::dataset_index::IndexedDataset;
use crate::identity::equality::{
    equivalent, is_least, is_member, related, EqualityIndex,
};
use crate::idset::IdSet;
use crate::pairs::{PairSet, PairSetMap};
use crate::policy::{FeatureMode, RulesMvpFeaturePolicy};
use crate::property_chain::PropertyChainPlan;
use crate::property_closure::rules::{closure, lemma_pairs_over_finite, pairs_over, triples_over, Triple};
use crate::property_closure::{closure_inputs, closure_universe, universe_is_finite, PropertyClosure};
use crate::property_consistency::plan::PropertyCharacteristicPlan;
use crate::property_consistency::prepared::{
    constrained_assertions, object_of, property_object, property_subject, subject_of,
    PreparedPropertyAssertions,
};
use crate::relation::index_by;

verus! {

/// The `owl:sameAs` pairs that a group of resources that must be equal
/// implies: its least member with each member not yet equivalent to it
/// under `eq`.
pub open spec fn implied_pairs(g: Set<u32>, eq: Set<(u32, u32)>) -> Set<(u32, u32)> {
    Set::new(|p: (u32, u32)| is_least(g, p.0) && g.contains(p.1) && !equivalent(eq, p.0, p.1))
}

/// `p` is implied by one of the groups of `m` filed under a property of
/// `props`.
pub open spec fn group_implies(
    m: Map<(u32, u32), Set<u32>>,
    props: Set<u32>,
    eq: Set<(u32, u32)>,
    p: (u32, u32),
) -> bool {
    exists|k: (u32, u32)| #[trigger] m.contains_key(k) && props.contains(k.0) && implied_pairs(m[k], eq).contains(p)
}

/// The `owl:sameAs` pairs that the assertions `filed` imply under `eq`:
/// the objects of a functional property for one subject must be equal,
/// and so must the subjects of an inverse functional property for one
/// object.
pub open spec fn derived_same_as(
    functional: Set<u32>,
    inverse_functional: Set<u32>,
    filed: Set<Triple>,
    eq: Set<(u32, u32)>,
) -> Set<(u32, u32)> {
    Set::new(
        |p: (u32, u32)|
            group_implies(index_by(filed, property_subject(), object_of()), functional, eq, p) || group_implies(
                index_by(filed, property_object(), subject_of()),
                inverse_functional,
                eq,
                p,
            ),
    )
}

/// A group with fewer than two members implies nothing.
proof fn lemma_small_group_implies_nothing(g: Set<u32>, eq: Set<(u32, u32)>)
    requires
        g.finite(),
        g.len() < 2,
    ensures
        implied_pairs(g, eq) == Set::<(u32, u32)>::empty(),
{
    assert forall|p: (u32, u32)| !implied_pairs(g, eq).contains(p) by {
        if implied_pairs(g, eq).contains(p) && p.0 != p.1 {
            vstd::set_lib::lemma_len_subset(Set::<u32>::empty().insert(p.0).insert(p.1), g);
        }
    }
    assert(implied_pairs(g, eq) =~= Set::<(u32, u32)>::empty());
}

/// Adds the pairs that `members`, which must all be equal, imply.
fn collect_implied_pairs(members: &IdSet, equality: &EqualityIndex, inferred: &mut PairSet)
    ensures
        final(inferred)@ == old(inferred)@.union(implied_pairs(members@, equality.pairs())),
{
    let ghost eq = equality.pairs();
    let ghost start = inferred@;
    let anchor = match members.first() {
        Some(a) => a,
        None => {
            assert(implied_pairs(members@, eq) =~= Set::<(u32, u32)>::empty());
            assert(start.union(Set::<(u32, u32)>::empty()) =~= start);
            return ;
        },
    };
    let items = members.as_slice();
    let n = items.len();
    proof {
        assert(items@[0] == anchor);
    }
    let mut j: usize = 1;
    proof {
        assert forall|p: (u32, u32)| !(p.0 == anchor && items@.take(1).contains(p.1) && !equivalent(eq, anchor, p.1)) by {
            if items@.take(1).contains(p.1) {
                assert(items@.take(1)[0] == anchor);
            }
        }
        assert(inferred@ =~= start.union(
            Set::new(|p: (u32, u32)| p.0 == anchor && items@.take(1).contains(p.1) && !equivalent(eq, anchor, p.1)),
        ));
    }
    while j < n
        invariant
            n == items@.len(),
            1 <= j <= n,
            eq == equality.pairs(),
            inferred@ == start.union(
                Set::new(|p: (u32, u32)| p.0 == anchor && items@.take(j as int).contains(p.1) && !equivalent(eq, anchor, p.1)),
            ),
        decreases n - j,
    {
        let m = items[j];
        if !equality.are_equivalent(anchor, m) {
            inferred.insert((anchor, m));
        }
        proof {
            crate::idset::lemma_take_succ_to_set(items@, j as int);
            assert forall|y: u32| items@.take(j + 1).contains(y) <==> (items@.take(j as int).contains(y) || y == m) by {
                assert(items@.take(j + 1).contains(y) <==> items@.take(j + 1).to_set().contains(y));
                assert(items@.take(j as int).contains(y) <==> items@.take(j as int).to_set().contains(y));
            }
            assert(inferred@ =~= start.union(
                Set::new(|p: (u32, u32)| p.0 == anchor && items@.take(j + 1).contains(p.1) && !equivalent(eq, anchor, p.1)),
            ));
        }
        j += 1;
    }
    proof {
        assert(items@.take(n as int) =~= items@);
        assert forall|p: (u32, u32)| implied_pairs(members@, eq).contains(p) <==> (p.0 == anchor && items@.contains(p.1) && !equivalent(eq, anchor, p.1)) by {
            assert(items@.contains(p.1) <==> items@.to_set().contains(p.1));
            if is_least(members@, p.0) {
                assert(p.0 <= anchor && anchor <= p.0);
            }
        }
        assert(inferred@ =~= start.union(implied_pairs(members@, eq)));
    }
}

/// Adds the pairs that the groups of `m` filed under a property of `props`
/// imply.
fn collect_group_pairs(m: &PairSetMap, props: &IdSet, equality: &EqualityIndex, inferred: &mut PairSet)
    ensures
        final(inferred)@ == old(inferred)@.union(
            Set::new(|p: (u32, u32)| group_implies(m@, props@, equality.pairs(), p)),
        ),
{
    let ghost eq = equality.pairs();
    let ghost start = inferred@;
    let keys = m.keys();
    let n = keys.len();
    let mut i: usize = 0;
    proof {
        assert(inferred@ =~= start.union(
            Set::new(
                |p: (u32, u32)|
                    exists|k: (u32, u32)| #[trigger] keys@.take(0).contains(k) && props@.contains(k.0) && implied_pairs(m@[k], eq).contains(p),
            ),
        ));
    }
    while i < n
        invariant
            n == keys@.len(),
            keys@.to_set() == m@.dom(),
            n == m.set_seq().len(),
            keys@ == m.key_seq(),
            i <= n,
            eq == equality.pairs(),
            inferred@ == start.union(
                Set::new(
                    |p: (u32, u32)|
                        exists|k: (u32, u32)|
                            #[trigger] keys@.take(i as int).contains(k) && props@.contains(k.0) && implied_pairs(m@[k], eq).contains(p),
                ),
            ),
        decreases n - i,
    {
        let k = keys[i];
        let group = m.set_at(i);
        let ghost before = inferred@;
        if props.contains(k.0) && group.len() >= 2 {
            collect_implied_pairs(group, equality, inferred);
        } else if props.contains(k.0) {
            proof {
                lemma_small_group_implies_nothing(group@, eq);
            }
        }
        proof {
            crate::idset::lemma_take_succ_to_set(keys@, i as int);
            assert forall|y: (u32, u32)| keys@.take(i + 1).contains(y) <==> (keys@.take(i as int).contains(y) || y == k) by {
                assert(keys@.take(i + 1).contains(y) <==> keys@.take(i + 1).to_set().contains(y));
                assert(keys@.take(i as int).contains(y) <==> keys@.take(i as int).to_set().contains(y));
            }
            let added = if props@.contains(k.0) { implied_pairs(m@[k], eq) } else { Set::<(u32, u32)>::empty() };
            assert(inferred@ =~= before.union(added));
            assert forall|p: (u32, u32)| (exists|k2: (u32, u32)| #[trigger] keys@.take(i + 1).contains(k2) && props@.contains(k2.0) && implied_pairs(m@[k2], eq).contains(p))
                <==> ((exists|k2: (u32, u32)| #[trigger] keys@.take(i as int).contains(k2) && props@.contains(k2.0) && implied_pairs(m@[k2], eq).contains(p)) || added.contains(p)) by {
                if exists|k2: (u32, u32)| #[trigger] keys@.take(i + 1).contains(k2) && props@.contains(k2.0) && implied_pairs(m@[k2], eq).contains(p) {
                    let k2 = choose|k2: (u32, u32)| #[trigger] keys@.take(i + 1).contains(k2) && props@.contains(k2.0) && implied_pairs(m@[k2], eq).contains(p);
                    if k2 != k {
                        assert(keys@.take(i as int).contains(k2));
                    }
                }
                if added.contains(p) {
                    assert(keys@.take(i + 1)[i as int] == k);
                    assert(keys@.take(i + 1).contains(k));
                }
            }
            assert(inferred@ =~= start.union(
                Set::new(
                    |p: (u32, u32)|
                        exists|k2: (u32, u32)|
                            #[trigger] keys@.take(i + 1).contains(k2) && props@.contains(k2.0) && implied_pairs(m@[k2], eq).contains(p),
                ),
            ));
        }
        i += 1;
    }
    proof {
        assert(keys@.take(n as int) =~= keys@);
        assert forall|p: (u32, u32)| group_implies(m@, props@, eq, p) <==> exists|k: (u32, u32)| #[trigger] keys@.contains(k) && props@.contains(k.0) && implied_pairs(m@[k], eq).contains(p) by {
            if group_implies(m@, props@, eq, p) {
                let k = choose|k: (u32, u32)| #[trigger] m@.contains_key(k) && props@.contains(k.0) && implied_pairs(m@[k], eq).contains(p);
                assert(keys@.to_set().contains(k));
            }
            if exists|k: (u32, u32)| #[trigger] keys@.contains(k) && props@.contains(k.0) && implied_pairs(m@[k], eq).contains(p) {
                let k = choose|k: (u32, u32)| #[trigger] keys@.contains(k) && props@.contains(k.0) && implied_pairs(m@[k], eq).contains(p);
                assert(keys@.to_set().contains(k));
            }
        }
        assert(inferred@ =~= start.union(Set::new(|p: (u32, u32)| group_implies(m@, props@, eq, p))));
    }
}

/// The `owl:sameAs` pairs that the functional and inverse functional
/// properties of `plan` imply over the assertions of `prepared`, under
/// `equality`.
pub fn derive_property_implied_same_as_pairs(
    plan: &PropertyCharacteristicPlan,
    prepared: &PreparedPropertyAssertions,
    equality: &EqualityIndex,
) -> (r: PairSet)
    ensures
        r@ == derived_same_as(plan.functional(), plan.inverse_functional(), prepared.filed(), equality.pairs()),
{
    let mut inferred = PairSet::new();
    collect_group_pairs(
        prepared.outgoing_objects_by_property_subject(),
        plan.functional_properties(),
        equality,
        &mut inferred,
    );
    collect_group_pairs(
        prepared.incoming_subjects_by_property_object(),
        plan.inverse_functional_properties(),
        equality,
        &mut inferred,
    );
    proof {
        assert(inferred@ =~= derived_same_as(plan.functional(), plan.inverse_functional(), prepared.filed(), equality.pairs()));
    }
    inferred
}

/// The members of the derived pairs are resources of the assertions.
proof fn lemma_derived_within(
    functional: Set<u32>,
    inverse_functional: Set<u32>,
    filed: Set<Triple>,
    eq: Set<(u32, u32)>,
    u: Set<u32>,
)
    requires
        filed.subset_of(triples_over(u)),
    ensures
        derived_same_as(functional, inverse_functional, filed, eq).subset_of(pairs_over(u)),
        forall|p: (u32, u32)| #[trigger] derived_same_as(functional, inverse_functional, filed, eq).contains(p) ==> p.0 < p.1 && !equivalent(eq, p.0, p.1),
{
    let out = index_by(filed, property_subject(), object_of());
    let inc = index_by(filed, property_object(), subject_of());
    assert forall|p: (u32, u32)| #[trigger] derived_same_as(functional, inverse_functional, filed, eq).contains(p) implies pairs_over(u).contains(p) && p.0 < p.1 && !equivalent(eq, p.0, p.1) by {
        let g = if group_implies(out, functional, eq, p) {
            let k = choose|k: (u32, u32)| #[trigger] out.contains_key(k) && functional.contains(k.0) && implied_pairs(out[k], eq).contains(p);
            assert forall|v: u32| out[k].contains(v) implies u.contains(v) by {
                let t = choose|t: Triple| #[trigger] filed.contains(t) && property_subject()(t) == k && object_of()(t) == v;
                assert(triples_over(u).contains(t));
            }
            out[k]
        } else {
            let k = choose|k: (u32, u32)| #[trigger] inc.contains_key(k) && inverse_functional.contains(k.0) && implied_pairs(inc[k], eq).contains(p);
            assert forall|v: u32| inc[k].contains(v) implies u.contains(v) by {
                let t = choose|t: Triple| #[trigger] filed.contains(t) && property_object()(t) == k && subject_of()(t) == v;
                assert(triples_over(u).contains(t));
            }
            inc[k]
        };
        assert(implied_pairs(g, eq).contains(p));
        assert(g.contains(p.0) && g.contains(p.1));
        assert(p.0 != p.1);
    }
}

/// The universe of the closure under `eq`, the asserted pairs `a` with
/// pairs `i` over `u0`, lies within `u0`, the universe under `a` alone.
proof fn lemma_universe_within(
    index: IndexedDataset,
    taxonomy: PropertyTaxonomyIndex,
    e0: EqualityIndex,
    e: EqualityIndex,
    chains: PropertyChainPlan,
    policy: RulesMvpFeaturePolicy,
    i: Set<(u32, u32)>,
)
    requires
        e.pairs() == e0.pairs().union(i),
        i.subset_of(pairs_over(closure_universe(closure_inputs(index, taxonomy, e0, chains, policy)))),
    ensures
        closure_universe(closure_inputs(index, taxonomy, e, chains, policy)).subset_of(
            closure_universe(closure_inputs(index, taxonomy, e0, chains, policy)),
        ),
{
    let u0 = closure_universe(closure_inputs(index, taxonomy, e0, chains, policy));
    let r = closure_inputs(index, taxonomy, e, chains, policy);
    let r0 = closure_inputs(index, taxonomy, e0, chains, policy);
    assert forall|x: u32| closure_universe(r).contains(x) implies u0.contains(x) by {
        if is_member(e.pairs(), x) && !is_member(e0.pairs(), x) {
            let b = choose|b: u32| #[trigger] related(e.pairs(), x, b);
            if i.contains((x, b)) {
                assert(pairs_over(u0).contains((x, b)));
            } else if i.contains((b, x)) {
                assert(pairs_over(u0).contains((b, x)));
            } else {
                assert(related(e0.pairs(), x, b));
            }
        }
        if exists|t: Triple| #[trigger] r.seeds.contains(t) && (t.0 == x || t.1 == x || t.2 == x) {
            let t = choose|t: Triple| #[trigger] r.seeds.contains(t) && (t.0 == x || t.1 == x || t.2 == x);
            assert(r0.seeds.contains(t));
        }
        if exists|c: Triple| #[trigger] r.chains.contains(c) && c.0 == x {
            let c = choose|c: Triple| #[trigger] r.chains.contains(c) && c.0 == x;
            assert(r0.chains.contains(c));
        }
    }
}

/// The equality that `owl:sameAs` and the functional and inverse
/// functional properties establish, with the pairs that the properties
/// added.
pub struct IdentityPreparation {
    equality: EqualityIndex,
    inferred_same_as_pairs: PairSet,
    iterations: usize,
}

/// No functional or inverse functional property implies a further
/// `owl:sameAs` pair over the effective assertions under `equality`.
pub open spec fn identity_stable(
    index: IndexedDataset,
    taxonomy: PropertyTaxonomyIndex,
    chains: PropertyChainPlan,
    plan: PropertyCharacteristicPlan,
    policy: RulesMvpFeaturePolicy,
    equality: EqualityIndex,
) -> bool {
    derived_same_as(
        plan.functional(),
        plan.inverse_functional(),
        constrained_assertions(closure(closure_inputs(index, taxonomy, equality, chains, policy)), plan.constrained()),
        equality.pairs(),
    ) == Set::<(u32, u32)>::empty()
}

/// `p` is implied by a functional or inverse functional property over the
/// effective assertions under the equality `e`.
pub open spec fn implied_under(
    index: IndexedDataset,
    taxonomy: PropertyTaxonomyIndex,
    chains: PropertyChainPlan,
    plan: PropertyCharacteristicPlan,
    policy: RulesMvpFeaturePolicy,
    e: EqualityIndex,
    p: (u32, u32),
) -> bool {
    derived_same_as(
        plan.functional(),
        plan.inverse_functional(),
        constrained_assertions(closure(closure_inputs(index, taxonomy, e, chains, policy)), plan.constrained()),
        e.pairs(),
    ).contains(p)
}

impl IdentityPreparation {
    /// The equality index.
    pub closed spec fn eq_index(&self) -> EqualityIndex {
        self.equality
    }

    /// The inferred `owl:sameAs` pairs.
    pub closed spec fn inferred(&self) -> Set<(u32, u32)> {
        self.inferred_same_as_pairs@
    }

    /// The number of rounds that changed the equality.
    pub closed spec fn rounds(&self) -> usize {
        self.iterations
    }

    /// The equality index.
    pub fn equality(&self) -> (r: &EqualityIndex)
        ensures
            *r == self.eq_index(),
    {
        &self.equality
    }

    /// The inferred `owl:sameAs` pairs, smaller id first.
    pub fn inferred_same_as_pairs(&self) -> (r: &PairSet)
        ensures
            r@ == self.inferred(),
    {
        &self.inferred_same_as_pairs
    }

    /// The number of rounds that changed the equality.
    pub fn iterations(&self) -> (r: usize)
        ensures
            r == self.rounds(),
    {
        self.iterations
    }
}

/// Computes the equality of the dataset: with equality reasoning enabled,
/// the asserted `owl:sameAs` pairs and, round after round until none is
/// new, the pairs that the functional and inverse functional properties
/// imply over the effective assertions under the equality so far; with it
/// disabled, no equality at all.
pub fn prepare_identity(
    index: &IndexedDataset,
    property_taxonomy: &PropertyTaxonomyIndex,
    property_chain_plan: &PropertyChainPlan,
    plan: &PropertyCharacteristicPlan,
    policy: &RulesMvpFeaturePolicy,
) -> (r: IdentityPreparation)
    ensures
        policy.owl_equality_reasoning != FeatureMode::Enabled ==> r.eq_index().asserted() == 0,
        policy.owl_equality_reasoning == FeatureMode::Enabled ==> r.eq_index().asserted() == same_as_seq(index.vocab(), index.source()).len(),
        policy.owl_equality_reasoning != FeatureMode::Enabled ==> r.eq_index().pairs() == Set::<(u32, u32)>::empty()
            && r.inferred() == Set::<(u32, u32)>::empty() && r.rounds() == 0,
        policy.owl_equality_reasoning == FeatureMode::Enabled ==> {
            &&& r.eq_index().pairs() == same_as_seq(index.vocab(), index.source()).to_set().union(r.inferred())
            &&& identity_stable(*index, *property_taxonomy, *property_chain_plan, *plan, *policy, r.eq_index())
            &&& forall|p: (u32, u32)| #[trigger] r.inferred().contains(p) ==> p.0 < p.1
            &&& forall|p: (u32, u32)| #[trigger] r.inferred().contains(p) ==> exists|e: EqualityIndex|
                #[trigger] implied_under(*index, *property_taxonomy, *property_chain_plan, *plan, *policy, e, p)
                    && e.pairs().subset_of(r.eq_index().pairs())
            &&& r.rounds() <= r.inferred().len()
        },
{
    if !policy.owl_equality_reasoning_enabled() {
        return IdentityPreparation {
            equality: EqualityIndex::default(),
            inferred_same_as_pairs: PairSet::new(),
            iterations: 0,
        };
    }
    let ghost asserted = same_as_seq(index.vocab(), index.source()).to_set();
    let mut equality = EqualityIndex::build(index);
    let ghost e0 = equality;
    let ghost u0 = closure_universe(closure_inputs(*index, *property_taxonomy, e0, *property_chain_plan, *policy));
    universe_is_finite(index, property_taxonomy, &equality, property_chain_plan, policy);
    proof {
        lemma_pairs_over_finite(u0);
        vstd::seq_lib::seq_to_set_is_finite(same_as_seq(index.vocab(), index.source()));
    }
    let mut inferred = PairSet::new();
    let mut iterations: usize = 0;
    proof {
        assert(asserted.union(inferred@) =~= asserted);
    }
    loop
        invariant
            policy.owl_equality_reasoning == FeatureMode::Enabled,
            asserted == same_as_seq(index.vocab(), index.source()).to_set(),
            asserted.finite(),
            e0.pairs() == asserted,
            equality.asserted() == same_as_seq(index.vocab(), index.source()).len(),
            u0 == closure_universe(closure_inputs(*index, *property_taxonomy, e0, *property_chain_plan, *policy)),
            pairs_over(u0).finite(),
            equality.pairs() == asserted.union(inferred@),
            inferred@.subset_of(pairs_over(u0)),
            forall|p: (u32, u32)| #[trigger] inferred@.contains(p) ==> p.0 < p.1,
            forall|p: (u32, u32)| #[trigger] inferred@.contains(p) ==> exists|e: EqualityIndex|
                #[trigger] implied_under(*index, *property_taxonomy, *property_chain_plan, *plan, *policy, e, p)
                    && e.pairs().subset_of(equality.pairs()),
            iterations <= inferred@.len(),
        decreases pairs_over(u0).len() - inferred@.len(),
    {
        let closure = PropertyClosure::build(index, property_taxonomy, &equality, property_chain_plan, policy);
        let prepared = PreparedPropertyAssertions::build(plan, closure.all_assertions());
        let next = derive_property_implied_same_as_pairs(plan, &prepared, &equality);
        let ghost eq = equality.pairs();
        let ghost filed = prepared.filed();
        proof {
            let _ = inferred@.len();
            lemma_universe_within(*index, *property_taxonomy, e0, equality, *property_chain_plan, *policy, inferred@);
            assert(filed.subset_of(triples_over(u0))) by {
                let ue = closure_universe(closure_inputs(*index, *property_taxonomy, equality, *property_chain_plan, *policy));
                assert forall|t: Triple| filed.contains(t) implies triples_over(u0).contains(t) by {
                    assert(closure.all().contains(t));
                    assert(triples_over(ue).contains(t));
                }
            }
            lemma_derived_within(plan.functional(), plan.inverse_functional(), filed, eq, u0);
        }
        if next.len() == 0 {
            proof {
                assert(next@ =~= Set::<(u32, u32)>::empty());
            }
            return IdentityPreparation { equality, inferred_same_as_pairs: inferred, iterations };
        }
        let ghost before = inferred@;
        let ghost fresh = next@;
        proof {
            assert(inferred@.finite());
            assert(eq.finite());
            assert(fresh.contains(next.seq()[0]));
        }
        let items = next.as_slice();
        let m = items.len();
        let mut j: usize = 0;
        while j < m
            invariant
                m == items@.len(),
                items@.to_set() == fresh,
                j <= m,
                inferred@ == before.union(items@.take(j as int).to_set()),
            decreases m - j,
        {
            inferred.insert(items[j]);
            proof {
                crate::idset::lemma_take_succ_to_set(items@, j as int);
                assert(inferred@ =~= before.union(items@.take(j + 1).to_set()));
            }
            j += 1;
        }
        proof {
            assert(items@.take(m as int) =~= items@);
            let p = items@[0];
            assert(fresh.contains(p));
            assert(!before.contains(p)) by {
                if before.contains(p) {
                    crate::identity::equality::law_pairs_are_equivalent(eq, p);
                }
            }
            assert(inferred@.subset_of(pairs_over(u0)));
            vstd::set_lib::lemma_len_subset(before.insert(p), inferred@);
            vstd::set_lib::lemma_len_subset(inferred@, pairs_over(u0));
        }
        let _ = inferred.len();
        let ghost current = equality;
        let next_equality = EqualityIndex::build_with_inferred(index, &inferred);
        equality = next_equality;
        iterations += 1;
        proof {
            assert(current.pairs().subset_of(equality.pairs()));
            assert forall|p: (u32, u32)| #[trigger] inferred@.contains(p) implies exists|e: EqualityIndex|
                #[trigger] implied_under(*index, *property_taxonomy, *property_chain_plan, *plan, *policy, e, p)
                    && e.pairs().subset_of(equality.pairs()) by {
                if before.contains(p) {
                    let e = choose|e: EqualityIndex|
                        #[trigger] implied_under(*index, *property_taxonomy, *property_chain_plan, *plan, *policy, e, p)
                            && e.pairs().subset_of(current.pairs());
                    assert(implied_under(*index, *property_taxonomy, *property_chain_plan, *plan, *policy, e, p));
                } else {
                    assert(fresh.contains(p));
                    assert(implied_under(*index, *property_taxonomy, *property_chain_plan, *plan, *policy, current, p));
                }
            }
        }
    }
}

/// The resources that occur as subject or object in `filed`.
pub open spec fn ends_of(filed: Set<Triple>) -> Set<u32> {
    filed.map(|t: Triple| t.0).union(filed.map(|t: Triple| t.2))
}

/// The pairs derived from `filed` join resources of `filed`, so there are
/// finitely many.
proof fn lemma_derived_finite(functional: Set<u32>, inverse_functional: Set<u32>, filed: Set<Triple>, eq: Set<(u32, u32)>)
    requires
        filed.finite(),
    ensures
        derived_same_as(functional, inverse_functional, filed, eq).finite(),
{
    let u = ends_of(filed);
    filed.lemma_map_finite(|t: Triple| t.0);
    filed.lemma_map_finite(|t: Triple| t.2);
    lemma_pairs_over_finite(u);
    let d = derived_same_as(functional, inverse_functional, filed, eq);
    assert forall|p: (u32, u32)| d.contains(p) implies pairs_over(u).contains(p) by {
        let so = index_by(filed, property_subject(), object_of());
        let os = index_by(filed, property_object(), subject_of());
        if group_implies(so, functional, eq, p) {
            let k = choose|k: (u32, u32)| #[trigger] so.contains_key(k) && functional.contains(k.0) && implied_pairs(so[k], eq).contains(p);
            let t0 = choose|t: Triple| #[trigger] filed.contains(t) && property_subject()(t) == k && object_of()(t) == p.0;
            let t1 = choose|t: Triple| #[trigger] filed.contains(t) && property_subject()(t) == k && object_of()(t) == p.1;
            assert(filed.map(|t: Triple| t.2).contains(t0.2));
            assert(filed.map(|t: Triple| t.2).contains(t1.2));
        } else {
            let k = choose|k: (u32, u32)| #[trigger] os.contains_key(k) && inverse_functional.contains(k.0) && implied_pairs(os[k], eq).contains(p);
            let t0 = choose|t: Triple| #[trigger] filed.contains(t) && property_object()(t) == k && subject_of()(t) == p.0;
            let t1 = choose|t: Triple| #[trigger] filed.contains(t) && property_object()(t) == k && subject_of()(t) == p.1;
            assert(filed.map(|t: Triple| t.0).contains(t0.0));
            assert(filed.map(|t: Triple| t.0).contains(t1.0));
        }
    }
    vstd::set_lib::lemma_len_subset(d, pairs_over(u));
}

/// In a finite group that holds `x`, `x` ends up equivalent to the least
/// member once the implied pairs are added to `eq`.
proof fn lemma_group_member_joins_least(g: Set<u32>, eq: Set<(u32, u32)>, all: Set<(u32, u32)>, x: u32) -> (m: u32)
    requires
        g.finite(),
        g.contains(x),
        eq.finite(),
        all.finite(),
        eq.subset_of(all),
        implied_pairs(g, eq).subset_of(all),
    ensures
        is_least(g, m),
        equivalent(all, m, x),
{
    crate::identity::equality::lemma_finite_set_has_least(g, x);
    let m = choose|m: u32| is_least(g, m);
    if equivalent(eq, m, x) {
        crate::identity::equality::law_equivalence_grows(eq, all, m, x);
    } else {
        assert(implied_pairs(g, eq).contains((m, x)));
        crate::identity::equality::law_pairs_are_equivalent(all, (m, x));
    }
    m
}

/// Law: the subjects that an inverse functional property gives one
/// object are the same resource once the derived `owl:sameAs` pairs are
/// added, and so are the objects that a functional property gives one
/// subject.
pub proof fn law_functional_properties_equate(
    functional: Set<u32>,
    inverse_functional: Set<u32>,
    filed: Set<Triple>,
    eq: Set<(u32, u32)>,
    p: u32,
    x: u32,
    y: u32,
    z: u32,
)
    requires
        filed.finite(),
        eq.finite(),
    ensures
        inverse_functional.contains(p) && filed.contains((x, p, z)) && filed.contains((y, p, z)) ==> equivalent(
            eq.union(derived_same_as(functional, inverse_functional, filed, eq)),
            x,
            y,
        ),
        functional.contains(p) && filed.contains((z, p, x)) && filed.contains((z, p, y)) ==> equivalent(
            eq.union(derived_same_as(functional, inverse_functional, filed, eq)),
            x,
            y,
        ),
{
    let d = derived_same_as(functional, inverse_functional, filed, eq);
    let all = eq.union(d);
    lemma_derived_finite(functional, inverse_functional, filed, eq);
    let u = ends_of(filed);
    filed.lemma_map_finite(|t: Triple| t.0);
    filed.lemma_map_finite(|t: Triple| t.2);
    if inverse_functional.contains(p) && filed.contains((x, p, z)) && filed.contains((y, p, z)) {
        let os = index_by(filed, property_object(), subject_of());
        let k = (p, z);
        assert(property_object()((x, p, z)) == k && subject_of()((x, p, z)) == x);
        assert(property_object()((y, p, z)) == k && subject_of()((y, p, z)) == y);
        assert(os.contains_key(k));
        let g = os[k];
        assert(g.contains(x));
        assert(g.contains(y));
        assert(g.subset_of(u)) by {
            assert forall|w: u32| g.contains(w) implies u.contains(w) by {
                let t = choose|t: Triple| #[trigger] filed.contains(t) && property_object()(t) == k && subject_of()(t) == w;
                assert(filed.map(|t: Triple| t.0).contains(t.0));
            }
        }
        vstd::set_lib::lemma_len_subset(g, u);
        assert(implied_pairs(g, eq).subset_of(all)) by {
            assert forall|q: (u32, u32)| implied_pairs(g, eq).contains(q) implies all.contains(q) by {
                assert(group_implies(os, inverse_functional, eq, q));
            }
        }
        let m = lemma_group_member_joins_least(g, eq, all, x);
        let m2 = lemma_group_member_joins_least(g, eq, all, y);
        assert(m == m2);
        crate::identity::equality::law_equivalent_is_equivalence(all, m, x, y);
        crate::identity::equality::law_equivalent_is_equivalence(all, x, m, y);
    }
    if functional.contains(p) && filed.contains((z, p, x)) && filed.contains((z, p, y)) {
        let so = index_by(filed, property_subject(), object_of());
        let k = (p, z);
        assert(property_subject()((z, p, x)) == k && object_of()((z, p, x)) == x);
        assert(property_subject()((z, p, y)) == k && object_of()((z, p, y)) == y);
        assert(so.contains_key(k));
        let g = so[k];
        assert(g.contains(x));
        assert(g.contains(y));
        assert(g.subset_of(u)) by {
            assert forall|w: u32| g.contains(w) implies u.contains(w) by {
                let t = choose|t: Triple| #[trigger] filed.contains(t) && property_subject()(t) == k && object_of()(t) == w;
                assert(filed.map(|t: Triple| t.2).contains(t.2));
            }
        }
        vstd::set_lib::lemma_len_subset(g, u);
        assert(implied_pairs(g, eq).subset_of(all)) by {
            assert forall|q: (u32, u32)| implied_pairs(g, eq).contains(q) implies all.contains(q) by {
                assert(group_implies(so, functional, eq, q));
            }
        }
        let m = lemma_group_member_joins_least(g, eq, all, x);
        let m2 = lemma_group_member_joins_least(g, eq, all, y);
        assert(m == m2);
        crate::identity::equality::law_equivalent_is_equivalence(all, m, x, y);
        crate::identity::equality::law_equivalent_is_equivalence(all, x, m, y);
    }
}

/// Law: once identity reasoning is stable under the equality `e` (as
/// `prepare_identity` leaves it when equality reasoning is on), the
/// subjects that an inverse functional property gives one object in the
/// effective assertions are equivalent under `e`, and so are the objects
/// that a functional property gives one subject.
pub proof fn law_stable_identity_equates(
    index: IndexedDataset,
    taxonomy: PropertyTaxonomyIndex,
    chains: PropertyChainPlan,
    plan: PropertyCharacteristicPlan,
    policy: RulesMvpFeaturePolicy,
    e: EqualityIndex,
    p: u32,
    x: u32,
    y: u32,
    z: u32,
)
    requires
        identity_stable(index, taxonomy, chains, plan, policy, e),
        e.pairs().finite(),
        closure(closure_inputs(index, taxonomy, e, chains, policy)).finite(),
    ensures
        plan.inverse_functional().contains(p) && closure(closure_inputs(index, taxonomy, e, chains, policy)).contains((x, p, z))
            && closure(closure_inputs(index, taxonomy, e, chains, policy)).contains((y, p, z)) ==> equivalent(e.pairs(), x, y),
        plan.functional().contains(p) && closure(closure_inputs(index, taxonomy, e, chains, policy)).contains((z, p, x))
            && closure(closure_inputs(index, taxonomy, e, chains, policy)).contains((z, p, y)) ==> equivalent(e.pairs(), x, y),
{
    let all = closure(closure_inputs(index, taxonomy, e, chains, policy));
    let filed = constrained_assertions(all, plan.constrained());
    all.lemma_len_filter(|t: (u32, u32, u32)| plan.constrained().contains(t.1));
    law_functional_properties_equate(plan.functional(), plan.inverse_functional(), filed, e.pairs(), p, x, y, z);
    assert(e.pairs().union(derived_same_as(plan.functional(), plan.inverse_functional(), filed, e.pairs())) =~= e.pairs());
    if plan.inverse_functional().contains(p) && all.contains((x, p, z)) && all.contains((y, p, z)) {
        assert(filed.contains((x, p, z)));
        assert(filed.contains((y, p, z)));
    }
    if plan.functional().contains(p) && all.contains((z, p, x)) && all.contains((z, p, y)) {
        assert(filed.contains((z, p, x)));
        assert(filed.contains((z, p, y)));
    }
}

} // verus!
