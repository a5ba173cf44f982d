use vstd::prelude::*;

pub mod rules;

use crate::closure_index::{ancestors, graph_nodes, successors, ClosureIndex};
use crate::dataset_index::spec::{characteristic_set, observed_set, property_seq, EdgeField, TypeKind};
use crate::dataset_index::IndexedDataset;
use crate::identity::equality::{is_member, EqualityIndex};
use crate::pairs::{triples_sorted, PairSetMap, TripleSet};
use crate::policy::{FeatureMode, RulesMvpFeaturePolicy};
use crate::property_chain::PropertyChainPlan;
use crate::property_closure::rules::{
    closure, closed_under_rules, equals_of, expansion, follows, holds_expansion, pair_rules_hold,
    single_rules_hold, triples_over, RuleInputs, Triple,
};
use crate::property_consistency::prepared::{object_of, property_object, property_subject, subject_of};
use crate::relation::{index_by, lemma_index_by_empty, lemma_index_by_insert};

verus! {

/// The `(x, p, x)` seeds of reflexive properties `p` over the observed
/// named resources `x`.
pub open spec fn reflexive_seeds(index: IndexedDataset) -> Set<Triple> {
    Set::new(
        |t: Triple|
            t.0 == t.2 && characteristic_set(index.vocab(), index.source(), TypeKind::Reflexive).contains(t.1)
                && observed_set(index.vocab(), index.source()).contains(t.0),
    )
}

/// What the property rules read for `index`: its plain property
/// assertions (and, with property-chain axioms switched on, the reflexive
/// seeds), the hierarchy of `taxonomy`, the inverse pairs, symmetric and
/// transitive properties of the index, the chains of `chains`, the pairs
/// of `equality`, and the switches of `policy`.
pub open spec fn closure_inputs(
    index: IndexedDataset,
    taxonomy: ClosureIndex,
    equality: EqualityIndex,
    chains: PropertyChainPlan,
    policy: RulesMvpFeaturePolicy,
) -> RuleInputs {
    RuleInputs {
        seeds: property_seq(index.vocab(), index.source()).to_set().union(
            if policy.owl_property_chain_axioms == FeatureMode::Enabled {
                reflexive_seeds(index)
            } else {
                Set::empty()
            },
        ),
        subproperties: taxonomy.edges(),
        inverses: index.edges(EdgeField::InverseOfPairs),
        symmetric: characteristic_set(index.vocab(), index.source(), TypeKind::Symmetric),
        transitive: characteristic_set(index.vocab(), index.source(), TypeKind::Transitive),
        chains: chains.chain_set(),
        equality: equality.pairs(),
        subproperty_rule: policy.rdfs_subproperty_closure == FeatureMode::Enabled,
        assertion_rules: policy.owl_property_assertion_closure == FeatureMode::Enabled,
        equality_rule: policy.owl_equality_reasoning == FeatureMode::Enabled,
    }
}

/// `t` is first yielded by the asserted seed equal to it: no earlier seed
/// of `seeds` yields it.
pub open spec fn first_yielded(r: RuleInputs, seeds: Seq<Triple>, t: Triple) -> bool {
    exists|j: int|
        0 <= j < seeds.len() && seeds[j] == t && forall|k: int|
            0 <= k < j ==> !#[trigger] expansion(r, seeds[k]).contains(t)
}

/// Every id that can occur in an assertion of the closure.
pub open spec fn closure_universe(r: RuleInputs) -> Set<u32> {
    Set::new(
        |x: u32|
            (exists|t: Triple| #[trigger] r.seeds.contains(t) && (t.0 == x || t.1 == x || t.2 == x))
                || graph_nodes(r.subproperties).contains(x) || graph_nodes(r.inverses).contains(x)
                || (exists|c: Triple| #[trigger] r.chains.contains(c) && c.0 == x) || is_member(
                r.equality,
                x,
            ),
    )
}

/// The effective property assertions of a dataset: the asserted ones and
/// every one that follows from them through the property rules.
pub struct PropertyClosure {
    assertions: TripleSet,
    derived_assertions: TripleSet,
}

impl PropertyClosure {
    #[verifier::type_invariant]
    spec fn in_order(&self) -> bool {
        &&& triples_sorted(self.assertions.seq())
        &&& triples_sorted(self.derived_assertions.seq())
    }

    /// All the effective assertions.
    pub closed spec fn all(&self) -> Set<Triple> {
        self.assertions@
    }

    /// The effective assertions marked as derived.
    pub closed spec fn derived(&self) -> Set<Triple> {
        self.derived_assertions@
    }

    /// Computes the effective property assertions of `index`: every
    /// assertion that follows from the asserted ones (and the reflexive
    /// seeds) through the switched-on rules, with equality expansion.
    pub fn build(
        index: &IndexedDataset,
        taxonomy: &ClosureIndex,
        equality: &EqualityIndex,
        plan: &PropertyChainPlan,
        policy: &RulesMvpFeaturePolicy,
    ) -> (r: PropertyClosure)
        ensures
            r.all() == closure(closure_inputs(*index, *taxonomy, *equality, *plan, *policy)),
            r.derived() == r.all().filter(
                |t: Triple| !first_yielded(
                    closure_inputs(*index, *taxonomy, *equality, *plan, *policy),
                    property_seq(index.vocab(), index.source()),
                    t,
                ),
            ),
            r.all().subset_of(triples_over(closure_universe(closure_inputs(*index, *taxonomy, *equality, *plan, *policy)))),
    {
        let ghost r = closure_inputs(*index, *taxonomy, *equality, *plan, *policy);
        let ghost u = closure_universe(r);
        let ghost p = property_seq(index.vocab(), index.source());
        universe_is_finite(index, taxonomy, equality, plan, policy);
        proof {
            crate::property_closure::rules::lemma_triples_over_finite(u);
        }
        let enabled = policy.owl_equality_reasoning_enabled();
        let mut st = ClosureState::new();
        let seeds = index.property_assertions();
        let n = seeds.len();
        let mut i: usize = 0;
        proof {
            assert(st.derived@ =~= st.all@.filter(|x: Triple| !first_yielded(r, p.take(0), x)));
            assert(st.all@ =~= Set::new(|x: Triple| exists|k: int| 0 <= k < 0 && #[trigger] expansion(r, p[k]).contains(x)));
        }
        while i < n
            invariant
                n == p.len(),
                seeds@ == p,
                i <= n,
                r == closure_inputs(*index, *taxonomy, *equality, *plan, *policy),
                u == closure_universe(r),
                p == property_seq(index.vocab(), index.source()),
                st.ready(r, u, *equality, enabled),
                enabled == (policy.owl_equality_reasoning == FeatureMode::Enabled),
                st.all@ == Set::new(|x: Triple| exists|k: int| 0 <= k < i && #[trigger] expansion(r, p[k]).contains(x)),
                st.derived@ == st.all@.filter(|x: Triple| !first_yielded(r, p.take(i as int), x)),
            decreases n - i,
        {
            let t = seeds[i];
            let ghost before = st;
            proof {
                assert(p.to_set().contains(t));
                assert(r.seeds.contains(t));
                assert forall|x: Triple| #[trigger] expansion(r, t).contains(x) implies follows(r, x) by {
                    crate::property_closure::rules::lemma_expansion_follows(r, t, x);
                }
                lemma_expansion_in_universe(r, u, t);
            }
            st.enqueue(Ghost(r), equality, enabled, t, false);
            proof {
                let all2 = Set::new(|x: Triple| exists|k: int| 0 <= k < i + 1 && #[trigger] expansion(r, p[k]).contains(x));
                assert(st.all@ =~= all2) by {
                    assert forall|x: Triple| all2.contains(x) implies st.all@.contains(x) by {
                        let k = choose|k: int| 0 <= k < i + 1 && #[trigger] expansion(r, p[k]).contains(x);
                        if k < i {
                            assert(before.all@.contains(x));
                        }
                    }
                }
                assert forall|x: Triple| #[trigger] st.all@.contains(x) implies follows(r, x) && triples_over(u).contains(x) by {
                    if !before.all@.contains(x) {
                        assert(expansion(r, t).contains(x));
                    }
                }
                assert(p.take(i + 1) =~= p.take(i as int).push(t));
                assert(st.derived@ =~= st.all@.filter(|x: Triple| !first_yielded(r, p.take(i + 1), x))) by {
                    assert forall|x: Triple| st.all@.contains(x) implies (first_yielded(r, p.take(i + 1), x) <==> (first_yielded(r, p.take(i as int), x) || (!before.all@.contains(x) && x == t))) by {
                        let longer = p.take(i + 1);
                        let shorter = p.take(i as int);
                        if first_yielded(r, longer, x) {
                            let j = choose|j: int| 0 <= j < longer.len() && longer[j] == x && forall|k: int| 0 <= k < j ==> !#[trigger] expansion(r, longer[k]).contains(x);
                            if j < i {
                                assert forall|k: int| 0 <= k < j implies !#[trigger] expansion(r, shorter[k]).contains(x) by {
                                    assert(shorter[k] == longer[k]);
                                }
                                assert(shorter[j] == x);
                            } else {
                                assert(x == t);
                                if before.all@.contains(x) {
                                    let k = choose|k: int| 0 <= k < i && #[trigger] expansion(r, p[k]).contains(x);
                                    assert(longer[k] == p[k]);
                                }
                            }
                        }
                        if first_yielded(r, shorter, x) {
                            let j = choose|j: int| 0 <= j < shorter.len() && shorter[j] == x && forall|k: int| 0 <= k < j ==> !#[trigger] expansion(r, shorter[k]).contains(x);
                            assert(longer[j] == x);
                            assert forall|k: int| 0 <= k < j implies !#[trigger] expansion(r, longer[k]).contains(x) by {
                                assert(shorter[k] == longer[k]);
                            }
                        }
                        if !before.all@.contains(x) && x == t {
                            assert(longer[i as int] == x);
                            assert forall|k: int| 0 <= k < i implies !#[trigger] expansion(r, longer[k]).contains(x) by {
                                assert(longer[k] == p[k]);
                            }
                        }
                    }
                    assert forall|x: Triple| st.derived@.contains(x) <==> (st.all@.contains(x) && !first_yielded(r, p.take(i + 1), x)) by {
                        assert(st.derived@.contains(x) <==> (before.derived@.contains(x) || (st.all@.contains(x) && !before.all@.contains(x) && (false || x != t))));
                        if before.all@.contains(x) {
                            assert(before.derived@.contains(x) <==> !first_yielded(r, p.take(i as int), x));
                            assert(st.all@.contains(x));
                            assert(first_yielded(r, p.take(i + 1), x) <==> first_yielded(r, p.take(i as int), x));
                        } else if st.all@.contains(x) {
                            assert(!before.derived@.contains(x));
                            if first_yielded(r, p.take(i as int), x) {
                                let shorter = p.take(i as int);
                                let j = choose|j: int| 0 <= j < shorter.len() && shorter[j] == x && forall|k: int| 0 <= k < j ==> !#[trigger] expansion(r, shorter[k]).contains(x);
                                lemma_expansion_has_self(r, x);
                                assert(shorter[j] == p[j]);
                                assert(expansion(r, p[j]).contains(x));
                            }
                            assert(first_yielded(r, p.take(i + 1), x) <==> x == t);
                        } else {
                            assert(!st.derived@.contains(x));
                        }
                    }
                }
            }
            i += 1;
        }
        proof {
            assert(p.take(n as int) =~= p);
            assert forall|k: int| 0 <= k < n implies holds_expansion(r, st.all@, p[k]) by {
                assert forall|x: Triple| #[trigger] expansion(r, p[k]).contains(x) implies st.all@.contains(x) by {}
            }
        }
        let ghost after_seeds = st;
        if policy.owl_property_chain_axioms_enabled() {
            let reflexive = index.reflexive_properties().as_slice();
            let observed = index.observed_named_resources().as_slice();
            let nr = reflexive.len();
            let mut a: usize = 0;
            proof {
                lemma_progress_refl(after_seeds);
            }
            while a < nr
                invariant
                    nr == reflexive@.len(),
                    reflexive@.to_set() == characteristic_set(index.vocab(), index.source(), TypeKind::Reflexive),
                    observed@.to_set() == observed_set(index.vocab(), index.source()),
                    r == closure_inputs(*index, *taxonomy, *equality, *plan, *policy),
                    policy.owl_property_chain_axioms == FeatureMode::Enabled,
                    u == closure_universe(r),
                    enabled == (policy.owl_equality_reasoning == FeatureMode::Enabled),
                    a <= nr,
                    st.ready(r, u, *equality, enabled),
                    st.progressed(after_seeds),
                    forall|x: Triple| (exists|k: int| 0 <= k < n && #[trigger] expansion(r, p[k]).contains(x)) ==> st.all@.contains(x),
                    forall|j: int, x: u32| 0 <= j < a && #[trigger] observed@.to_set().contains(x) ==> holds_expansion(r, st.all@, (x, #[trigger] reflexive@[j], x)),
                decreases nr - a,
            {
                let prop = reflexive[a];
                let no = observed.len();
                let mut b: usize = 0;
                proof {
                    assert(reflexive@.to_set().contains(prop));
                }
                while b < no
                    invariant
                        nr == reflexive@.len(),
                        no == observed@.len(),
                        a < nr,
                        prop == reflexive@[a as int],
                        reflexive@.to_set() == characteristic_set(index.vocab(), index.source(), TypeKind::Reflexive),
                        characteristic_set(index.vocab(), index.source(), TypeKind::Reflexive).contains(prop),
                        observed@.to_set() == observed_set(index.vocab(), index.source()),
                        r == closure_inputs(*index, *taxonomy, *equality, *plan, *policy),
                        policy.owl_property_chain_axioms == FeatureMode::Enabled,
                        u == closure_universe(r),
                        enabled == (policy.owl_equality_reasoning == FeatureMode::Enabled),
                        b <= no,
                        st.ready(r, u, *equality, enabled),
                        st.progressed(after_seeds),
                        forall|x: Triple| (exists|k: int| 0 <= k < n && #[trigger] expansion(r, p[k]).contains(x)) ==> st.all@.contains(x),
                        forall|j: int, x: u32| 0 <= j < a && #[trigger] observed@.to_set().contains(x) ==> holds_expansion(r, st.all@, (x, #[trigger] reflexive@[j], x)),
                        forall|y: int| 0 <= y < b ==> holds_expansion(r, st.all@, (#[trigger] observed@[y], prop, observed@[y])),
                    decreases no - b,
                {
                    let x = observed[b];
                    let seed = (x, prop, x);
                    let ghost before = st;
                    proof {
                        assert(observed@.to_set().contains(x));
                        assert(reflexive_seeds(*index).contains(seed));
                        assert(r.seeds.contains(seed));
                        assert forall|y: Triple| #[trigger] expansion(r, seed).contains(y) implies follows(r, y) by {
                            crate::property_closure::rules::lemma_expansion_follows(r, seed, y);
                        }
                    }
                    st.enqueue_derived(Ghost(r), Ghost(u), equality, enabled, seed);
                    proof {
                        lemma_progress_trans(after_seeds, before, st);
                    }
                    b += 1;
                }
                proof {
                    assert forall|j: int, x: u32| 0 <= j < a + 1 && #[trigger] observed@.to_set().contains(x) implies holds_expansion(r, st.all@, (x, #[trigger] reflexive@[j], x)) by {
                        if j == a {
                            let y = choose|y: int| 0 <= y < no && observed@[y] == x;
                        }
                    }
                }
                a += 1;
            }
            proof {
                assert forall|t: Triple| #[trigger] reflexive_seeds(*index).contains(t) implies holds_expansion(r, st.all@, t) by {
                    assert(reflexive@.to_set().contains(t.1));
                    let j = choose|j: int| 0 <= j < nr && reflexive@[j] == t.1;
                    assert(observed@.to_set().contains(t.0));
                }
            }
        } else {
            proof {
                lemma_progress_refl(st);
            }
        }
        proof {
            assert forall|t: Triple| #[trigger] r.seeds.contains(t) implies holds_expansion(r, st.all@, t) by {
                if p.to_set().contains(t) {
                    let k = choose|k: int| 0 <= k < p.len() && p[k] == t;
                    assert forall|x: Triple| #[trigger] expansion(r, t).contains(x) implies st.all@.contains(x) by {
                        assert(expansion(r, p[k]).contains(x));
                    }
                }
            }
            assert(st.derived@ =~= st.all@.filter(|x: Triple| !first_yielded(r, p, x))) by {
                assert forall|x: Triple| st.all@.contains(x) && !after_seeds.all@.contains(x) implies !first_yielded(r, p, x) by {
                    if first_yielded(r, p, x) {
                        let j = choose|j: int| 0 <= j < p.len() && p[j] == x && forall|k: int| 0 <= k < j ==> !#[trigger] expansion(r, p[k]).contains(x);
                        assert(expansion(r, p[j]).contains(x)) by {
                            lemma_expansion_has_self(r, x);
                        }
                    }
                }
            }
        }
        let mut head: usize = 0;
        proof {
            st.queue@.unique_seq_to_set();
            vstd::set_lib::lemma_len_subset(st.all@, triples_over(u));
        }
        while head < st.queue.len()
            invariant
                r == closure_inputs(*index, *taxonomy, *equality, *plan, *policy),
                u == closure_universe(r),
                u.finite(),
                triples_over(u).finite(),
                enabled == (policy.owl_equality_reasoning == FeatureMode::Enabled),
                st.ready(r, u, *equality, enabled),
                forall|t: Triple| #[trigger] r.seeds.contains(t) ==> holds_expansion(r, st.all@, t),
                st.derived@ == st.all@.filter(|x: Triple| !first_yielded(r, p, x)),
                forall|x: Triple| (exists|k: int| 0 <= k < p.len() && #[trigger] expansion(r, p[k]).contains(x)) ==> st.all@.contains(x),
                head <= st.queue@.len(),
                st.queue@.len() <= triples_over(u).len(),
                forall|k: int| 0 <= k < head ==> single_rules_hold(r, st.all@, #[trigger] st.queue@[k]),
                forall|k1: int, k2: int| 0 <= k1 < head && 0 <= k2 < head ==> pair_rules_hold(r, st.all@, #[trigger] st.queue@[k1], #[trigger] st.queue@[k2]),
            decreases triples_over(u).len() - head,
        {
            let t = st.queue[head];
            let ghost before = st;
            proof {
                assert(st.queue@.to_set().contains(t));
            }
            st.process(Ghost(r), Ghost(u), index, taxonomy, equality, plan, policy, t);
            proof {
                let fin = st.all@;
                assert(before.queue@.take(before.queue@.len() as int) == before.queue@);
                assert forall|k: int| 0 <= k < before.queue@.len() implies st.queue@[k] == before.queue@[k] by {
                    assert(st.queue@.take(before.queue@.len() as int)[k] == st.queue@[k]);
                }
                assert forall|k: int| 0 <= k < head + 1 implies single_rules_hold(r, fin, #[trigger] st.queue@[k]) by {
                    if k < head {
                        crate::property_closure::rules::lemma_single_mono(r, before.all@, fin, before.queue@[k]);
                    }
                }
                assert forall|k1: int, k2: int| 0 <= k1 < head + 1 && 0 <= k2 < head + 1 implies pair_rules_hold(r, fin, #[trigger] st.queue@[k1], #[trigger] st.queue@[k2]) by {
                    if k1 < head && k2 < head {
                        crate::property_closure::rules::lemma_pair_mono(r, before.all@, fin, before.queue@[k1], before.queue@[k2]);
                    } else if k1 == head {
                        assert(before.queue@.to_set().contains(before.queue@[k2]));
                    } else {
                        assert(before.queue@.to_set().contains(before.queue@[k1]));
                    }
                }
                assert forall|t2: Triple| #[trigger] r.seeds.contains(t2) implies holds_expansion(r, fin, t2) by {
                    assert(holds_expansion(r, before.all@, t2));
                }
                assert(st.derived@ =~= fin.filter(|x: Triple| !first_yielded(r, p, x))) by {
                    assert forall|x: Triple| fin.contains(x) && !before.all@.contains(x) implies !first_yielded(r, p, x) by {
                        if first_yielded(r, p, x) {
                            let j = choose|j: int| 0 <= j < p.len() && p[j] == x && forall|k: int| 0 <= k < j ==> !#[trigger] expansion(r, p[k]).contains(x);
                            lemma_expansion_has_self(r, x);
                            assert(expansion(r, p[j]).contains(x));
                        }
                    }
                }
                st.queue@.unique_seq_to_set();
                vstd::set_lib::lemma_len_subset(st.all@, triples_over(u));
            }
            head += 1;
        }
        proof {
            assert(closed_under_rules(r, st.all@)) by {
                assert forall|t: Triple| #[trigger] st.all@.contains(t) implies single_rules_hold(r, st.all@, t) by {
                    assert(st.queue@.to_set().contains(t));
                    let k = choose|k: int| 0 <= k < st.queue@.len() && st.queue@[k] == t;
                }
                assert forall|a: Triple, b: Triple| #[trigger] st.all@.contains(a) && #[trigger] st.all@.contains(b) implies pair_rules_hold(r, st.all@, a, b) by {
                    assert(st.queue@.to_set().contains(a));
                    assert(st.queue@.to_set().contains(b));
                    let k1 = choose|k1: int| 0 <= k1 < st.queue@.len() && st.queue@[k1] == a;
                    let k2 = choose|k2: int| 0 <= k2 < st.queue@.len() && st.queue@[k2] == b;
                }
            }
            crate::property_closure::rules::law_closure_is_least(r, st.all@);
            assert(st.all@ =~= closure(r));
            assert(st.all@.subset_of(triples_over(u)));
        }
        PropertyClosure { assertions: st.all.sorted_copy(), derived_assertions: st.derived.sorted_copy() }
    }

    /// All the effective assertions, in increasing order.
    pub fn all_assertions(&self) -> (r: &TripleSet)
        ensures
            r@ == self.all(),
            triples_sorted(r.seq()),
    {
        proof {
            use_type_invariant(self);
        }
        &self.assertions
    }

    /// The effective assertions that are not an asserted assertion that
    /// was first produced as itself, in increasing order.
    pub fn derived_assertions(&self) -> (r: &TripleSet)
        ensures
            r@ == self.derived(),
            triples_sorted(r.seq()),
    {
        proof {
            use_type_invariant(self);
        }
        &self.derived_assertions
    }
}

/// The state of the closure computation.
struct ClosureState {
    all: TripleSet,
    derived: TripleSet,
    queue: Vec<Triple>,
    outgoing: PairSetMap,
    incoming: PairSetMap,
}

impl ClosureState {
    spec fn wf(&self) -> bool {
        &&& self.queue@.no_duplicates()
        &&& self.queue@.to_set() == self.all@
        &&& self.outgoing@ == index_by(self.all@, property_subject(), object_of())
        &&& self.incoming@ == index_by(self.all@, property_object(), subject_of())
        &&& self.derived@.subset_of(self.all@)
    }

    spec fn grew_from(&self, old: ClosureState) -> bool {
        &&& old.all@.subset_of(self.all@)
        &&& self.queue@.len() >= old.queue@.len()
        &&& self.queue@.take(old.queue@.len() as int) == old.queue@
    }

    fn new() -> (r: ClosureState)
        ensures
            r.wf(),
            r.all@ == Set::<Triple>::empty(),
            r.derived@ == Set::<Triple>::empty(),
            r.queue@.len() == 0,
    {
        proof {
            lemma_index_by_empty(property_subject(), object_of());
            lemma_index_by_empty(property_object(), subject_of());
        }
        let r = ClosureState {
            all: TripleSet::new(),
            derived: TripleSet::new(),
            queue: Vec::new(),
            outgoing: PairSetMap::new(),
            incoming: PairSetMap::new(),
        };
        assert(r.queue@.to_set() =~= Set::<Triple>::empty());
        r
    }

    /// Adds `u`, marked derived when `d`, unless it is already there.
    fn add(&mut self, u: Triple, d: bool)
        requires
            old(self).wf(),
        ensures
            final(self).wf(),
            final(self).all@ == old(self).all@.insert(u),
            final(self).grew_from(*old(self)),
            old(self).all@.contains(u) ==> final(self).queue@ == old(self).queue@ && final(self).derived@
                == old(self).derived@,
            !old(self).all@.contains(u) ==> final(self).queue@ == old(self).queue@.push(u) && final(self).derived@ == (if d {
                old(self).derived@.insert(u)
            } else {
                old(self).derived@
            }),
    {
        let ghost before = self.all@;
        if self.all.insert(u) {
            if d {
                self.derived.insert(u);
            }
            proof {
                lemma_index_by_insert(before, property_subject(), object_of(), u);
                lemma_index_by_insert(before, property_object(), subject_of(), u);
                assert(!self.queue@.contains(u)) by {
                    if self.queue@.contains(u) {
                        assert(self.queue@.to_set().contains(u));
                    }
                }
                self.queue@.lemma_push_to_set_commute(u);
            }
            self.outgoing.insert((u.1, u.0), u.2);
            self.incoming.insert((u.1, u.2), u.0);
            self.queue.push(u);
            proof {
                assert(self.queue@.take(old(self).queue@.len() as int) =~= old(self).queue@);
                assert(self.all@.difference(before) =~= Set::<Triple>::empty().insert(u));
            }
        } else {
            proof {
                assert(self.queue@.take(old(self).queue@.len() as int) =~= old(self).queue@);
                assert(self.all@.difference(before) =~= Set::<Triple>::empty());
                assert(self.derived@.union(Set::<Triple>::empty()) =~= self.derived@);
            }
        }
    }

    /// Adds every assertion that `t` yields; an added one is marked
    /// derived when `d` or when it differs from `t`.
    fn enqueue(&mut self, Ghost(r): Ghost<RuleInputs>, equality: &EqualityIndex, enabled: bool, t: Triple, d: bool)
        requires
            old(self).wf(),
            r.equality == equality.pairs(),
            r.equality_rule == enabled,
        ensures
            final(self).wf(),
            final(self).all@ == old(self).all@.union(expansion(r, t)),
            final(self).grew_from(*old(self)),
            forall|x: Triple| #[trigger] final(self).derived@.contains(x) <==> (old(self).derived@.contains(x) || (final(self).all@.contains(x) && !old(self).all@.contains(x) && (d || x != t))),
    {
        let (s, p, o) = t;
        if !enabled {
            self.add(t, d);
            proof {
                assert(expansion(r, t) =~= Set::<Triple>::empty().insert(t));
            }
            return;
        }
        let subjects: Vec<u32> = match equality.equivalents_of(s) {
            Some(set) => vstd::slice::slice_to_vec(set.as_slice()),
            None => vec![s],
        };
        let objects: Vec<u32> = match equality.equivalents_of(o) {
            Some(set) => vstd::slice::slice_to_vec(set.as_slice()),
            None => vec![o],
        };
        proof {
            assert(subjects@.to_set() =~= equals_of(r.equality, s)) by {
                if !is_member(r.equality, s) {
                    assert(subjects@ =~= seq![s]);
                }
            }
            assert(objects@.to_set() =~= equals_of(r.equality, o)) by {
                if !is_member(r.equality, o) {
                    assert(objects@ =~= seq![o]);
                }
            }
        }
        let ghost start = *self;
        proof {
            assert(self.queue@.take(self.queue@.len() as int) =~= self.queue@);
            assert(self.all@ =~= start.all@.union(Set::new(|u: Triple| u.1 == p && subjects@.take(0).contains(u.0) && objects@.contains(u.2))));
        }
        let n = subjects.len();
        let mut i: usize = 0;
        while i < n
            invariant
                n == subjects@.len(),
                i <= n,
                self.wf(),
                self.grew_from(start),
                self.all@ == start.all@.union(Set::new(|u: Triple| u.1 == p && subjects@.take(i as int).contains(u.0) && objects@.contains(u.2))),
                forall|x: Triple| #[trigger] self.derived@.contains(x) <==> (start.derived@.contains(x) || (self.all@.contains(x) && !start.all@.contains(x) && (d || x != t))),
                t == (s, p, o),
            decreases n - i,
        {
            let a = subjects[i];
            let m = objects.len();
            let mut j: usize = 0;
            let ghost row_start = *self;
            proof {
                assert(self.all@ =~= row_start.all@.union(Set::new(|u: Triple| u == (a, p, u.2) && objects@.take(0).contains(u.2))));
            }
            while j < m
                invariant
                    n == subjects@.len(),
                    m == objects@.len(),
                    i < n,
                    a == subjects@[i as int],
                    j <= m,
                    self.wf(),
                    self.grew_from(start),
                    row_start.grew_from(start),
                    self.all@ == row_start.all@.union(Set::new(|u: Triple| u == (a, p, u.2) && objects@.take(j as int).contains(u.2))),
                    row_start.all@ == start.all@.union(Set::new(|u: Triple| u.1 == p && subjects@.take(i as int).contains(u.0) && objects@.contains(u.2))),
                    forall|x: Triple| #[trigger] self.derived@.contains(x) <==> (start.derived@.contains(x) || (self.all@.contains(x) && !start.all@.contains(x) && (d || x != t))),
                    t == (s, p, o),
                decreases m - j,
            {
                let b = objects[j];
                let u = (a, p, b);
                let ghost before = *self;
                let flag = d || a != s || b != o;
                self.add(u, flag);
                proof {
                    assert(self.queue@.take(start.queue@.len() as int) =~= start.queue@) by {
                        assert(self.queue@.take(before.queue@.len() as int) == before.queue@);
                        assert(before.queue@.take(start.queue@.len() as int) == start.queue@);
                    }
                    assert(objects@.take(j + 1) =~= objects@.take(j as int).push(b));
                    let ghost longer = objects@.take(j + 1);
                    let ghost shorter = objects@.take(j as int);
                    assert(longer == shorter.push(b));
                    assert forall|x: u32| longer.contains(x) <==> (shorter.contains(x) || x == b) by {
                        if longer.contains(x) && x != b {
                            let k = choose|k: int| 0 <= k < longer.len() && longer[k] == x;
                            assert(shorter[k] == x);
                        }
                        if shorter.contains(x) {
                            let k = choose|k: int| 0 <= k < shorter.len() && shorter[k] == x;
                            assert(longer[k] == x);
                        }
                        if x == b {
                            assert(longer[shorter.len() as int] == x);
                        }
                    }
                    assert(self.all@ =~= row_start.all@.union(Set::new(|u2: Triple| u2 == (a, p, u2.2) && objects@.take(j + 1).contains(u2.2))));
                    assert forall|x: Triple| #[trigger] self.derived@.contains(x) <==> (start.derived@.contains(x) || (self.all@.contains(x) && !start.all@.contains(x) && (d || x != t))) by {
                        if x == u && !before.all@.contains(u) {
                            assert(flag == (d || u != t));
                        }
                    }
                }
                j += 1;
            }
            proof {
                assert(objects@.take(m as int) =~= objects@);
                assert(subjects@.take(i + 1) =~= subjects@.take(i as int).push(a));
                    let ghost longer = subjects@.take(i + 1);
                    let ghost shorter = subjects@.take(i as int);
                    assert(longer == shorter.push(a));
                    assert forall|x: u32| longer.contains(x) <==> (shorter.contains(x) || x == a) by {
                        if longer.contains(x) && x != a {
                            let k = choose|k: int| 0 <= k < longer.len() && longer[k] == x;
                            assert(shorter[k] == x);
                        }
                        if shorter.contains(x) {
                            let k = choose|k: int| 0 <= k < shorter.len() && shorter[k] == x;
                            assert(longer[k] == x);
                        }
                        if x == a {
                            assert(longer[shorter.len() as int] == x);
                        }
                    }
                assert(self.all@ =~= start.all@.union(Set::new(|u: Triple| u.1 == p && subjects@.take(i + 1).contains(u.0) && objects@.contains(u.2))));
            }
            i += 1;
        }
        proof {
            assert(subjects@.take(n as int) =~= subjects@);
            assert(self.all@ =~= start.all@.union(expansion(r, t))) by {
                assert forall|u: Triple| expansion(r, t).contains(u) <==> (u.1 == p && subjects@.contains(u.0) && objects@.contains(u.2)) by {
                    assert(subjects@.to_set().contains(u.0) == subjects@.contains(u.0));
                    assert(objects@.to_set().contains(u.2) == objects@.contains(u.2));
                }
            }
        }
    }

    spec fn sound(&self, r: RuleInputs, u: Set<u32>) -> bool {
        forall|x: Triple| #[trigger] self.all@.contains(x) ==> follows(r, x) && triples_over(u).contains(x)
    }

    spec fn progressed(&self, old: ClosureState) -> bool {
        &&& self.wf()
        &&& self.grew_from(old)
        &&& self.derived@ == old.derived@.union(self.all@.difference(old.all@))
    }

    /// Adds what `t` yields, as derived, keeping every assertion one that
    /// follows and within the universe `u`.
    fn enqueue_derived(
        &mut self,
        Ghost(r): Ghost<RuleInputs>,
        Ghost(u): Ghost<Set<u32>>,
        equality: &EqualityIndex,
        enabled: bool,
        t: Triple,
    )
        requires
            old(self).wf(),
            old(self).sound(r, u),
            r.equality == equality.pairs(),
            r.equality_rule == enabled,
            u == closure_universe(r),
            u.contains(t.0) && u.contains(t.1) && u.contains(t.2),
            forall|x: Triple| #[trigger] expansion(r, t).contains(x) ==> follows(r, x),
        ensures
            final(self).progressed(*old(self)),
            final(self).sound(r, u),
            holds_expansion(r, final(self).all@, t),
    {
        self.enqueue(Ghost(r), equality, enabled, t, true);
        proof {
            lemma_expansion_in_universe(r, u, t);
            assert(self.derived@ =~= old(self).derived@.union(self.all@.difference(old(self).all@))) by {
                assert forall|x: Triple| self.derived@.contains(x) <==> old(self).derived@.union(self.all@.difference(old(self).all@)).contains(x) by {
                    assert(self.derived@.contains(x) <==> (old(self).derived@.contains(x) || (self.all@.contains(x) && !old(self).all@.contains(x) && (true || x != t))));
                }
            }
        }
    }

    spec fn ready(&self, r: RuleInputs, u: Set<u32>, equality: EqualityIndex, enabled: bool) -> bool {
        &&& self.wf()
        &&& self.sound(r, u)
        &&& r.equality == equality.pairs()
        &&& r.equality_rule == enabled
        &&& u == closure_universe(r)
    }

    /// Applies the subproperty rule to `t`.
    fn rule_subproperty(
        &mut self,
        Ghost(r): Ghost<RuleInputs>,
        Ghost(u): Ghost<Set<u32>>,
        taxonomy: &ClosureIndex,
        equality: &EqualityIndex,
        enabled: bool,
        on: bool,
        t: Triple,
    )
        requires
            old(self).ready(r, u, *equality, enabled),
            old(self).all@.contains(t),
            r.subproperties == taxonomy.edges(),
            r.subproperty_rule == on,
        ensures
            final(self).progressed(*old(self)),
            final(self).ready(r, u, *equality, enabled),
            on ==> forall|q: u32| #[trigger] ancestors(r.subproperties, t.1).contains(q)
                ==> holds_expansion(r, final(self).all@, (t.0, q, t.2)),
    {
        let ghost start = *self;
        proof {
            lemma_progress_refl(start);
        }
        if !on {
            return;
        }
        let items = match taxonomy.ancestors_of(t.1) {
            Some(anc) => anc.as_slice(),
            None => {
                proof {
                    assert forall|q: u32| #[trigger] ancestors(r.subproperties, t.1).contains(q) implies false by {
                        crate::closure_index::law_ancestors_are_nodes(r.subproperties, t.1, q);
                        lemma_reached_from_node(r.subproperties, t.1, q);
                    }
                }
                return;
            },
        };
        let n = items.len();
        let mut k: usize = 0;
        while k < n
            invariant
                n == items@.len(),
                items@.to_set() == ancestors(r.subproperties, t.1),
                k <= n,
                self.ready(r, u, *equality, enabled),
                self.progressed(start),
                start.all@.contains(t),
                r.subproperty_rule,
                forall|j: int| 0 <= j < k ==> holds_expansion(r, self.all@, (t.0, #[trigger] items@[j], t.2)),
            decreases n - k,
        {
            let q = items[k];
            let ghost before = *self;
            proof {
                assert(items@.to_set().contains(q));
                assert(follows(r, t) && triples_over(u).contains(t));
                crate::closure_index::law_ancestors_are_nodes(r.subproperties, t.1, q);
                assert forall|x: Triple| #[trigger] expansion(r, (t.0, q, t.2)).contains(x) implies follows(r, x) by {
                    crate::property_closure::rules::lemma_subproperty_follows(r, t, q, x);
                }
            }
            self.enqueue_derived(Ghost(r), Ghost(u), equality, enabled, (t.0, q, t.2));
            proof {
                lemma_progress_trans(start, before, *self);
            }
            k += 1;
        }
        proof {
            assert forall|q: u32| #[trigger] ancestors(r.subproperties, t.1).contains(q)
                implies holds_expansion(r, self.all@, (t.0, q, t.2)) by {
                assert(items@.to_set().contains(q));
                let j = choose|j: int| 0 <= j < n && items@[j] == q;
            }
        }
    }

    /// Applies the inverse rule to `t`.
    fn rule_inverse(
        &mut self,
        Ghost(r): Ghost<RuleInputs>,
        Ghost(u): Ghost<Set<u32>>,
        inverses: &crate::idset::IdSetMap,
        equality: &EqualityIndex,
        enabled: bool,
        on: bool,
        t: Triple,
    )
        requires
            old(self).ready(r, u, *equality, enabled),
            old(self).all@.contains(t),
            r.inverses == inverses@,
            r.assertion_rules == on,
        ensures
            final(self).progressed(*old(self)),
            final(self).ready(r, u, *equality, enabled),
            on ==> forall|q: u32| #[trigger] successors(r.inverses, t.1).contains(q)
                ==> holds_expansion(r, final(self).all@, (t.2, q, t.0)),
    {
        let ghost start = *self;
        proof {
            lemma_progress_refl(start);
        }
        if !on {
            return;
        }
        let items = match inverses.get(t.1) {
            Some(set) => set.as_slice(),
            None => {
                return;
            },
        };
        let n = items.len();
        let mut k: usize = 0;
        while k < n
            invariant
                n == items@.len(),
                items@.to_set() == successors(r.inverses, t.1),
                k <= n,
                self.ready(r, u, *equality, enabled),
                self.progressed(start),
                start.all@.contains(t),
                r.assertion_rules,
                forall|j: int| 0 <= j < k ==> holds_expansion(r, self.all@, (t.2, #[trigger] items@[j], t.0)),
            decreases n - k,
        {
            let q = items[k];
            let ghost before = *self;
            proof {
                assert(items@.to_set().contains(q));
                assert(follows(r, t) && triples_over(u).contains(t));
                assert(graph_nodes(r.inverses).contains(q));
                assert forall|x: Triple| #[trigger] expansion(r, (t.2, q, t.0)).contains(x) implies follows(r, x) by {
                    crate::property_closure::rules::lemma_inverse_follows(r, t, q, x);
                }
            }
            self.enqueue_derived(Ghost(r), Ghost(u), equality, enabled, (t.2, q, t.0));
            proof {
                lemma_progress_trans(start, before, *self);
            }
            k += 1;
        }
        proof {
            assert forall|q: u32| #[trigger] successors(r.inverses, t.1).contains(q)
                implies holds_expansion(r, self.all@, (t.2, q, t.0)) by {
                assert(items@.to_set().contains(q));
                let j = choose|j: int| 0 <= j < n && items@[j] == q;
            }
        }
    }

    /// Applies the symmetry rule to `t`.
    fn rule_symmetric(
        &mut self,
        Ghost(r): Ghost<RuleInputs>,
        Ghost(u): Ghost<Set<u32>>,
        symmetric: &crate::idset::IdSet,
        equality: &EqualityIndex,
        enabled: bool,
        on: bool,
        t: Triple,
    )
        requires
            old(self).ready(r, u, *equality, enabled),
            old(self).all@.contains(t),
            r.symmetric == symmetric@,
            r.assertion_rules == on,
        ensures
            final(self).progressed(*old(self)),
            final(self).ready(r, u, *equality, enabled),
            (on && r.symmetric.contains(t.1)) ==> holds_expansion(r, final(self).all@, (t.2, t.1, t.0)),
    {
        let ghost start = *self;
        proof {
            lemma_progress_refl(start);
        }
        if on && symmetric.contains(t.1) {
            proof {
                assert(follows(r, t) && triples_over(u).contains(t));
                assert forall|x: Triple| #[trigger] expansion(r, (t.2, t.1, t.0)).contains(x) implies follows(r, x) by {
                    crate::property_closure::rules::lemma_symmetric_follows(r, t, x);
                }
            }
            self.enqueue_derived(Ghost(r), Ghost(u), equality, enabled, (t.2, t.1, t.0));
        }
    }

    /// Adds `(t.0, t.1, x)` for each `x` after `t` along `t.1` from the
    /// object of `t`, when `t.1` is transitive.
    fn rule_transitive_forward(
        &mut self,
        Ghost(r): Ghost<RuleInputs>,
        Ghost(u): Ghost<Set<u32>>,
        transitive: &crate::idset::IdSet,
        equality: &EqualityIndex,
        enabled: bool,
        on: bool,
        t: Triple,
    )
        requires
            old(self).ready(r, u, *equality, enabled),
            old(self).all@.contains(t),
            r.transitive == transitive@,
            r.assertion_rules == on,
        ensures
            final(self).progressed(*old(self)),
            final(self).ready(r, u, *equality, enabled),
            (on && r.transitive.contains(t.1)) ==> forall|b: Triple| #[trigger] old(self).all@.contains(b)
                && b.0 == t.2 && b.1 == t.1 ==> holds_expansion(r, final(self).all@, (t.0, t.1, b.2)),
    {
        let ghost start = *self;
        proof {
            lemma_progress_refl(start);
        }
        if !(on && transitive.contains(t.1)) {
            return;
        }
        let next = match self.outgoing.get((t.1, t.2)) {
            Some(set) => set.duplicate(),
            None => crate::idset::IdSet::new(),
        };
        let items = next.as_slice();
        proof {
            assert forall|b: Triple| #[trigger] start.all@.contains(b) && b.0 == t.2 && b.1 == t.1 implies items@.to_set().contains(b.2) by {
                assert((property_subject())(b) == (t.1, t.2) && (object_of())(b) == b.2);
            }
        }
        let n = items.len();
        let mut k: usize = 0;
        while k < n
            invariant
                n == items@.len(),
                items@.to_set() == crate::relation::filed(start.outgoing@, (t.1, t.2)),
                start.outgoing@ == index_by(start.all@, property_subject(), object_of()),
                k <= n,
                self.ready(r, u, *equality, enabled),
                self.progressed(start),
                start.all@.contains(t),
                r.assertion_rules,
                r.transitive.contains(t.1),
                forall|j: int| 0 <= j < k ==> holds_expansion(r, self.all@, (t.0, t.1, #[trigger] items@[j])),
            decreases n - k,
        {
            let x = items[k];
            let ghost before = *self;
            proof {
                assert(items@.to_set().contains(x));
                let b = choose|b: Triple| #[trigger] start.all@.contains(b) && (property_subject())(b) == (t.1, t.2) && (object_of())(b) == x;
                assert(follows(r, t) && triples_over(u).contains(t));
                assert(follows(r, b) && triples_over(u).contains(b));
                assert forall|y: Triple| #[trigger] expansion(r, (t.0, t.1, x)).contains(y) implies follows(r, y) by {
                    crate::property_closure::rules::lemma_transitive_follows(r, t, b, y);
                }
            }
            self.enqueue_derived(Ghost(r), Ghost(u), equality, enabled, (t.0, t.1, x));
            proof {
                lemma_progress_trans(start, before, *self);
            }
            k += 1;
        }
        proof {
            assert forall|b: Triple| #[trigger] start.all@.contains(b) && b.0 == t.2 && b.1 == t.1
                implies holds_expansion(r, self.all@, (t.0, t.1, b.2)) by {
                assert(items@.to_set().contains(b.2));
                let j = choose|j: int| 0 <= j < n && items@[j] == b.2;
            }
        }
    }

    /// Adds `(y, t.1, t.2)` for each `y` before `t` along `t.1` into the
    /// subject of `t`, when `t.1` is transitive.
    fn rule_transitive_backward(
        &mut self,
        Ghost(r): Ghost<RuleInputs>,
        Ghost(u): Ghost<Set<u32>>,
        transitive: &crate::idset::IdSet,
        equality: &EqualityIndex,
        enabled: bool,
        on: bool,
        t: Triple,
    )
        requires
            old(self).ready(r, u, *equality, enabled),
            old(self).all@.contains(t),
            r.transitive == transitive@,
            r.assertion_rules == on,
        ensures
            final(self).progressed(*old(self)),
            final(self).ready(r, u, *equality, enabled),
            (on && r.transitive.contains(t.1)) ==> forall|a: Triple| #[trigger] old(self).all@.contains(a)
                && a.2 == t.0 && a.1 == t.1 ==> holds_expansion(r, final(self).all@, (a.0, t.1, t.2)),
    {
        let ghost start = *self;
        proof {
            lemma_progress_refl(start);
        }
        if !(on && transitive.contains(t.1)) {
            return;
        }
        let previous = match self.incoming.get((t.1, t.0)) {
            Some(set) => set.duplicate(),
            None => crate::idset::IdSet::new(),
        };
        let items = previous.as_slice();
        proof {
            assert forall|a: Triple| #[trigger] start.all@.contains(a) && a.2 == t.0 && a.1 == t.1 implies items@.to_set().contains(a.0) by {
                assert((property_object())(a) == (t.1, t.0) && (subject_of())(a) == a.0);
            }
        }
        let n = items.len();
        let mut k: usize = 0;
        while k < n
            invariant
                n == items@.len(),
                items@.to_set() == crate::relation::filed(start.incoming@, (t.1, t.0)),
                start.incoming@ == index_by(start.all@, property_object(), subject_of()),
                k <= n,
                self.ready(r, u, *equality, enabled),
                self.progressed(start),
                start.all@.contains(t),
                r.assertion_rules,
                r.transitive.contains(t.1),
                forall|j: int| 0 <= j < k ==> holds_expansion(r, self.all@, (#[trigger] items@[j], t.1, t.2)),
            decreases n - k,
        {
            let y = items[k];
            let ghost before = *self;
            proof {
                assert(items@.to_set().contains(y));
                let a = choose|a: Triple| #[trigger] start.all@.contains(a) && (property_object())(a) == (t.1, t.0) && (subject_of())(a) == y;
                assert(follows(r, t) && triples_over(u).contains(t));
                assert(follows(r, a) && triples_over(u).contains(a));
                assert forall|z: Triple| #[trigger] expansion(r, (y, t.1, t.2)).contains(z) implies follows(r, z) by {
                    crate::property_closure::rules::lemma_transitive_follows(r, a, t, z);
                }
            }
            self.enqueue_derived(Ghost(r), Ghost(u), equality, enabled, (y, t.1, t.2));
            proof {
                lemma_progress_trans(start, before, *self);
            }
            k += 1;
        }
        proof {
            assert forall|a: Triple| #[trigger] start.all@.contains(a) && a.2 == t.0 && a.1 == t.1
                implies holds_expansion(r, self.all@, (a.0, t.1, t.2)) by {
                assert(items@.to_set().contains(a.0));
                let j = choose|j: int| 0 <= j < n && items@[j] == a.0;
            }
        }
    }

    /// Adds `(t.0, q, x)` for each chain `(q, t.1, p2)` and each `x` after
    /// the object of `t` along `p2`.
    fn rule_chain_forward(
        &mut self,
        Ghost(r): Ghost<RuleInputs>,
        Ghost(u): Ghost<Set<u32>>,
        plan: &PropertyChainPlan,
        equality: &EqualityIndex,
        enabled: bool,
        on: bool,
        t: Triple,
    )
        requires
            old(self).ready(r, u, *equality, enabled),
            old(self).all@.contains(t),
            r.chains == plan.chain_set(),
            r.assertion_rules == on,
        ensures
            final(self).progressed(*old(self)),
            final(self).ready(r, u, *equality, enabled),
            on ==> forall|b: Triple, q: u32| #[trigger] old(self).all@.contains(b) && b.0 == t.2
                && #[trigger] r.chains.contains((q, t.1, b.1)) ==> holds_expansion(r, final(self).all@, (t.0, q, b.2)),
    {
        let ghost start = *self;
        proof {
            lemma_progress_refl(start);
        }
        if !on {
            return;
        }
        let chains = plan.chains_starting_with(t.1);
        let nc = chains.len();
        let mut ci: usize = 0;
        while ci < nc
            invariant
                nc == chains@.len(),
                forall|c: crate::property_chain::BinaryPropertyChain| #[trigger] chains@.contains(c) <==> plan.chain_set().contains(
                    (c.super_property_id, c.first_property_id, c.second_property_id),
                ) && c.first_property_id == t.1,
                ci <= nc,
                self.ready(r, u, *equality, enabled),
                self.progressed(start),
                start.all@.contains(t),
                r.assertion_rules,
                r.chains == plan.chain_set(),
                forall|j: int, b: Triple| 0 <= j < ci && #[trigger] start.all@.contains(b) && b.0 == t.2 && b.1 == (#[trigger] chains@[j]).second_property_id
                    ==> holds_expansion(r, self.all@, (t.0, chains@[j].super_property_id, b.2)),
            decreases nc - ci,
        {
            let chain = chains[ci];
            proof {
                assert(chains@.contains(chain));
            }
            let next = match self.outgoing.get((chain.second_property_id, t.2)) {
                Some(set) => set.duplicate(),
                None => crate::idset::IdSet::new(),
            };
            let items = next.as_slice();
            let ghost snap = *self;
            proof {
                lemma_progress_refl(snap);
                assert forall|b: Triple| #[trigger] start.all@.contains(b) && b.0 == t.2 && b.1 == chain.second_property_id implies items@.to_set().contains(b.2) by {
                    assert(snap.all@.contains(b));
                    assert((property_subject())(b) == (chain.second_property_id, t.2) && (object_of())(b) == b.2);
                }
            }
            let n = items.len();
            let mut k: usize = 0;
            while k < n
                invariant
                    n == items@.len(),
                    items@.to_set() == crate::relation::filed(snap.outgoing@, (chain.second_property_id, t.2)),
                    snap.outgoing@ == index_by(snap.all@, property_subject(), object_of()),
                    snap.progressed(start),
                    k <= n,
                    self.ready(r, u, *equality, enabled),
                    self.progressed(snap),
                    start.all@.contains(t),
                    r.assertion_rules,
                    r.chains.contains((chain.super_property_id, t.1, chain.second_property_id)),
                    forall|j: int| 0 <= j < k ==> holds_expansion(r, self.all@, (t.0, chain.super_property_id, #[trigger] items@[j])),
                decreases n - k,
            {
                let x = items[k];
                let ghost before = *self;
                proof {
                    assert(items@.to_set().contains(x));
                    let b = choose|b: Triple| #[trigger] snap.all@.contains(b) && (property_subject())(b) == (chain.second_property_id, t.2) && (object_of())(b) == x;
                    assert(follows(r, t) && triples_over(u).contains(t));
                    assert(follows(r, b) && triples_over(u).contains(b));
                    assert(u.contains(chain.super_property_id));
                    assert forall|y: Triple| #[trigger] expansion(r, (t.0, chain.super_property_id, x)).contains(y) implies follows(r, y) by {
                        crate::property_closure::rules::lemma_chain_follows(r, t, b, chain.super_property_id, y);
                    }
                }
                self.enqueue_derived(Ghost(r), Ghost(u), equality, enabled, (t.0, chain.super_property_id, x));
                proof {
                    lemma_progress_trans(snap, before, *self);
                }
                k += 1;
            }
            proof {
                lemma_progress_trans(start, snap, *self);
                assert forall|j: int, b: Triple| 0 <= j < ci + 1 && #[trigger] start.all@.contains(b) && b.0 == t.2 && b.1 == (#[trigger] chains@[j]).second_property_id
                    implies holds_expansion(r, self.all@, (t.0, chains@[j].super_property_id, b.2)) by {
                    if j == ci {
                        assert(items@.to_set().contains(b.2));
                        let m = choose|m: int| 0 <= m < n && items@[m] == b.2;
                    }
                }
            }
            ci += 1;
        }
        proof {
            assert forall|b: Triple, q: u32| #[trigger] start.all@.contains(b) && b.0 == t.2
                && #[trigger] r.chains.contains((q, t.1, b.1)) implies holds_expansion(r, self.all@, (t.0, q, b.2)) by {
                let c = crate::property_chain::BinaryPropertyChain { super_property_id: q, first_property_id: t.1, second_property_id: b.1 };
                assert(chains@.contains(c));
                let j = choose|j: int| 0 <= j < nc && chains@[j] == c;
            }
        }
    }

    /// Adds `(y, q, t.2)` for each chain `(q, p1, t.1)` and each `y` before
    /// the subject of `t` along `p1`.
    fn rule_chain_backward(
        &mut self,
        Ghost(r): Ghost<RuleInputs>,
        Ghost(u): Ghost<Set<u32>>,
        plan: &PropertyChainPlan,
        equality: &EqualityIndex,
        enabled: bool,
        on: bool,
        t: Triple,
    )
        requires
            old(self).ready(r, u, *equality, enabled),
            old(self).all@.contains(t),
            r.chains == plan.chain_set(),
            r.assertion_rules == on,
        ensures
            final(self).progressed(*old(self)),
            final(self).ready(r, u, *equality, enabled),
            on ==> forall|a: Triple, q: u32| #[trigger] old(self).all@.contains(a) && a.2 == t.0
                && #[trigger] r.chains.contains((q, a.1, t.1)) ==> holds_expansion(r, final(self).all@, (a.0, q, t.2)),
    {
        let ghost start = *self;
        proof {
            lemma_progress_refl(start);
        }
        if !on {
            return;
        }
        let chains = plan.chains_ending_with(t.1);
        let nc = chains.len();
        let mut ci: usize = 0;
        while ci < nc
            invariant
                nc == chains@.len(),
                forall|c: crate::property_chain::BinaryPropertyChain| #[trigger] chains@.contains(c) <==> plan.chain_set().contains(
                    (c.super_property_id, c.first_property_id, c.second_property_id),
                ) && c.second_property_id == t.1,
                ci <= nc,
                self.ready(r, u, *equality, enabled),
                self.progressed(start),
                start.all@.contains(t),
                r.assertion_rules,
                r.chains == plan.chain_set(),
                forall|j: int, a: Triple| 0 <= j < ci && #[trigger] start.all@.contains(a) && a.2 == t.0 && a.1 == (#[trigger] chains@[j]).first_property_id
                    ==> holds_expansion(r, self.all@, (a.0, chains@[j].super_property_id, t.2)),
            decreases nc - ci,
        {
            let chain = chains[ci];
            proof {
                assert(chains@.contains(chain));
            }
            let previous = match self.incoming.get((chain.first_property_id, t.0)) {
                Some(set) => set.duplicate(),
                None => crate::idset::IdSet::new(),
            };
            let items = previous.as_slice();
            let ghost snap = *self;
            proof {
                lemma_progress_refl(snap);
                assert forall|a: Triple| #[trigger] start.all@.contains(a) && a.2 == t.0 && a.1 == chain.first_property_id implies items@.to_set().contains(a.0) by {
                    assert(snap.all@.contains(a));
                    assert((property_object())(a) == (chain.first_property_id, t.0) && (subject_of())(a) == a.0);
                }
            }
            let n = items.len();
            let mut k: usize = 0;
            while k < n
                invariant
                    n == items@.len(),
                    items@.to_set() == crate::relation::filed(snap.incoming@, (chain.first_property_id, t.0)),
                    snap.incoming@ == index_by(snap.all@, property_object(), subject_of()),
                    snap.progressed(start),
                    k <= n,
                    self.ready(r, u, *equality, enabled),
                    self.progressed(snap),
                    start.all@.contains(t),
                    r.assertion_rules,
                    r.chains.contains((chain.super_property_id, chain.first_property_id, t.1)),
                    forall|j: int| 0 <= j < k ==> holds_expansion(r, self.all@, (#[trigger] items@[j], chain.super_property_id, t.2)),
                decreases n - k,
            {
                let y = items[k];
                let ghost before = *self;
                proof {
                    assert(items@.to_set().contains(y));
                    let a = choose|a: Triple| #[trigger] snap.all@.contains(a) && (property_object())(a) == (chain.first_property_id, t.0) && (subject_of())(a) == y;
                    assert(follows(r, t) && triples_over(u).contains(t));
                    assert(follows(r, a) && triples_over(u).contains(a));
                    assert(u.contains(chain.super_property_id));
                    assert forall|z: Triple| #[trigger] expansion(r, (y, chain.super_property_id, t.2)).contains(z) implies follows(r, z) by {
                        crate::property_closure::rules::lemma_chain_follows(r, a, t, chain.super_property_id, z);
                    }
                }
                self.enqueue_derived(Ghost(r), Ghost(u), equality, enabled, (y, chain.super_property_id, t.2));
                proof {
                    lemma_progress_trans(snap, before, *self);
                }
                k += 1;
            }
            proof {
                lemma_progress_trans(start, snap, *self);
                assert forall|j: int, a: Triple| 0 <= j < ci + 1 && #[trigger] start.all@.contains(a) && a.2 == t.0 && a.1 == (#[trigger] chains@[j]).first_property_id
                    implies holds_expansion(r, self.all@, (a.0, chains@[j].super_property_id, t.2)) by {
                    if j == ci {
                        assert(items@.to_set().contains(a.0));
                        let m = choose|m: int| 0 <= m < n && items@[m] == a.0;
                    }
                }
            }
            ci += 1;
        }
        proof {
            assert forall|a: Triple, q: u32| #[trigger] start.all@.contains(a) && a.2 == t.0
                && #[trigger] r.chains.contains((q, a.1, t.1)) implies holds_expansion(r, self.all@, (a.0, q, t.2)) by {
                let c = crate::property_chain::BinaryPropertyChain { super_property_id: q, first_property_id: a.1, second_property_id: t.1 };
                assert(chains@.contains(c));
                let j = choose|j: int| 0 <= j < nc && chains@[j] == c;
            }
        }
    }

    /// Applies every rule to `t`, against every assertion so far.
    fn process(
        &mut self,
        Ghost(r): Ghost<RuleInputs>,
        Ghost(u): Ghost<Set<u32>>,
        index: &IndexedDataset,
        taxonomy: &ClosureIndex,
        equality: &EqualityIndex,
        plan: &PropertyChainPlan,
        policy: &RulesMvpFeaturePolicy,
        t: Triple,
    )
        requires
            old(self).ready(r, u, *equality, policy.owl_equality_reasoning == FeatureMode::Enabled),
            old(self).all@.contains(t),
            r == closure_inputs(*index, *taxonomy, *equality, *plan, *policy),
        ensures
            final(self).progressed(*old(self)),
            final(self).ready(r, u, *equality, policy.owl_equality_reasoning == FeatureMode::Enabled),
            single_rules_hold(r, final(self).all@, t),
            forall|b: Triple| #[trigger] old(self).all@.contains(b) ==> pair_rules_hold(r, final(self).all@, t, b)
                && pair_rules_hold(r, final(self).all@, b, t),
    {
        let enabled = policy.owl_equality_reasoning_enabled();
        let assertion_rules = policy.owl_property_assertion_closure_enabled();
        let ghost s0 = *self;
        self.rule_subproperty(Ghost(r), Ghost(u), taxonomy, equality, enabled, policy.rdfs_subproperty_closure_enabled(), t);
        let ghost s1 = *self;
        self.rule_inverse(Ghost(r), Ghost(u), index.inverse_of_pairs(), equality, enabled, assertion_rules, t);
        let ghost s2 = *self;
        self.rule_symmetric(Ghost(r), Ghost(u), index.symmetric_properties(), equality, enabled, assertion_rules, t);
        let ghost s3 = *self;
        self.rule_transitive_forward(Ghost(r), Ghost(u), index.transitive_properties(), equality, enabled, assertion_rules, t);
        let ghost s4 = *self;
        self.rule_transitive_backward(Ghost(r), Ghost(u), index.transitive_properties(), equality, enabled, assertion_rules, t);
        let ghost s5 = *self;
        self.rule_chain_forward(Ghost(r), Ghost(u), plan, equality, enabled, assertion_rules, t);
        let ghost s6 = *self;
        self.rule_chain_backward(Ghost(r), Ghost(u), plan, equality, enabled, assertion_rules, t);
        proof {
            let fin = self.all@;
            lemma_progress_trans(s0, s1, s2);
            lemma_progress_trans(s0, s2, s3);
            lemma_progress_trans(s0, s3, s4);
            lemma_progress_trans(s0, s4, s5);
            lemma_progress_trans(s0, s5, s6);
            lemma_progress_trans(s0, s6, *self);
            if r.subproperty_rule {
                assert forall|q: u32| #[trigger] ancestors(r.subproperties, t.1).contains(q) implies holds_expansion(r, fin, (t.0, q, t.2)) by {
                    assert(holds_expansion(r, s1.all@, (t.0, q, t.2)));
                }
            }
            if r.assertion_rules {
                assert forall|q: u32| #[trigger] successors(r.inverses, t.1).contains(q) implies holds_expansion(r, fin, (t.2, q, t.0)) by {
                    assert(holds_expansion(r, s2.all@, (t.2, q, t.0)));
                }
                if r.symmetric.contains(t.1) {
                    assert(holds_expansion(r, s3.all@, (t.2, t.1, t.0)));
                }
            }
            assert(single_rules_hold(r, fin, t));
            assert forall|b: Triple| #[trigger] s0.all@.contains(b) implies pair_rules_hold(r, fin, t, b)
                && pair_rules_hold(r, fin, b, t) by {
                assert(s3.all@.contains(b) && s4.all@.contains(b) && s5.all@.contains(b) && s6.all@.contains(b));
                if r.assertion_rules && t.2 == b.0 && t.1 == b.1 && r.transitive.contains(t.1) {
                    assert(holds_expansion(r, s4.all@, (t.0, t.1, b.2)));
                }
                if r.assertion_rules && t.2 == b.0 {
                    assert forall|q: u32| #[trigger] r.chains.contains((q, t.1, b.1)) implies holds_expansion(r, fin, (t.0, q, b.2)) by {
                        assert(holds_expansion(r, s6.all@, (t.0, q, b.2)));
                    }
                }
                if r.assertion_rules && b.2 == t.0 && b.1 == t.1 && r.transitive.contains(b.1) {
                    assert(holds_expansion(r, s5.all@, (b.0, t.1, t.2)));
                }
                if r.assertion_rules && b.2 == t.0 {
                    assert forall|q: u32| #[trigger] r.chains.contains((q, b.1, t.1)) implies holds_expansion(r, fin, (b.0, q, t.2)) by {
                        assert(holds_expansion(r, self.all@, (b.0, q, t.2)));
                    }
                }
            }
        }
    }
}

/// What a triple over the universe yields stays over the universe.
proof fn lemma_expansion_in_universe(r: RuleInputs, u: Set<u32>, t: Triple)
    requires
        u == closure_universe(r),
        u.contains(t.0) && u.contains(t.1) && u.contains(t.2),
    ensures
        expansion(r, t).subset_of(triples_over(u)),
{
    assert forall|x: Triple| expansion(r, t).contains(x) implies triples_over(u).contains(x) by {
        if r.equality_rule {
            if is_member(r.equality, t.0) && x.0 != t.0 {
                crate::identity::equality::lemma_cluster_shared(r.equality, t.0, x.0);
            }
            if is_member(r.equality, t.2) && x.2 != t.2 {
                crate::identity::equality::lemma_cluster_shared(r.equality, t.2, x.2);
            }
        }
    }
}

/// An assertion yields itself.
proof fn lemma_expansion_has_self(r: RuleInputs, t: Triple)
    ensures
        expansion(r, t).contains(t),
{
    if r.equality_rule {
        if is_member(r.equality, t.0) {
            crate::identity::equality::lemma_member_in_cluster(r.equality, t.0);
        }
        if is_member(r.equality, t.2) {
            crate::identity::equality::lemma_member_in_cluster(r.equality, t.2);
        }
    }
}

/// Establishes that the universe of the closure inputs is finite.
pub(crate) fn universe_is_finite(
    index: &IndexedDataset,
    taxonomy: &ClosureIndex,
    equality: &EqualityIndex,
    plan: &PropertyChainPlan,
    policy: &RulesMvpFeaturePolicy,
)
    ensures
        closure_universe(closure_inputs(*index, *taxonomy, *equality, *plan, *policy)).finite(),
{
    let ghost r = closure_inputs(*index, *taxonomy, *equality, *plan, *policy);
    let _ = taxonomy.node_count();
    let inverse_nodes = crate::closure_index::collect_nodes(index.inverse_of_pairs());
    let _ = inverse_nodes.len();
    let _ = plan.chain_count();
    let _ = equality.cluster_count();
    let _ = index.reflexive_properties().len();
    let _ = index.observed_named_resources().len();
    proof {
        let p = property_seq(index.vocab(), index.source());
        vstd::seq_lib::seq_to_set_is_finite(p);
        let refl = characteristic_set(index.vocab(), index.source(), TypeKind::Reflexive);
        let obs = observed_set(index.vocab(), index.source());
        crate::property_closure::rules::lemma_triples_over_finite(refl.union(obs));
        let seeds_bound = p.to_set().union(triples_over(refl.union(obs)));
        assert(r.seeds.subset_of(seeds_bound));
        vstd::set_lib::lemma_len_subset(r.seeds, seeds_bound);
        let f0 = |t: Triple| t.0;
        let f1 = |t: Triple| t.1;
        let f2 = |t: Triple| t.2;
        r.seeds.lemma_map_finite(f0);
        r.seeds.lemma_map_finite(f1);
        r.seeds.lemma_map_finite(f2);
        r.chains.lemma_map_finite(f0);
        crate::identity::equality::lemma_members_finite(r.equality);
        let bound = r.seeds.map(f0).union(r.seeds.map(f1)).union(r.seeds.map(f2)).union(
            graph_nodes(r.subproperties),
        ).union(graph_nodes(r.inverses)).union(r.chains.map(f0)).union(
            crate::identity::equality::same_as_edges(r.equality).dom(),
        );
        assert(closure_universe(r).subset_of(bound)) by {
            assert forall|x: u32| closure_universe(r).contains(x) implies bound.contains(x) by {
                if exists|t: Triple| #[trigger] r.seeds.contains(t) && (t.0 == x || t.1 == x || t.2 == x) {
                    let t = choose|t: Triple| #[trigger] r.seeds.contains(t) && (t.0 == x || t.1 == x || t.2 == x);
                    if t.0 == x {
                        assert(r.seeds.map(f0).contains(x));
                    } else if t.1 == x {
                        assert(r.seeds.map(f1).contains(x));
                    } else {
                        assert(r.seeds.map(f2).contains(x));
                    }
                } else if exists|c: Triple| #[trigger] r.chains.contains(c) && c.0 == x {
                    let c = choose|c: Triple| #[trigger] r.chains.contains(c) && c.0 == x;
                    assert(r.chains.map(f0).contains(x));
                }
            }
        }
        vstd::set_lib::lemma_len_subset(closure_universe(r), bound);
    }
}

proof fn lemma_progress_refl(s: ClosureState)
    requires
        s.wf(),
    ensures
        s.progressed(s),
{
    assert(s.queue@.take(s.queue@.len() as int) =~= s.queue@);
    assert(s.derived@.union(s.all@.difference(s.all@)) =~= s.derived@);
}

proof fn lemma_progress_trans(a: ClosureState, b: ClosureState, c: ClosureState)
    requires
        b.progressed(a),
        c.progressed(b),
    ensures
        c.progressed(a),
{
    assert(c.queue@.take(a.queue@.len() as int) =~= a.queue@) by {
        assert(c.queue@.take(b.queue@.len() as int) == b.queue@);
        assert(b.queue@.take(a.queue@.len() as int) == a.queue@);
        assert forall|i: int| 0 <= i < a.queue@.len() implies c.queue@[i] == a.queue@[i] by {
            assert(c.queue@[i] == c.queue@.take(b.queue@.len() as int)[i]);
            assert(b.queue@[i] == b.queue@.take(a.queue@.len() as int)[i]);
        }
    }
    assert(c.derived@ =~= a.derived@.union(c.all@.difference(a.all@)));
}

/// A node that reaches another is a key of the graph.
pub proof fn lemma_reached_from_node(edges: Map<u32, Set<u32>>, n: u32, m: u32)
    requires
        ancestors(edges, n).contains(m),
    ensures
        graph_nodes(edges).contains(n),
{
    let l = choose|l: nat| #[trigger] crate::closure_index::reaches_in(edges, n, m, l);
    if l == 1 {
        assert(edges.contains_key(n));
    } else {
        let p = choose|p: u32|
            #![trigger successors(edges, n).contains(p)]
            successors(edges, n).contains(p) && crate::closure_index::reaches_in(edges, p, m, (l - 1) as nat);
        assert(edges.contains_key(n));
    }
}

} // verus!
