use vstd::prelude::*;

use crate::closure_index::{ancestors, successors};
use crate::identity::equality::{cluster, is_member};

verus! {

/// An assertion `(subject, property, object)`.
pub type Triple = (u32, u32, u32);

/// What the property rules read: the seed assertions, the property
/// hierarchy, the inverse pairs, the symmetric and transitive properties,
/// the binary chains `(super, first, second)`, the `owl:sameAs` pairs, and
/// which rules are switched on.
pub struct RuleInputs {
    pub seeds: Set<Triple>,
    pub subproperties: Map<u32, Set<u32>>,
    pub inverses: Map<u32, Set<u32>>,
    pub symmetric: Set<u32>,
    pub transitive: Set<u32>,
    pub chains: Set<Triple>,
    pub equality: Set<(u32, u32)>,
    pub subproperty_rule: bool,
    pub assertion_rules: bool,
    pub equality_rule: bool,
}

/// The resources `x` stands for: its `owl:sameAs` cluster, or itself.
pub open spec fn equals_of(eq: Set<(u32, u32)>, x: u32) -> Set<u32> {
    if is_member(eq, x) {
        cluster(eq, x)
    } else {
        Set::empty().insert(x)
    }
}

/// The assertions that `t` yields through equality: every subject and
/// object it stands for, when the equality rule is on.
pub open spec fn expansion(r: RuleInputs, t: Triple) -> Set<Triple> {
    if r.equality_rule {
        Set::new(
            |u: Triple|
                equals_of(r.equality, t.0).contains(u.0) && u.1 == t.1 && equals_of(
                    r.equality,
                    t.2,
                ).contains(u.2),
        )
    } else {
        Set::empty().insert(t)
    }
}

/// `s` holds what `t` yields.
pub open spec fn holds_expansion(r: RuleInputs, s: Set<Triple>, t: Triple) -> bool {
    expansion(r, t).subset_of(s)
}

/// The conclusions of the one-premise rules from `t` are in `s`.
pub open spec fn single_rules_hold(r: RuleInputs, s: Set<Triple>, t: Triple) -> bool {
    &&& r.subproperty_rule ==> forall|q: u32| #[trigger]
        ancestors(r.subproperties, t.1).contains(q) ==> holds_expansion(r, s, (t.0, q, t.2))
    &&& r.assertion_rules ==> forall|q: u32| #[trigger]
        successors(r.inverses, t.1).contains(q) ==> holds_expansion(r, s, (t.2, q, t.0))
    &&& (r.assertion_rules && r.symmetric.contains(t.1)) ==> holds_expansion(r, s, (t.2, t.1, t.0))
}

/// The conclusions of the two-premise rules from `a` then `b` are in `s`.
pub open spec fn pair_rules_hold(r: RuleInputs, s: Set<Triple>, a: Triple, b: Triple) -> bool {
    &&& (r.assertion_rules && a.2 == b.0 && a.1 == b.1 && r.transitive.contains(a.1))
        ==> holds_expansion(r, s, (a.0, a.1, b.2))
    &&& (r.assertion_rules && a.2 == b.0) ==> forall|q: u32| #[trigger]
        r.chains.contains((q, a.1, b.1)) ==> holds_expansion(r, s, (a.0, q, b.2))
}

/// `s` holds what every seed yields and is closed under every rule.
pub open spec fn closed_under_rules(r: RuleInputs, s: Set<Triple>) -> bool {
    &&& forall|t: Triple| #[trigger] r.seeds.contains(t) ==> holds_expansion(r, s, t)
    &&& forall|t: Triple| #[trigger] s.contains(t) ==> single_rules_hold(r, s, t)
    &&& forall|a: Triple, b: Triple| #[trigger] s.contains(a) && #[trigger] s.contains(b) ==> pair_rules_hold(r, s, a, b)
}

/// `t` is in every set closed under the rules: it follows from the seeds.
pub open spec fn follows(r: RuleInputs, t: Triple) -> bool {
    forall|s: Set<Triple>| #[trigger] closed_under_rules(r, s) ==> s.contains(t)
}

/// The closure: every assertion that follows from the seeds.
pub open spec fn closure(r: RuleInputs) -> Set<Triple> {
    Set::new(|t: Triple| follows(r, t))
}

/// Law: the closure holds the seeds and is closed under every rule, and
/// every set with those properties holds it (it is the least such set).
pub proof fn law_closure_is_least(r: RuleInputs, s: Set<Triple>)
    requires
        closed_under_rules(r, s),
    ensures
        closure(r).subset_of(s),
{
}

/// Law: what one of the rules concludes from assertions that follow from
/// the seeds, or what a seed yields, follows from the seeds too.
pub proof fn lemma_expansion_follows(r: RuleInputs, t: Triple, u: Triple)
    requires
        r.seeds.contains(t),
        expansion(r, t).contains(u),
    ensures
        follows(r, u),
{
    assert forall|s: Set<Triple>| #[trigger] closed_under_rules(r, s) implies s.contains(u) by {
        assert(r.seeds.contains(t));
    }
}

/// Law: the closure is itself closed under every rule: it holds what each
/// seed yields, and what each rule concludes from assertions in it.
pub proof fn law_closure_is_closed(r: RuleInputs)
    ensures
        closed_under_rules(r, closure(r)),
{
    let c = closure(r);
    assert forall|t: Triple| #[trigger] r.seeds.contains(t) implies holds_expansion(r, c, t) by {
        assert forall|u: Triple| expansion(r, t).contains(u) implies c.contains(u) by {
            lemma_expansion_follows(r, t, u);
        }
    }
    assert forall|t: Triple| #[trigger] c.contains(t) implies single_rules_hold(r, c, t) by {
        if r.subproperty_rule {
            assert forall|q: u32| #[trigger] ancestors(r.subproperties, t.1).contains(q) implies holds_expansion(r, c, (t.0, q, t.2)) by {
                assert forall|u: Triple| expansion(r, (t.0, q, t.2)).contains(u) implies c.contains(u) by {
                    lemma_subproperty_follows(r, t, q, u);
                }
            }
        }
        if r.assertion_rules {
            assert forall|q: u32| #[trigger] successors(r.inverses, t.1).contains(q) implies holds_expansion(r, c, (t.2, q, t.0)) by {
                assert forall|u: Triple| expansion(r, (t.2, q, t.0)).contains(u) implies c.contains(u) by {
                    lemma_inverse_follows(r, t, q, u);
                }
            }
            if r.symmetric.contains(t.1) {
                assert forall|u: Triple| expansion(r, (t.2, t.1, t.0)).contains(u) implies c.contains(u) by {
                    lemma_symmetric_follows(r, t, u);
                }
            }
        }
    }
    assert forall|a: Triple, b: Triple| #[trigger] c.contains(a) && #[trigger] c.contains(b) implies pair_rules_hold(r, c, a, b) by {
        if r.assertion_rules && a.2 == b.0 && a.1 == b.1 && r.transitive.contains(a.1) {
            assert forall|u: Triple| expansion(r, (a.0, a.1, b.2)).contains(u) implies c.contains(u) by {
                lemma_transitive_follows(r, a, b, u);
            }
        }
        if r.assertion_rules && a.2 == b.0 {
            assert forall|q: u32| #[trigger] r.chains.contains((q, a.1, b.1)) implies holds_expansion(r, c, (a.0, q, b.2)) by {
                assert forall|u: Triple| expansion(r, (a.0, q, b.2)).contains(u) implies c.contains(u) by {
                    lemma_chain_follows(r, a, b, q, u);
                }
            }
        }
    }
}

/// The resources that `b`, one of those `a` stands for, stands for are
/// those `a` stands for.
pub proof fn lemma_equals_shared(eq: Set<(u32, u32)>, a: u32, b: u32)
    requires
        equals_of(eq, a).contains(b),
    ensures
        equals_of(eq, b) == equals_of(eq, a),
{
    if is_member(eq, a) {
        crate::identity::equality::lemma_cluster_shared(eq, a, b);
    } else {
        assert(b == a);
    }
}

/// What `c` yields, each assertion it yields yields alike.
pub proof fn lemma_expansion_shared(r: RuleInputs, c: Triple, u: Triple)
    requires
        expansion(r, c).contains(u),
    ensures
        expansion(r, u) == expansion(r, c),
{
    if r.equality_rule {
        lemma_equals_shared(r.equality, c.0, u.0);
        lemma_equals_shared(r.equality, c.2, u.2);
        assert(expansion(r, u) =~= expansion(r, c));
    } else {
        assert(u == c);
    }
}

/// The members of the closure whose whole expansion is in the closure.
spec fn expanded_members(r: RuleInputs) -> Set<Triple> {
    closure(r).filter(|x: Triple| expansion(r, x).subset_of(closure(r)))
}

/// What the closure holds of `x`'s expansion, `expanded_members` holds.
proof fn lemma_lift_expansion(r: RuleInputs, x: Triple)
    requires
        holds_expansion(r, closure(r), x),
    ensures
        holds_expansion(r, expanded_members(r), x),
{
    assert forall|v: Triple| expansion(r, x).contains(v) implies expanded_members(r).contains(v) by {
        lemma_expansion_shared(r, x, v);
    }
}

/// Law: with the equality rule on, the closure holds an assertion for
/// every resource the same as the subject and every resource the same
/// as the object of each of its assertions: it holds all that each of
/// its assertions yields.
pub proof fn law_closure_closed_under_equality(r: RuleInputs, t: Triple, u: Triple)
    requires
        closure(r).contains(t),
        expansion(r, t).contains(u),
    ensures
        closure(r).contains(u),
{
    let c = closure(r);
    let s = expanded_members(r);
    law_closure_is_closed(r);
    assert forall|x: Triple| #[trigger] r.seeds.contains(x) implies holds_expansion(r, s, x) by {
        lemma_lift_expansion(r, x);
    }
    assert forall|x: Triple| #[trigger] s.contains(x) implies single_rules_hold(r, s, x) by {
        assert(c.contains(x));
        assert(single_rules_hold(r, c, x));
        if r.subproperty_rule {
            assert forall|q: u32| #[trigger] ancestors(r.subproperties, x.1).contains(q) implies holds_expansion(r, s, (x.0, q, x.2)) by {
                lemma_lift_expansion(r, (x.0, q, x.2));
            }
        }
        if r.assertion_rules {
            assert forall|q: u32| #[trigger] successors(r.inverses, x.1).contains(q) implies holds_expansion(r, s, (x.2, q, x.0)) by {
                lemma_lift_expansion(r, (x.2, q, x.0));
            }
            if r.symmetric.contains(x.1) {
                lemma_lift_expansion(r, (x.2, x.1, x.0));
            }
        }
    }
    assert forall|a: Triple, b: Triple| #[trigger] s.contains(a) && #[trigger] s.contains(b) implies pair_rules_hold(r, s, a, b) by {
        assert(c.contains(a) && c.contains(b));
        assert(pair_rules_hold(r, c, a, b));
        if r.assertion_rules && a.2 == b.0 && a.1 == b.1 && r.transitive.contains(a.1) {
            lemma_lift_expansion(r, (a.0, a.1, b.2));
        }
        if r.assertion_rules && a.2 == b.0 {
            assert forall|q: u32| #[trigger] r.chains.contains((q, a.1, b.1)) implies holds_expansion(r, s, (a.0, q, b.2)) by {
                lemma_lift_expansion(r, (a.0, q, b.2));
            }
        }
    }
    law_closure_is_least(r, s);
    assert(s.contains(t));
}


/// What the subproperty rule concludes from an assertion that follows,
/// follows.
pub proof fn lemma_subproperty_follows(r: RuleInputs, t: Triple, q: u32, u: Triple)
    requires
        follows(r, t),
        r.subproperty_rule,
        ancestors(r.subproperties, t.1).contains(q),
        expansion(r, (t.0, q, t.2)).contains(u),
    ensures
        follows(r, u),
{
    assert forall|s: Set<Triple>| #[trigger] closed_under_rules(r, s) implies s.contains(u) by {
        assert(s.contains(t));
        assert(single_rules_hold(r, s, t));
    }
}

/// What the inverse rule concludes from an assertion that follows,
/// follows.
pub proof fn lemma_inverse_follows(r: RuleInputs, t: Triple, q: u32, u: Triple)
    requires
        follows(r, t),
        r.assertion_rules,
        successors(r.inverses, t.1).contains(q),
        expansion(r, (t.2, q, t.0)).contains(u),
    ensures
        follows(r, u),
{
    assert forall|s: Set<Triple>| #[trigger] closed_under_rules(r, s) implies s.contains(u) by {
        assert(s.contains(t));
        assert(single_rules_hold(r, s, t));
    }
}

/// What the symmetry rule concludes from an assertion that follows,
/// follows.
pub proof fn lemma_symmetric_follows(r: RuleInputs, t: Triple, u: Triple)
    requires
        follows(r, t),
        r.assertion_rules,
        r.symmetric.contains(t.1),
        expansion(r, (t.2, t.1, t.0)).contains(u),
    ensures
        follows(r, u),
{
    assert forall|s: Set<Triple>| #[trigger] closed_under_rules(r, s) implies s.contains(u) by {
        assert(s.contains(t));
        assert(single_rules_hold(r, s, t));
    }
}

/// What the transitivity rule concludes from assertions that follow,
/// follows.
pub proof fn lemma_transitive_follows(r: RuleInputs, a: Triple, b: Triple, u: Triple)
    requires
        follows(r, a),
        follows(r, b),
        r.assertion_rules,
        a.2 == b.0,
        a.1 == b.1,
        r.transitive.contains(a.1),
        expansion(r, (a.0, a.1, b.2)).contains(u),
    ensures
        follows(r, u),
{
    assert forall|s: Set<Triple>| #[trigger] closed_under_rules(r, s) implies s.contains(u) by {
        assert(s.contains(a) && s.contains(b));
        assert(pair_rules_hold(r, s, a, b));
    }
}

/// What the chain rule concludes from assertions that follow, follows.
pub proof fn lemma_chain_follows(r: RuleInputs, a: Triple, b: Triple, q: u32, u: Triple)
    requires
        follows(r, a),
        follows(r, b),
        r.assertion_rules,
        a.2 == b.0,
        r.chains.contains((q, a.1, b.1)),
        expansion(r, (a.0, q, b.2)).contains(u),
    ensures
        follows(r, u),
{
    assert forall|s: Set<Triple>| #[trigger] closed_under_rules(r, s) implies s.contains(u) by {
        assert(s.contains(a) && s.contains(b));
        assert(pair_rules_hold(r, s, a, b));
    }
}

/// The pairs over `u`.
pub open spec fn pairs_over(u: Set<u32>) -> Set<(u32, u32)> {
    Set::new(|p: (u32, u32)| u.contains(p.0) && u.contains(p.1))
}

/// The triples over `u`.
pub open spec fn triples_over(u: Set<u32>) -> Set<Triple> {
    Set::new(|t: Triple| u.contains(t.0) && u.contains(t.1) && u.contains(t.2))
}

pub proof fn lemma_pairs_over_finite(u: Set<u32>)
    requires
        u.finite(),
    ensures
        pairs_over(u).finite(),
    decreases u.len(),
{
    if u.len() == 0 {
        assert(pairs_over(u) =~= Set::<(u32, u32)>::empty()) by {
            assert forall|p: (u32, u32)| !pairs_over(u).contains(p) by {
                if u.contains(p.0) {
                    assert(u.len() != 0);
                }
            }
        }
    } else {
        let a = u.choose();
        assert(u.contains(a)) by {
            if !u.contains(a) {
                assert(u =~= Set::<u32>::empty());
            }
        }
        let rest = u.remove(a);
        lemma_pairs_over_finite(rest);
        let left = u.map(|y: u32| (a, y));
        let right = u.map(|x: u32| (x, a));
        u.lemma_map_finite(|y: u32| (a, y));
        u.lemma_map_finite(|x: u32| (x, a));
        assert(pairs_over(u).subset_of(pairs_over(rest).union(left).union(right))) by {
            assert forall|p: (u32, u32)| pairs_over(u).contains(p) implies pairs_over(rest).union(left).union(right).contains(p) by {
                if p.0 == a {
                    assert(left.contains(p)) by {
                        assert(u.contains(p.1) && (|y: u32| (a, y))(p.1) == p);
                    }
                } else if p.1 == a {
                    assert(right.contains(p)) by {
                        assert(u.contains(p.0) && (|x: u32| (x, a))(p.0) == p);
                    }
                }
            }
        }
        vstd::set_lib::lemma_len_subset(pairs_over(u), pairs_over(rest).union(left).union(right));
    }
}

/// The triples over a finite set are finitely many.
pub proof fn lemma_triples_over_finite(u: Set<u32>)
    requires
        u.finite(),
    ensures
        triples_over(u).finite(),
    decreases u.len(),
{
    if u.len() == 0 {
        assert(triples_over(u) =~= Set::<Triple>::empty()) by {
            assert forall|t: Triple| !triples_over(u).contains(t) by {
                if u.contains(t.0) {
                    assert(u.len() != 0);
                }
            }
        }
    } else {
        let a = u.choose();
        assert(u.contains(a)) by {
            if !u.contains(a) {
                assert(u =~= Set::<u32>::empty());
            }
        }
        let rest = u.remove(a);
        lemma_triples_over_finite(rest);
        lemma_pairs_over_finite(u);
        let ps = pairs_over(u);
        let f0 = |p: (u32, u32)| (a, p.0, p.1);
        let f1 = |p: (u32, u32)| (p.0, a, p.1);
        let f2 = |p: (u32, u32)| (p.0, p.1, a);
        ps.lemma_map_finite(f0);
        ps.lemma_map_finite(f1);
        ps.lemma_map_finite(f2);
        let bound = triples_over(rest).union(ps.map(f0)).union(ps.map(f1)).union(ps.map(f2));
        assert(triples_over(u).subset_of(bound)) by {
            assert forall|t: Triple| triples_over(u).contains(t) implies bound.contains(t) by {
                if t.0 == a {
                    assert(ps.contains((t.1, t.2)) && f0((t.1, t.2)) == t);
                } else if t.1 == a {
                    assert(ps.contains((t.0, t.2)) && f1((t.0, t.2)) == t);
                } else if t.2 == a {
                    assert(ps.contains((t.0, t.1)) && f2((t.0, t.1)) == t);
                }
            }
        }
        vstd::set_lib::lemma_len_subset(triples_over(u), bound);
    }
}

/// The one-premise conclusions stay held as the set grows.
pub proof fn lemma_single_mono(r: RuleInputs, s1: Set<Triple>, s2: Set<Triple>, t: Triple)
    requires
        single_rules_hold(r, s1, t),
        s1.subset_of(s2),
    ensures
        single_rules_hold(r, s2, t),
{
    if r.subproperty_rule {
        assert forall|q: u32| #[trigger] ancestors(r.subproperties, t.1).contains(q) implies holds_expansion(r, s2, (t.0, q, t.2)) by {
            assert(holds_expansion(r, s1, (t.0, q, t.2)));
        }
    }
    if r.assertion_rules {
        assert forall|q: u32| #[trigger] successors(r.inverses, t.1).contains(q) implies holds_expansion(r, s2, (t.2, q, t.0)) by {
            assert(holds_expansion(r, s1, (t.2, q, t.0)));
        }
    }
}

/// The two-premise conclusions stay held as the set grows.
pub proof fn lemma_pair_mono(r: RuleInputs, s1: Set<Triple>, s2: Set<Triple>, a: Triple, b: Triple)
    requires
        pair_rules_hold(r, s1, a, b),
        s1.subset_of(s2),
    ensures
        pair_rules_hold(r, s2, a, b),
{
    if r.assertion_rules && a.2 == b.0 {
        assert forall|q: u32| #[trigger] r.chains.contains((q, a.1, b.1)) implies holds_expansion(r, s2, (a.0, q, b.2)) by {
            assert(holds_expansion(r, s1, (a.0, q, b.2)));
        }
    }
}

} // verus!
