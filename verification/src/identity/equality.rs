use vstd::prelude::*;

use crate::closure_index::{
    ancestors, graph_nodes, lemma_reaches_in_append, lemma_reaches_in_snoc, reaches_in,
    successors, ClosureIndex,
};
use crate::dataset_index::spec::same_as_seq;
use crate::dataset_index::IndexedDataset;
use crate::idset::{IdSet, IdSetMap};
use crate::pairs::PairSet;

verus! {

/// The `owl:sameAs` graph of a set of pairs: an edge in both directions
/// for each pair.
pub open spec fn same_as_edges(ps: Set<(u32, u32)>) -> Map<u32, Set<u32>> {
    Map::new(
        |a: u32| exists|b: u32| #[trigger] related(ps, a, b),
        |a: u32| Set::new(|b: u32| related(ps, a, b)),
    )
}

/// `(a, b)` or `(b, a)` is one of the pairs.
pub open spec fn related(ps: Set<(u32, u32)>, a: u32, b: u32) -> bool {
    ps.contains((a, b)) || ps.contains((b, a))
}

/// `a` occurs in one of the pairs.
pub open spec fn is_member(ps: Set<(u32, u32)>, a: u32) -> bool {
    same_as_edges(ps).contains_key(a)
}

/// The equality cluster of a member: every resource connected to it
/// through `owl:sameAs` pairs, itself included.
pub open spec fn cluster(ps: Set<(u32, u32)>, a: u32) -> Set<u32> {
    ancestors(same_as_edges(ps), a)
}

/// `m` is the least member of `s`.
pub open spec fn is_least(s: Set<u32>, m: u32) -> bool {
    s.contains(m) && forall|x: u32| #[trigger] s.contains(x) ==> m <= x
}

/// The least member of `s`.
pub open spec fn least(s: Set<u32>) -> u32 {
    choose|m: u32| is_least(s, m)
}

/// The canonical resource of `a`: the least member of its cluster, or `a`
/// itself when it occurs in no pair.
pub open spec fn canonical(ps: Set<(u32, u32)>, a: u32) -> u32 {
    if is_member(ps, a) {
        least(cluster(ps, a))
    } else {
        a
    }
}

/// `a` and `b` are the same resource under the pairs `ps`.
pub open spec fn equivalent(ps: Set<(u32, u32)>, a: u32, b: u32) -> bool {
    canonical(ps, a) == canonical(ps, b)
}

/// The canonical resources of all the clusters.
pub open spec fn canonicals(ps: Set<(u32, u32)>) -> Set<u32> {
    Set::new(|c: u32| exists|a: u32| is_member(ps, a) && c == #[trigger] canonical(ps, a))
}

proof fn lemma_symmetric_reverse(ps: Set<(u32, u32)>, a: u32, b: u32, len: nat)
    requires
        reaches_in(same_as_edges(ps), a, b, len),
    ensures
        reaches_in(same_as_edges(ps), b, a, len),
    decreases len,
{
    let e = same_as_edges(ps);
    if len == 1 {
        assert(related(ps, a, b));
        assert(related(ps, b, a));
        assert(e.contains_key(b));
        assert(e[b].contains(a));
    } else {
        let p = choose|p: u32|
            #![trigger successors(e, a).contains(p)]
            successors(e, a).contains(p) && reaches_in(e, p, b, (len - 1) as nat);
        lemma_symmetric_reverse(ps, p, b, (len - 1) as nat);
        assert(e[a].contains(p));
        assert(related(ps, p, a));
        assert(e.contains_key(p));
        assert(e[p].contains(a));
        lemma_reaches_in_snoc(e, b, p, a, (len - 1) as nat);
    }
}

/// A member is in its own cluster.
pub proof fn lemma_member_in_cluster(ps: Set<(u32, u32)>, a: u32)
    requires
        is_member(ps, a),
    ensures
        cluster(ps, a).contains(a),
{
    let e = same_as_edges(ps);
    let b = choose|b: u32| #[trigger] related(ps, a, b);
    assert(e[a].contains(b));
    assert(related(ps, b, a));
    assert(e.contains_key(b));
    assert(e[b].contains(a));
    assert(reaches_in(e, a, b, 1));
    lemma_reaches_in_snoc(e, a, b, a, 1);
    assert(reaches_in(e, a, a, 2));
}

/// Every node of the graph is a member, and conversely.
proof fn lemma_nodes_are_members(ps: Set<(u32, u32)>)
    ensures
        graph_nodes(same_as_edges(ps)) == same_as_edges(ps).dom(),
{
    let e = same_as_edges(ps);
    assert forall|x: u32| graph_nodes(e).contains(x) implies e.contains_key(x) by {
        if !e.contains_key(x) {
            let k = choose|k: u32| #[trigger] e.contains_key(k) && e[k].contains(x);
            assert(related(ps, x, k));
        }
    }
    assert(graph_nodes(e) =~= e.dom());
}

/// Members of one cluster share it.
pub proof fn lemma_cluster_shared(ps: Set<(u32, u32)>, a: u32, b: u32)
    requires
        cluster(ps, a).contains(b),
    ensures
        cluster(ps, b) == cluster(ps, a),
        is_member(ps, a),
        is_member(ps, b),
{
    let e = same_as_edges(ps);
    let l = choose|l: nat| #[trigger] reaches_in(e, a, b, l);
    lemma_symmetric_reverse(ps, a, b, l);
    assert forall|x: u32| cluster(ps, b).contains(x) <==> cluster(ps, a).contains(x) by {
        if cluster(ps, b).contains(x) {
            let l2 = choose|l2: nat| #[trigger] reaches_in(e, b, x, l2);
            lemma_reaches_in_append(e, a, b, x, l, l2);
        }
        if cluster(ps, a).contains(x) {
            let l2 = choose|l2: nat| #[trigger] reaches_in(e, a, x, l2);
            lemma_reaches_in_append(e, b, a, x, l, l2);
        }
    }
    assert(cluster(ps, b) =~= cluster(ps, a));
    crate::closure_index::law_ancestors_are_nodes(e, a, b);
    lemma_nodes_are_members(ps);
    assert(reaches_in(e, b, a, l));
    assert(ancestors(e, b).contains(a));
    crate::closure_index::law_ancestors_are_nodes(e, b, a);
}

/// The least member of a set is unique.
proof fn lemma_least(s: Set<u32>, m: u32)
    requires
        is_least(s, m),
    ensures
        least(s) == m,
{
    let c = least(s);
    assert(is_least(s, c));
    assert(c <= m && m <= c);
}

/// The canonical resource of a member lies in its cluster and is its own
/// canonical resource.
proof fn lemma_canonical_of_member(ps: Set<(u32, u32)>, a: u32, c: u32)
    requires
        is_member(ps, a),
        is_least(cluster(ps, a), c),
    ensures
        canonical(ps, a) == c,
        cluster(ps, c) == cluster(ps, a),
        is_member(ps, c),
        canonical(ps, c) == c,
{
    lemma_least(cluster(ps, a), c);
    lemma_cluster_shared(ps, a, c);
    lemma_least(cluster(ps, c), c);
}

/// Law: two resources are equivalent exactly when they are the same
/// resource or connected through `owl:sameAs` pairs.
pub proof fn law_equivalent_iff_connected(ps: Set<(u32, u32)>, a: u32, b: u32)
    requires
        ps.finite(),
    ensures
        equivalent(ps, a, b) <==> (a == b || (is_member(ps, a) && cluster(ps, a).contains(b))),
{
    if is_member(ps, a) {
        lemma_member_in_cluster(ps, a);
        lemma_cluster_has_least(ps, a);
        let ca = least(cluster(ps, a));
        lemma_canonical_of_member(ps, a, ca);
        if cluster(ps, a).contains(b) {
            lemma_cluster_shared(ps, a, b);
            assert(canonical(ps, b) == least(cluster(ps, b)));
        }
        if equivalent(ps, a, b) && a != b {
            if is_member(ps, b) {
                lemma_member_in_cluster(ps, b);
                lemma_cluster_has_least(ps, b);
                let cb = least(cluster(ps, b));
                lemma_canonical_of_member(ps, b, cb);
                assert(ca == cb);
                lemma_cluster_shared(ps, b, cb);
                assert(cluster(ps, a).contains(b));
            } else {
                assert(canonical(ps, b) == b);
                assert(cluster(ps, a).contains(b));
            }
        }
    } else {
        if equivalent(ps, a, b) && a != b {
            assert(canonical(ps, a) == a);
            if is_member(ps, b) {
                lemma_member_in_cluster(ps, b);
                lemma_cluster_has_least(ps, b);
                let cb = least(cluster(ps, b));
                lemma_canonical_of_member(ps, b, cb);
                assert(cb == a);
                assert(is_member(ps, a));
            }
        }
    }
}

/// A cluster of finitely many pairs has a least member.
proof fn lemma_cluster_has_least(ps: Set<(u32, u32)>, a: u32)
    requires
        ps.finite(),
        is_member(ps, a),
    ensures
        is_least(cluster(ps, a), least(cluster(ps, a))),
{
    lemma_member_in_cluster(ps, a);
    lemma_members_finite(ps);
    let s = cluster(ps, a);
    assert forall|x: u32| s.contains(x) implies same_as_edges(ps).dom().contains(x) by {
        crate::closure_index::law_ancestors_are_nodes(same_as_edges(ps), a, x);
        lemma_nodes_are_members(ps);
    }
    vstd::set_lib::lemma_len_subset(s, same_as_edges(ps).dom());
    lemma_finite_set_has_least(s, a);
}

/// The members of finitely many pairs are finitely many.
pub proof fn lemma_members_finite(ps: Set<(u32, u32)>)
    requires
        ps.finite(),
    ensures
        same_as_edges(ps).dom().finite(),
{
    let lefts = ps.map(|p: (u32, u32)| p.0);
    let rights = ps.map(|p: (u32, u32)| p.1);
    ps.lemma_map_finite(|p: (u32, u32)| p.0);
    ps.lemma_map_finite(|p: (u32, u32)| p.1);
    assert forall|x: u32| same_as_edges(ps).dom().contains(x) implies lefts.union(rights).contains(x) by {
        let b = choose|b: u32| #[trigger] related(ps, x, b);
        if ps.contains((x, b)) {
            assert(lefts.contains(x));
        } else {
            assert(rights.contains(x));
        }
    }
    vstd::set_lib::lemma_len_subset(same_as_edges(ps).dom(), lefts.union(rights));
}

/// A finite nonempty set of ids has a least member.
pub proof fn lemma_finite_set_has_least(s: Set<u32>, a: u32)
    requires
        s.finite(),
        s.contains(a),
    ensures
        exists|m: u32| is_least(s, m),
    decreases s.len(),
{
    if s.len() == 1 {
        assert forall|x: u32| s.contains(x) implies a <= x by {
            if x != a {
                assert(s.remove(a).contains(x));
                assert(s.remove(a).len() == 0);
            }
        }
        assert(is_least(s, a));
    } else {
        let rest = s.remove(a);
        assert(rest.len() > 0);
        let b = rest.choose();
        assert(rest.contains(b)) by {
            assert(rest.len() != 0);
            if !rest.contains(b) {
                assert(rest =~= Set::<u32>::empty());
            }
        }
        lemma_finite_set_has_least(rest, b);
        let m = choose|m: u32| is_least(rest, m);
        if a < m {
            assert(is_least(s, a));
        } else {
            assert(is_least(s, m));
        }
    }
}

proof fn lemma_same_as_edges_insert(ps: Set<(u32, u32)>, a: u32, b: u32)
    ensures
        same_as_edges(ps.insert((a, b))) == crate::dataset_index::spec::add_edge(
            crate::dataset_index::spec::add_edge(same_as_edges(ps), a, b),
            b,
            a,
        ),
        same_as_edges(Set::empty()) == Map::<u32, Set<u32>>::empty(),
{
    let lhs = same_as_edges(ps.insert((a, b)));
    let rhs = crate::dataset_index::spec::add_edge(
        crate::dataset_index::spec::add_edge(same_as_edges(ps), a, b),
        b,
        a,
    );
    assert forall|x: u32| #[trigger] lhs.contains_key(x) <==> rhs.contains_key(x) by {
        if lhs.contains_key(x) && x != a && x != b {
            let y = choose|y: u32| #[trigger] related(ps.insert((a, b)), x, y);
            assert(related(ps, x, y));
        }
        if rhs.contains_key(x) && x != a && x != b {
            let y = choose|y: u32| #[trigger] related(ps, x, y);
            assert(related(ps.insert((a, b)), x, y));
        }
        if x == a {
            assert(related(ps.insert((a, b)), a, b));
        }
        if x == b {
            assert(related(ps.insert((a, b)), b, a));
        }
    }
    assert forall|x: u32| #[trigger] lhs.contains_key(x) implies lhs[x] == rhs[x] by {
        assert forall|y: u32| lhs[x].contains(y) <==> rhs[x].contains(y) by {
            if !same_as_edges(ps).contains_key(x) {
                assert(!related(ps, x, y));
            }
        }
        assert(lhs[x] =~= rhs[x]);
    }
    assert(lhs =~= rhs);
    assert(same_as_edges(Set::empty()) =~= Map::<u32, Set<u32>>::empty());
}

/// The `owl:sameAs` graph of `pairs`.
fn same_as_graph(pairs: &[(u32, u32)]) -> (r: IdSetMap)
    ensures
        r@ == same_as_edges(pairs@.to_set()),
{
    let mut edges = IdSetMap::new();
    let n = pairs.len();
    let mut i: usize = 0;
    proof {
        lemma_same_as_edges_insert(Set::empty(), 0, 0);
        assert(pairs@.take(0).to_set() =~= Set::<(u32, u32)>::empty());
    }
    while i < n
        invariant
            n == pairs@.len(),
            i <= n,
            edges@ == same_as_edges(pairs@.take(i as int).to_set()),
        decreases n - i,
    {
        let (a, b) = pairs[i];
        proof {
            crate::idset::lemma_take_succ_to_set(pairs@, i as int);
            lemma_same_as_edges_insert(pairs@.take(i as int).to_set(), a, b);
        }
        edges.insert(a, b);
        edges.insert(b, a);
        i += 1;
    }
    proof {
        assert(pairs@.take(n as int) =~= pairs@);
    }
    edges
}

/// The `owl:sameAs` equality clusters of a dataset: each resource that
/// occurs in an `owl:sameAs` pair belongs to the cluster of every resource
/// it is connected to, and each cluster is named by its least id.
pub struct EqualityIndex {
    members_by_canonical: IdSetMap,
    canonical_by_member: IdSetMap,
    assertion_count: usize,
    pairs: Ghost<Set<(u32, u32)>>,
}

impl EqualityIndex {
    #[verifier::type_invariant]
    spec fn inv(&self) -> bool {
        let ps = self.pairs@;
        &&& ps.finite()
        &&& self.canonical_by_member@.dom() == same_as_edges(ps).dom()
        &&& forall|a: u32| #[trigger] self.canonical_by_member@.contains_key(a)
            ==> self.canonical_by_member@[a] == Set::<u32>::empty().insert(canonical(ps, a))
        &&& self.members_by_canonical@.dom() == canonicals(ps)
        &&& forall|c: u32| #[trigger] self.members_by_canonical@.contains_key(c)
            ==> self.members_by_canonical@[c] == cluster(ps, c)
    }

    /// The `owl:sameAs` pairs the index was built from.
    pub closed spec fn pairs(&self) -> Set<(u32, u32)> {
        self.pairs@
    }

    /// The number of asserted `owl:sameAs` triples it was built with.
    pub closed spec fn asserted(&self) -> usize {
        self.assertion_count
    }

    /// The clusters of `pairs`; `assertion_count` asserted `owl:sameAs`
    /// triples stand behind them.
    pub fn build_from_pairs(pairs: &[(u32, u32)], assertion_count: usize) -> (r: EqualityIndex)
        ensures
            r.pairs() == pairs@.to_set(),
            r.asserted() == assertion_count,
    {
        let ghost ps = pairs@.to_set();
        let graph = same_as_graph(pairs);
        let closure = ClosureIndex::from_edges(&graph);
        let nodes = closure.nodes().as_slice();
        proof {
            lemma_nodes_are_members(ps);
            vstd::seq_lib::seq_to_set_is_finite(pairs@);
        }
        let n = nodes.len();
        let mut members_by_canonical = IdSetMap::new();
        let mut canonical_by_member = IdSetMap::new();
        let mut i: usize = 0;
        while i < n
            invariant
                n == nodes@.len(),
                nodes@.no_duplicates(),
                nodes@.to_set() == same_as_edges(ps).dom(),
                closure.edges() == same_as_edges(ps),
                ps.finite(),
                i <= n,
                canonical_by_member@.dom() == nodes@.take(i as int).to_set(),
                forall|a: u32| #[trigger] canonical_by_member@.contains_key(a)
                    ==> canonical_by_member@[a] == Set::<u32>::empty().insert(canonical(ps, a)),
                members_by_canonical@.dom() == Set::new(
                    |c: u32| nodes@.take(i as int).contains(c) && canonical(ps, c) == c,
                ),
                forall|c: u32| #[trigger] members_by_canonical@.contains_key(c)
                    ==> members_by_canonical@[c] == cluster(ps, c),
            decreases n - i,
        {
            let node = nodes[i];
            proof {
                assert(nodes@.to_set().contains(node));
                lemma_member_in_cluster(ps, node);
                lemma_nodes_are_members(ps);
                crate::idset::lemma_take_succ_to_set(nodes@, i as int);
                assert(!nodes@.take(i as int).contains(node)) by {
                    if nodes@.take(i as int).contains(node) {
                        let j = choose|j: int| 0 <= j < i && nodes@.take(i as int)[j] == node;
                        assert(nodes@[j] == nodes@[i as int]);
                    }
                }
            }
            let members = match closure.ancestors_of(node) {
                Some(found) => found,
                None => {
                    proof {
                        assert(false);
                    }
                    return EqualityIndex::default();
                },
            };
            let canonical_id = match members.first() {
                Some(m) => m,
                None => node,
            };
            proof {
                assert(members@.contains(node));
                assert(is_least(cluster(ps, node), canonical_id));
                lemma_canonical_of_member(ps, node, canonical_id);
            }
            let mut single = IdSet::new();
            single.insert(canonical_id);
            canonical_by_member.put(node, single);
            if node == canonical_id {
                members_by_canonical.put(canonical_id, members.duplicate());
            }
            proof {
                assert forall|c: u32| nodes@.take(i + 1).contains(c) <==> (nodes@.take(i as int).contains(c) || c == node) by {
                    assert(nodes@.take(i + 1).to_set().contains(c) == nodes@.take(i + 1).contains(c));
                    assert(nodes@.take(i as int).to_set().contains(c) == nodes@.take(i as int).contains(c));
                }
                assert(members_by_canonical@.dom() =~= Set::new(
                    |c: u32| nodes@.take(i + 1).contains(c) && canonical(ps, c) == c,
                ));
            }
            i += 1;
        }
        proof {
            assert(nodes@.take(n as int) =~= nodes@);
            assert(members_by_canonical@.dom() =~= canonicals(ps)) by {
                assert forall|c: u32| canonicals(ps).contains(c) implies members_by_canonical@.dom().contains(c) by {
                    let a = choose|a: u32| is_member(ps, a) && c == #[trigger] canonical(ps, a);
                    lemma_member_in_cluster(ps, a);
                    lemma_cluster_has_least(ps, a);
                    lemma_canonical_of_member(ps, a, least(cluster(ps, a)));
                    assert(nodes@.to_set().contains(c));
                }
                assert forall|c: u32| members_by_canonical@.dom().contains(c) implies canonicals(ps).contains(c) by {
                    assert(nodes@.to_set().contains(c));
                    assert(is_member(ps, c) && c == canonical(ps, c));
                }
            }
        }
        EqualityIndex {
            members_by_canonical,
            canonical_by_member,
            assertion_count,
            pairs: Ghost(ps),
        }
    }

    /// The clusters of the asserted `owl:sameAs` pairs of `index`.
    pub fn build(index: &IndexedDataset) -> (r: EqualityIndex)
        ensures
            r.pairs() == same_as_seq(index.vocab(), index.source()).to_set(),
            r.asserted() == same_as_seq(index.vocab(), index.source()).len(),
    {
        let pairs = index.same_as_pairs();
        EqualityIndex::build_from_pairs(pairs, index.same_as_assertion_count())
    }

    /// The clusters of the asserted `owl:sameAs` pairs of `index` together
    /// with the `inferred` ones.
    pub fn build_with_inferred(index: &IndexedDataset, inferred: &PairSet) -> (r: EqualityIndex)
        ensures
            r.pairs() == same_as_seq(index.vocab(), index.source()).to_set().union(inferred@),
            r.asserted() == same_as_seq(index.vocab(), index.source()).len(),
    {
        let asserted = index.same_as_pairs();
        let extra = inferred.as_slice();
        let mut all: Vec<(u32, u32)> = Vec::new();
        let mut i: usize = 0;
        while i < asserted.len()
            invariant
                i <= asserted@.len(),
                all@ == asserted@.take(i as int),
            decreases asserted@.len() - i,
        {
            all.push(asserted[i]);
            proof {
                assert(asserted@.take(i + 1) =~= asserted@.take(i as int).push(asserted@[i as int]));
            }
            i += 1;
        }
        let mut j: usize = 0;
        while j < extra.len()
            invariant
                j <= extra@.len(),
                all@ == asserted@ + extra@.take(j as int),
            decreases extra@.len() - j,
        {
            all.push(extra[j]);
            proof {
                assert(extra@.take(j + 1) =~= extra@.take(j as int).push(extra@[j as int]));
                assert(asserted@ + extra@.take(j + 1) =~= (asserted@ + extra@.take(j as int)).push(extra@[j as int]));
            }
            j += 1;
        }
        proof {
            assert(asserted@.take(asserted@.len() as int) =~= asserted@);
            assert(extra@.take(extra@.len() as int) =~= extra@);
            assert((asserted@ + extra@).to_set() =~= asserted@.to_set().union(extra@.to_set())) by {
                assert forall|p: (u32, u32)| (asserted@ + extra@).to_set().contains(p) implies asserted@.to_set().union(extra@.to_set()).contains(p) by {
                    let k = choose|k: int| 0 <= k < (asserted@ + extra@).len() && (asserted@ + extra@)[k] == p;
                    if k < asserted@.len() {
                        assert(asserted@[k] == p);
                    } else {
                        assert(extra@[k - asserted@.len()] == p);
                    }
                }
                assert forall|p: (u32, u32)| asserted@.to_set().union(extra@.to_set()).contains(p) implies (asserted@ + extra@).to_set().contains(p) by {
                    if asserted@.to_set().contains(p) {
                        let k = choose|k: int| 0 <= k < asserted@.len() && asserted@[k] == p;
                        assert((asserted@ + extra@)[k] == p);
                    } else {
                        let k = choose|k: int| 0 <= k < extra@.len() && extra@[k] == p;
                        assert((asserted@ + extra@)[k + asserted@.len()] == p);
                    }
                }
            }
        }
        EqualityIndex::build_from_pairs(all.as_slice(), index.same_as_assertion_count())
    }

    /// The number of asserted `owl:sameAs` triples.
    pub fn assertion_count(&self) -> (r: usize)
        ensures
            r == self.asserted(),
    {
        self.assertion_count
    }

    /// The number of equality clusters.
    pub fn cluster_count(&self) -> (r: usize)
        ensures
            r == canonicals(self.pairs()).len(),
            self.pairs().finite(),
    {
        proof {
            use_type_invariant(self);
        }
        let keys = self.members_by_canonical.keys();
        proof {
            keys@.unique_seq_to_set();
        }
        keys.len()
    }

    /// The cluster of `member_id`, if it occurs in a pair.
    pub fn equivalents_of(&self, member_id: u32) -> (r: Option<&IdSet>)
        ensures
            r is Some <==> is_member(self.pairs(), member_id),
            r matches Some(s) ==> s@ == cluster(self.pairs(), member_id),
    {
        proof {
            use_type_invariant(self);
        }
        match self.canonical_by_member.get(member_id) {
            Some(single) => {
                let canonical_id = match single.first() {
                    Some(c) => c,
                    None => {
                        proof {
                            assert(single@.contains(canonical(self.pairs@, member_id)));
                        }
                        member_id
                    },
                };
                proof {
                    let ps = self.pairs@;
                    assert(single@.contains(canonical_id));
                    assert(canonical_id == canonical(ps, member_id));
                    lemma_member_in_cluster(ps, member_id);
                    lemma_cluster_has_least(ps, member_id);
                    lemma_canonical_of_member(ps, member_id, least(cluster(ps, member_id)));
                    assert(canonicals(ps).contains(canonical_id));
                }
                self.members_by_canonical.get(canonical_id)
            },
            None => None,
        }
    }

    /// The canonical resource of `member_id`: the least id of its cluster,
    /// or `member_id` itself when it occurs in no pair.
    pub fn canonical_of(&self, member_id: u32) -> (r: u32)
        ensures
            r == canonical(self.pairs(), member_id),
    {
        proof {
            use_type_invariant(self);
        }
        match self.canonical_by_member.get(member_id) {
            Some(single) => match single.first() {
                Some(c) => {
                    proof {
                        assert(single@.contains(c));
                    }
                    c
                },
                None => {
                    proof {
                        assert(single@.contains(canonical(self.pairs@, member_id)));
                    }
                    member_id
                },
            },
            None => member_id,
        }
    }

    /// Whether `left_id` and `right_id` name the same resource.
    pub fn are_equivalent(&self, left_id: u32, right_id: u32) -> (r: bool)
        ensures
            r == equivalent(self.pairs(), left_id, right_id),
    {
        self.canonical_of(left_id) == self.canonical_of(right_id)
    }
}

impl Default for EqualityIndex {
    fn default() -> (r: EqualityIndex)
        ensures
            r.pairs() == Set::<(u32, u32)>::empty(),
            r.asserted() == 0,
    {
        proof {
            lemma_same_as_edges_insert(Set::empty(), 0, 0);
            assert(canonicals(Set::empty()) =~= Set::<u32>::empty());
        }
        EqualityIndex {
            members_by_canonical: IdSetMap::new(),
            canonical_by_member: IdSetMap::new(),
            assertion_count: 0,
            pairs: Ghost(Set::empty()),
        }
    }
}

/// Law: being the same resource is an equivalence relation.
pub proof fn law_equivalent_is_equivalence(ps: Set<(u32, u32)>, a: u32, b: u32, c: u32)
    ensures
        equivalent(ps, a, a),
        equivalent(ps, a, b) ==> equivalent(ps, b, a),
        equivalent(ps, a, b) && equivalent(ps, b, c) ==> equivalent(ps, a, c),
{
}

/// Law: the resources of one `owl:sameAs` pair are the same resource.
pub proof fn law_pairs_are_equivalent(ps: Set<(u32, u32)>, p: (u32, u32))
    requires
        ps.finite(),
        ps.contains(p),
    ensures
        equivalent(ps, p.0, p.1),
{
    assert(related(ps, p.0, p.1));
    assert(is_member(ps, p.0));
    crate::closure_index::law_parents_are_ancestors(same_as_edges(ps), p.0, p.1);
    law_equivalent_iff_connected(ps, p.0, p.1);
}

proof fn lemma_reaches_in_grows(p: Set<(u32, u32)>, q: Set<(u32, u32)>, a: u32, b: u32, len: nat)
    requires
        p.subset_of(q),
        reaches_in(same_as_edges(p), a, b, len),
    ensures
        reaches_in(same_as_edges(q), a, b, len),
    decreases len,
{
    if len == 1 {
        assert(related(p, a, b));
        assert(related(q, a, b));
        assert(same_as_edges(q).contains_key(a));
    } else {
        let m = choose|m: u32| #![trigger successors(same_as_edges(p), a).contains(m)]
            successors(same_as_edges(p), a).contains(m) && reaches_in(same_as_edges(p), m, b, (len - 1) as nat);
        lemma_reaches_in_grows(p, q, m, b, (len - 1) as nat);
        assert(related(p, a, m));
        assert(related(q, a, m));
        assert(same_as_edges(q).contains_key(a));
        assert(successors(same_as_edges(q), a).contains(m));
    }
}

/// Law: adding `owl:sameAs` pairs only merges clusters: resources that are
/// the same under `p` stay the same under any larger set of pairs `q`, such
/// as the asserted pairs with the inferred ones added.
pub proof fn law_equivalence_grows(p: Set<(u32, u32)>, q: Set<(u32, u32)>, a: u32, b: u32)
    requires
        p.finite(),
        q.finite(),
        p.subset_of(q),
        equivalent(p, a, b),
    ensures
        equivalent(q, a, b),
{
    law_equivalent_iff_connected(p, a, b);
    law_equivalent_iff_connected(q, a, b);
    if a != b {
        let x = choose|x: u32| #[trigger] same_as_edges(p).contains_key(a) && related(p, a, x);
        assert(related(q, a, x));
        assert(is_member(q, a));
        assert(crate::closure_index::reaches(same_as_edges(p), a, b));
        let len = choose|len: nat| #[trigger] reaches_in(same_as_edges(p), a, b, len);
        lemma_reaches_in_grows(p, q, a, b, len);
        assert(crate::closure_index::reaches(same_as_edges(q), a, b));
        assert(cluster(q, a).contains(b));
    }
}

/// Law: the canonical resource of a resource that occurs in a pair is the
/// least member of its cluster, and taking the canonical resource twice
/// gives the same resource as taking it once.
pub proof fn law_canonical_is_least_and_idempotent(ps: Set<(u32, u32)>, a: u32)
    requires
        ps.finite(),
    ensures
        is_member(ps, a) ==> is_least(cluster(ps, a), canonical(ps, a)),
        canonical(ps, canonical(ps, a)) == canonical(ps, a),
{
    if is_member(ps, a) {
        lemma_cluster_has_least(ps, a);
        lemma_canonical_of_member(ps, a, least(cluster(ps, a)));
    }
}

} // verus!
