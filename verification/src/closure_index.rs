use vstd::prelude::*;
use vstd::set_lib::lemma_len_subset;

use crate::idset::{IdSet, IdSetMap};

verus! {

/// The direct successors of `n` in an edge map (its parents in a taxonomy).
pub open spec fn successors(edges: Map<u32, Set<u32>>, n: u32) -> Set<u32> {
    if edges.contains_key(n) {
        edges[n]
    } else {
        Set::empty()
    }
}

/// `m` is reached from `n` along exactly `len` edges (`len >= 1`).
pub open spec fn reaches_in(edges: Map<u32, Set<u32>>, n: u32, m: u32, len: nat) -> bool
    decreases len,
{
    if len == 0 {
        false
    } else if len == 1 {
        successors(edges, n).contains(m)
    } else {
        exists|p: u32|
            #![trigger successors(edges, n).contains(p)]
            successors(edges, n).contains(p) && reaches_in(edges, p, m, (len - 1) as nat)
    }
}

/// `m` is reached from `n` along one or more edges.
pub open spec fn reaches(edges: Map<u32, Set<u32>>, n: u32, m: u32) -> bool {
    exists|len: nat| #[trigger] reaches_in(edges, n, m, len)
}

/// The transitive ancestors of `n`: every node reached from `n` along one
/// or more edges.
pub open spec fn ancestors(edges: Map<u32, Set<u32>>, n: u32) -> Set<u32> {
    Set::new(|m: u32| reaches(edges, n, m))
}

/// Every node that occurs in an edge map, as a source or as a target.
pub open spec fn graph_nodes(edges: Map<u32, Set<u32>>) -> Set<u32> {
    Set::new(
        |x: u32|
            edges.contains_key(x) || exists|k: u32| #[trigger]
                edges.contains_key(k) && edges[k].contains(x),
    )
}

/// A path extended by one more edge at its end.
pub proof fn lemma_reaches_in_snoc(edges: Map<u32, Set<u32>>, n: u32, v: u32, w: u32, len: nat)
    requires
        reaches_in(edges, n, v, len),
        successors(edges, v).contains(w),
    ensures
        reaches_in(edges, n, w, len + 1),
    decreases len,
{
    if len == 1 {
        assert(successors(edges, n).contains(v) && reaches_in(edges, v, w, 1));
    } else {
        let p = choose|p: u32|
            #![trigger successors(edges, n).contains(p)]
            successors(edges, n).contains(p) && reaches_in(edges, p, v, (len - 1) as nat);
        lemma_reaches_in_snoc(edges, p, v, w, (len - 1) as nat);
        assert(reaches_in(edges, p, w, len));
    }
}

/// A set that holds `p` and is closed under successors holds every node
/// reached from `p`.
proof fn lemma_closed_set_holds_reached(
    edges: Map<u32, Set<u32>>,
    s: Set<u32>,
    p: u32,
    m: u32,
    len: nat,
)
    requires
        s.contains(p),
        forall|v: u32, w: u32|
            s.contains(v) && #[trigger] successors(edges, v).contains(w) ==> s.contains(w),
        reaches_in(edges, p, m, len),
    ensures
        s.contains(m),
    decreases len,
{
    if len == 1 {
    } else {
        let q = choose|q: u32|
            #![trigger successors(edges, p).contains(q)]
            successors(edges, p).contains(q) && reaches_in(edges, q, m, (len - 1) as nat);
        lemma_closed_set_holds_reached(edges, s, q, m, (len - 1) as nat);
    }
}

/// Paths compose: `reaches` is transitive.
pub proof fn lemma_reaches_in_append(
    edges: Map<u32, Set<u32>>,
    a: u32,
    b: u32,
    c: u32,
    l1: nat,
    l2: nat,
)
    requires
        reaches_in(edges, a, b, l1),
        reaches_in(edges, b, c, l2),
    ensures
        reaches_in(edges, a, c, l1 + l2),
    decreases l1,
{
    if l1 == 1 {
        assert(successors(edges, a).contains(b) && reaches_in(edges, b, c, l2));
        assert(reaches_in(edges, a, c, l2 + 1));
    } else {
        let p = choose|p: u32|
            #![trigger successors(edges, a).contains(p)]
            successors(edges, a).contains(p) && reaches_in(edges, p, b, (l1 - 1) as nat);
        lemma_reaches_in_append(edges, p, b, c, (l1 - 1) as nat, l2);
        assert(successors(edges, a).contains(p) && reaches_in(edges, p, c, (l1 - 1 + l2) as nat));
    }
}

/// A node reached from any node is itself a node of the graph.
proof fn lemma_reached_is_node(edges: Map<u32, Set<u32>>, n: u32, m: u32, len: nat)
    requires
        reaches_in(edges, n, m, len),
    ensures
        graph_nodes(edges).contains(m),
    decreases len,
{
    if len == 1 {
        assert(edges.contains_key(n) && edges[n].contains(m));
    } else {
        let p = choose|p: u32|
            #![trigger successors(edges, n).contains(p)]
            successors(edges, n).contains(p) && reaches_in(edges, p, m, (len - 1) as nat);
        lemma_reached_is_node(edges, p, m, (len - 1) as nat);
    }
}

/// Law: every direct parent of a node is one of its ancestors.
pub proof fn law_parents_are_ancestors(edges: Map<u32, Set<u32>>, n: u32, m: u32)
    requires
        successors(edges, n).contains(m),
    ensures
        ancestors(edges, n).contains(m),
{
    assert(reaches_in(edges, n, m, 1));
}

/// Law: an ancestor of an ancestor is an ancestor (the ancestor relation
/// is transitive).
pub proof fn law_ancestors_transitive(edges: Map<u32, Set<u32>>, a: u32, b: u32, c: u32)
    requires
        ancestors(edges, a).contains(b),
        ancestors(edges, b).contains(c),
    ensures
        ancestors(edges, a).contains(c),
{
    let l1 = choose|l: nat| #[trigger] reaches_in(edges, a, b, l);
    let l2 = choose|l: nat| #[trigger] reaches_in(edges, b, c, l);
    lemma_reaches_in_append(edges, a, b, c, l1, l2);
}

/// Law: the ancestors of a node are nodes of the graph.
pub proof fn law_ancestors_are_nodes(edges: Map<u32, Set<u32>>, n: u32, m: u32)
    requires
        ancestors(edges, n).contains(m),
    ensures
        graph_nodes(edges).contains(m),
{
    let l = choose|l: nat| #[trigger] reaches_in(edges, n, m, l);
    lemma_reached_is_node(edges, n, m, l);
}

/// Every node of an edge map: its keys and all their targets.
pub fn collect_nodes(edges: &IdSetMap) -> (r: IdSet)
    ensures
        r@ == graph_nodes(edges@),
{
    let keys = edges.keys();
    let n = keys.len();
    let mut nodes = IdSet::new();
    let mut i: usize = 0;
    while i < n
        invariant
            keys@ == edges.key_seq(),
            keys@.to_set() == edges@.dom(),
            n == keys@.len(),
            n == edges.set_seq().len(),
            i <= n,
            forall|x: u32| #[trigger]
                nodes@.contains(x) <==> exists|j: int|
                    0 <= j < i && (keys@[j] == x || edges@[keys@[j]].contains(x)),
        decreases n - i,
    {
        let k = edges.key_at(i);
        let parents = edges.set_at(i);
        let ghost before = nodes@;
        nodes.insert(k);
        nodes.union_with(parents);
        assert forall|x: u32| #[trigger]
            nodes@.contains(x) <==> exists|j: int|
                0 <= j < i + 1 && (keys@[j] == x || edges@[keys@[j]].contains(x)) by {
            if nodes@.contains(x) && !before.contains(x) {
                assert(keys@[i as int] == x || edges@[keys@[i as int]].contains(x));
            }
        }
        i += 1;
    }
    assert forall|x: u32| #[trigger] graph_nodes(edges@).contains(x) implies nodes@.contains(x) by {
        if edges@.contains_key(x) {
            assert(keys@.to_set().contains(x));
            let j = choose|j: int| 0 <= j < keys@.len() && keys@[j] == x;
        } else {
            let k = choose|k: u32| #[trigger] edges@.contains_key(k) && edges@[k].contains(x);
            assert(keys@.to_set().contains(k));
            let j = choose|j: int| 0 <= j < keys@.len() && keys@[j] == k;
        }
    }
    assert forall|x: u32| #[trigger] nodes@.contains(x) implies graph_nodes(edges@).contains(x) by {
        let j = choose|j: int| 0 <= j < n && (keys@[j] == x || edges@[keys@[j]].contains(x));
        assert(keys@.to_set().contains(keys@[j]));
        if keys@[j] != x {
            assert(edges@.contains_key(keys@[j]) && edges@[keys@[j]].contains(x));
        }
    }
    assert(nodes@ =~= graph_nodes(edges@));
    nodes
}

/// Adds the not yet visited members of `targets` to `visited` and to the
/// work list.
fn visit_targets(
    edges: &IdSetMap,
    all: &IdSet,
    start: u32,
    targets: &IdSet,
    visited: &mut IdSet,
    worklist: &mut Vec<u32>,
)
    requires
        all@ == graph_nodes(edges@),
        targets@.subset_of(graph_nodes(edges@)),
        forall|x: u32| #[trigger] targets@.contains(x) ==> reaches(edges@, start, x),
        forall|x: u32| #[trigger] old(visited)@.contains(x) ==> reaches(edges@, start, x),
        old(visited)@.subset_of(all@),
        forall|i: int|
            0 <= i < old(worklist)@.len() ==> old(visited)@.contains(#[trigger] old(worklist)@[i]),
        old(worklist)@.no_duplicates(),
    ensures
        final(visited)@ == old(visited)@.union(targets@),
        forall|x: u32| #[trigger] final(visited)@.contains(x) ==> reaches(edges@, start, x),
        final(visited)@.subset_of(all@),
        forall|i: int|
            0 <= i < final(worklist)@.len() ==> final(visited)@.contains(
                #[trigger] final(worklist)@[i],
            ),
        final(worklist)@.no_duplicates(),
        forall|x: u32|
            #[trigger] old(worklist)@.contains(x) ==> final(worklist)@.contains(x),
        forall|x: u32|
            #[trigger] final(worklist)@.contains(x) ==> old(worklist)@.contains(x) || !old(
                visited,
            )@.contains(x),
        final(worklist)@.len() - old(worklist)@.len() == final(visited)@.len() - old(
            visited,
        )@.len(),
        forall|x: u32|
            #[trigger] final(visited)@.contains(x) && !old(visited)@.contains(x)
                ==> final(worklist)@.contains(x),
{
    let items = targets.as_slice();
    let n = items.len();
    let mut i: usize = 0;
    proof {
        lemma_len_subset(visited@, all@);
    }
    while i < n
        invariant
            n == items@.len(),
            items@.to_set() == targets@,
            i <= n,
            all@ == graph_nodes(edges@),
            targets@.subset_of(graph_nodes(edges@)),
            forall|x: u32| #[trigger] targets@.contains(x) ==> reaches(edges@, start, x),
            visited@ == old(visited)@.union(items@.take(i as int).to_set()),
            forall|x: u32| #[trigger] visited@.contains(x) ==> reaches(edges@, start, x),
            visited@.subset_of(all@),
            visited@.finite(),
            old(visited)@.finite(),
            forall|j: int| 0 <= j < worklist@.len() ==> visited@.contains(#[trigger] worklist@[j]),
            worklist@.no_duplicates(),
            forall|x: u32| #[trigger] old(worklist)@.contains(x) ==> worklist@.contains(x),
            forall|x: u32|
                #[trigger] worklist@.contains(x) ==> old(worklist)@.contains(x) || !old(
                    visited,
                )@.contains(x),
            worklist@.len() - old(worklist)@.len() == visited@.len() - old(visited)@.len(),
            forall|x: u32|
                #[trigger] visited@.contains(x) && !old(visited)@.contains(x) ==> worklist@.contains(
                    x,
                ),
        decreases n - i,
    {
        let x = items[i];
        assert(targets@.contains(x));
        let ghost before_list = worklist@;
        let ghost before_set = visited@;
        if visited.insert(x) {
            assert(!before_list.contains(x));
            worklist.push(x);
            proof {
                assert(worklist@ == before_list.push(x));
                assert forall|y: u32| #[trigger] worklist@.contains(y) implies old(
                    worklist,
                )@.contains(y) || !old(visited)@.contains(y) by {
                    if y != x {
                        let j = choose|j: int| 0 <= j < worklist@.len() && worklist@[j] == y;
                        assert(before_list[j] == y);
                        assert(before_list.contains(y));
                    } else {
                        assert(!before_set.contains(x));
                        assert(old(visited)@.subset_of(before_set));
                    }
                }
                assert forall|y: u32| #[trigger]
                    visited@.contains(y) && !old(visited)@.contains(y) implies worklist@.contains(y) by {
                    if y == x {
                        assert(worklist@[worklist@.len() - 1] == x);
                    } else {
                        assert(before_list.contains(y));
                        let j = choose|j: int| 0 <= j < before_list.len() && before_list[j] == y;
                        assert(worklist@[j] == y);
                    }
                }
                assert forall|y: u32| #[trigger] old(worklist)@.contains(y) implies worklist@.contains(
                    y,
                ) by {
                    let j = choose|j: int| 0 <= j < before_list.len() && before_list[j] == y;
                    assert(worklist@[j] == y);
                }
            }
        }
        proof {
            crate::idset::lemma_take_succ_to_set(items@, i as int);
            lemma_len_subset(visited@, all@);
        }
        i += 1;
    }
    assert(items@.take(n as int) =~= items@);
}

/// The transitive ancestors of `start`, computed by a search over `edges`.
fn collect_ancestors(edges: &IdSetMap, all: &IdSet, start: u32) -> (r: IdSet)
    requires
        all@ == graph_nodes(edges@),
    ensures
        r@ == ancestors(edges@, start),
{
    let mut visited = IdSet::new();
    let mut worklist: Vec<u32> = Vec::new();
    let total = all.len();
    proof {
        assert(forall|x: u32| #[trigger] visited@.contains(x) ==> reaches(edges@, start, x));
    }
    match edges.get(start) {
        Some(parents) => {
            proof {
                assert forall|x: u32| #[trigger] parents@.contains(x) implies reaches(
                    edges@,
                    start,
                    x,
                ) by {
                    assert(reaches_in(edges@, start, x, 1));
                }
                assert forall|x: u32| #[trigger] parents@.contains(x) implies graph_nodes(
                    edges@,
                ).contains(x) by {
                    assert(edges@.contains_key(start) && edges@[start].contains(x));
                }
            }
            visit_targets(edges, all, start, parents, &mut visited, &mut worklist);
        },
        None => {},
    }
    assert(successors(edges@, start).subset_of(visited@));
    while worklist.len() > 0
        invariant
            all@ == graph_nodes(edges@),
            total == all@.len(),
            all@.finite(),
            successors(edges@, start).subset_of(visited@),
            forall|x: u32| #[trigger] visited@.contains(x) ==> reaches(edges@, start, x),
            visited@.subset_of(all@),
            forall|j: int| 0 <= j < worklist@.len() ==> visited@.contains(#[trigger] worklist@[j]),
            worklist@.no_duplicates(),
            forall|v: u32, w: u32|
                visited@.contains(v) && !worklist@.contains(v) && #[trigger] successors(
                    edges@,
                    v,
                ).contains(w) ==> visited@.contains(w),
        decreases total - visited@.len(), worklist@.len(),
    {
        proof {
            lemma_len_subset(visited@, all@);
        }
        let ghost before_list = worklist@;
        let ghost before_set = visited@;
        let v = worklist.pop().unwrap();
        assert(before_list == worklist@.push(v));
        assert(!worklist@.contains(v)) by {
            if worklist@.contains(v) {
                let j = choose|j: int| 0 <= j < worklist@.len() && worklist@[j] == v;
                assert(before_list[j] == v && before_list[before_list.len() - 1] == v);
            }
        }
        assert forall|j: int| 0 <= j < worklist@.len() implies visited@.contains(
            #[trigger] worklist@[j],
        ) by {
            assert(before_list[j] == worklist@[j]);
        }
        let ghost l = choose|l: nat| #[trigger] reaches_in(edges@, start, v, l);
        match edges.get(v) {
            Some(parents) => {
                proof {
                    assert forall|x: u32| #[trigger] parents@.contains(x) implies reaches(
                        edges@,
                        start,
                        x,
                    ) by {
                        lemma_reaches_in_snoc(edges@, start, v, x, l);
                    }
                    assert forall|x: u32| #[trigger] parents@.contains(x) implies graph_nodes(
                        edges@,
                    ).contains(x) by {
                        assert(edges@.contains_key(v) && edges@[v].contains(x));
                    }
                }
                let ghost mid_list = worklist@;
                visit_targets(edges, all, start, parents, &mut visited, &mut worklist);
                proof {
                    lemma_len_subset(visited@, all@);
                    lemma_len_subset(before_set, visited@);
                    assert forall|a: u32, w: u32|
                        visited@.contains(a) && !worklist@.contains(a) && #[trigger] successors(
                            edges@,
                            a,
                        ).contains(w) implies visited@.contains(w) by {
                        if a == v {
                        } else if before_set.contains(a) {
                            assert(!mid_list.contains(a));
                            assert(!before_list.contains(a)) by {
                                if before_list.contains(a) {
                                    let j = choose|j: int|
                                        0 <= j < before_list.len() && before_list[j] == a;
                                    assert(mid_list[j] == a);
                                }
                            }
                        } else {
                            assert(worklist@.contains(a));
                        }
                    }
                }
            },
            None => {
                proof {
                    assert forall|a: u32, w: u32|
                        visited@.contains(a) && !worklist@.contains(a) && #[trigger] successors(
                            edges@,
                            a,
                        ).contains(w) implies visited@.contains(w) by {
                        if a != v {
                            assert(!before_list.contains(a)) by {
                                if before_list.contains(a) {
                                    let j = choose|j: int|
                                        0 <= j < before_list.len() && before_list[j] == a;
                                    assert(worklist@[j] == a);
                                }
                            }
                        }
                    }
                }
            },
        }
    }
    proof {
        assert forall|m: u32| ancestors(edges@, start).contains(m) implies visited@.contains(m) by {
            let l = choose|l: nat| #[trigger] reaches_in(edges@, start, m, l);
            if l == 1 {
            } else {
                let p = choose|p: u32|
                    #![trigger successors(edges@, start).contains(p)]
                    successors(edges@, start).contains(p) && reaches_in(
                        edges@,
                        p,
                        m,
                        (l - 1) as nat,
                    );
                lemma_closed_set_holds_reached(edges@, visited@, p, m, (l - 1) as nat);
            }
        }
    }
    assert(visited@ =~= ancestors(edges@, start));
    visited
}

/// Transitive ancestors of every node of a directed graph (a class or
/// property taxonomy), computed once.
pub struct ClosureIndex {
    ancestors_by_node: IdSetMap,
    nodes: IdSet,
    node_count: usize,
    graph: Ghost<Map<u32, Set<u32>>>,
}

/// A class taxonomy over `rdfs:subClassOf` edges.
pub type TaxonomyIndex = ClosureIndex;

/// A property taxonomy over `rdfs:subPropertyOf` edges.
pub type PropertyTaxonomyIndex = ClosureIndex;

impl ClosureIndex {
    #[verifier::type_invariant]
    spec fn inv(&self) -> bool {
        &&& self.nodes@ == graph_nodes(self.graph@)
        &&& self.ancestors_by_node@.dom() == self.nodes@
        &&& forall|n: u32| #[trigger]
            self.nodes@.contains(n) ==> self.ancestors_by_node@[n] == ancestors(self.graph@, n)
        &&& self.node_count == self.nodes@.len()
    }

    /// The graph this index was built from.
    pub closed spec fn edges(&self) -> Map<u32, Set<u32>> {
        self.graph@
    }

    /// Computes the ancestors of every node of `edges`.
    pub fn from_edges(edges: &IdSetMap) -> (r: ClosureIndex)
        ensures
            r.edges() == edges@,
    {
        let nodes = collect_nodes(edges);
        let slice = nodes.as_slice();
        let n = slice.len();
        let mut memo = IdSetMap::new();
        let mut i: usize = 0;
        while i < n
            invariant
                n == slice@.len(),
                slice@.to_set() == nodes@,
                slice@.no_duplicates(),
                nodes@ == graph_nodes(edges@),
                i <= n,
                memo@.dom() == slice@.take(i as int).to_set(),
                forall|m: u32| #[trigger]
                    memo@.contains_key(m) ==> memo@[m] == ancestors(edges@, m),
            decreases n - i,
        {
            let node = slice[i];
            let found = collect_ancestors(edges, &nodes, node);
            assert(!slice@.take(i as int).contains(node)) by {
                if slice@.take(i as int).contains(node) {
                    let j = choose|j: int| 0 <= j < i && slice@.take(i as int)[j] == node;
                    assert(slice@[j] == slice@[i as int]);
                }
            }
            memo.put(node, found);
            proof {
                crate::idset::lemma_take_succ_to_set(slice@, i as int);
            }
            i += 1;
        }
        assert(slice@.take(n as int) =~= slice@);
        let node_count = nodes.len();
        ClosureIndex { ancestors_by_node: memo, nodes, node_count, graph: Ghost(edges@) }
    }

    /// The ancestors of `n` if `n` is a node of the graph; every node has an
    /// entry, possibly empty.
    pub fn ancestors_of(&self, node_id: u32) -> (r: Option<&IdSet>)
        ensures
            r is Some <==> graph_nodes(self.edges()).contains(node_id),
            r matches Some(s) ==> s@ == ancestors(self.edges(), node_id),
    {
        proof {
            use_type_invariant(self);
        }
        self.ancestors_by_node.get(node_id)
    }

    /// Number of nodes of the graph.
    pub fn node_count(&self) -> (r: usize)
        ensures
            r == graph_nodes(self.edges()).len(),
            graph_nodes(self.edges()).finite(),
    {
        proof {
            use_type_invariant(self);
        }
        let _ = self.nodes.len();
        self.node_count
    }

    /// The nodes of the graph.
    pub fn nodes(&self) -> (r: &IdSet)
        ensures
            r@ == graph_nodes(self.edges()),
    {
        proof {
            use_type_invariant(self);
        }
        &self.nodes
    }
}

} // verus!
