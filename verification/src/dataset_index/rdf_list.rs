use vstd::prelude::*;
use vstd::set_lib::lemma_len_subset;

use crate::idset::IdSetMap;

verus! {

/// `m` maps `k` to exactly the one value `x`.
pub open spec fn singleton_value(m: Map<u32, Set<u32>>, k: u32, x: u32) -> bool {
    m.contains_key(k) && m[k] == Set::<u32>::empty().insert(x)
}

/// `nodes` are the cells of a well-formed RDF list that starts at `head`
/// and holds `members`: each cell has exactly one `rdf:first` (its member)
/// and exactly one `rdf:rest` (the next cell, or `nil` after the last), and
/// no cell repeats.
pub open spec fn list_shape(
    first: Map<u32, Set<u32>>,
    rest: Map<u32, Set<u32>>,
    nil: u32,
    head: u32,
    nodes: Seq<u32>,
    members: Seq<u32>,
) -> bool {
    &&& nodes.len() == members.len()
    &&& nodes.len() >= 1
    &&& nodes[0] == head
    &&& nodes.no_duplicates()
    &&& forall|i: int| 0 <= i < nodes.len() ==> #[trigger] singleton_value(first, nodes[i], members[i])
    &&& forall|i: int|
        0 <= i < nodes.len() - 1 ==> #[trigger] singleton_value(rest, nodes[i], nodes[i + 1])
            && nodes[i + 1] != nil
    &&& singleton_value(rest, nodes.last(), nil)
}

/// The RDF list at `head` is well formed and holds `members`.
pub open spec fn is_rdf_list(
    first: Map<u32, Set<u32>>,
    rest: Map<u32, Set<u32>>,
    nil: u32,
    head: u32,
    members: Seq<u32>,
) -> bool {
    exists|nodes: Seq<u32>| #[trigger] list_shape(first, rest, nil, head, nodes, members)
}

/// Two well-formed lists from one head agree cell by cell up to `k`.
proof fn lemma_list_prefix_agrees(
    first: Map<u32, Set<u32>>,
    rest: Map<u32, Set<u32>>,
    nil: u32,
    head: u32,
    ns1: Seq<u32>,
    ms1: Seq<u32>,
    ns2: Seq<u32>,
    ms2: Seq<u32>,
    k: int,
)
    requires
        list_shape(first, rest, nil, head, ns1, ms1),
        list_shape(first, rest, nil, head, ns2, ms2),
        0 <= k < ns1.len(),
        k < ns2.len(),
    ensures
        ns1[k] == ns2[k],
        ms1[k] == ms2[k],
    decreases k,
{
    if k > 0 {
        lemma_list_prefix_agrees(first, rest, nil, head, ns1, ms1, ns2, ms2, k - 1);
        let i = k - 1;
        assert(singleton_value(rest, ns1[i], ns1[i + 1]));
        assert(singleton_value(rest, ns2[i], ns2[i + 1]));
        assert(Set::<u32>::empty().insert(ns1[k]).contains(ns2[k]));
    }
    assert(singleton_value(first, ns1[k], ms1[k]));
    assert(singleton_value(first, ns2[k], ms2[k]));
    assert(Set::<u32>::empty().insert(ms1[k]).contains(ms2[k]));
}

/// A head starts at most one well-formed list.
pub proof fn lemma_list_unique(
    first: Map<u32, Set<u32>>,
    rest: Map<u32, Set<u32>>,
    nil: u32,
    head: u32,
    ns1: Seq<u32>,
    ms1: Seq<u32>,
    ns2: Seq<u32>,
    ms2: Seq<u32>,
)
    requires
        list_shape(first, rest, nil, head, ns1, ms1),
        list_shape(first, rest, nil, head, ns2, ms2),
    ensures
        ms1 == ms2,
        ns1 == ns2,
{
    if ns1.len() < ns2.len() {
        let j = ns1.len() - 1;
        lemma_list_prefix_agrees(first, rest, nil, head, ns1, ms1, ns2, ms2, j);
        assert(singleton_value(rest, ns1[j], nil));
        assert(singleton_value(rest, ns2[j], ns2[j + 1]) && ns2[j + 1] != nil);
        assert(Set::<u32>::empty().insert(nil).contains(ns2[j + 1]));
    } else if ns2.len() < ns1.len() {
        let j = ns2.len() - 1;
        lemma_list_prefix_agrees(first, rest, nil, head, ns1, ms1, ns2, ms2, j);
        assert(singleton_value(rest, ns2[j], nil));
        assert(singleton_value(rest, ns1[j], ns1[j + 1]) && ns1[j + 1] != nil);
        assert(Set::<u32>::empty().insert(nil).contains(ns1[j + 1]));
    }
    assert forall|k: int| 0 <= k < ns1.len() implies ns1[k] == ns2[k] && ms1[k] == ms2[k] by {
        lemma_list_prefix_agrees(first, rest, nil, head, ns1, ms1, ns2, ms2, k);
    }
    assert(ms1 =~= ms2);
    assert(ns1 =~= ns2);
}

/// The members of the well-formed RDF list at `head`, or `None` when the
/// list at `head` is malformed.
pub open spec fn list_members(
    first: Map<u32, Set<u32>>,
    rest: Map<u32, Set<u32>>,
    nil: u32,
    head: u32,
) -> Option<Seq<u32>> {
    if exists|ms: Seq<u32>| is_rdf_list(first, rest, nil, head, ms) {
        Some(choose|ms: Seq<u32>| is_rdf_list(first, rest, nil, head, ms))
    } else {
        None
    }
}

/// The members of a well-formed list are the ones `list_members` names.
pub proof fn lemma_list_members(
    first: Map<u32, Set<u32>>,
    rest: Map<u32, Set<u32>>,
    nil: u32,
    head: u32,
    ms: Seq<u32>,
)
    requires
        is_rdf_list(first, rest, nil, head, ms),
    ensures
        list_members(first, rest, nil, head) == Some(ms),
{
    let chosen = choose|m: Seq<u32>| is_rdf_list(first, rest, nil, head, m);
    let ns1 = choose|ns: Seq<u32>| #[trigger] list_shape(first, rest, nil, head, ns, ms);
    let ns2 = choose|ns: Seq<u32>| #[trigger] list_shape(first, rest, nil, head, ns, chosen);
    lemma_list_unique(first, rest, nil, head, ns1, ms, ns2, chosen);
}

/// `m` maps `k` to exactly one value.
pub open spec fn has_single(m: Map<u32, Set<u32>>, k: u32) -> bool {
    exists|x: u32| #[trigger] singleton_value(m, k, x)
}

/// Why `node` has no single value in `m` under `field` (`rdf:first` when
/// `is_first`, else `rdf:rest`): it has none, or more than one.
pub open spec fn value_error(m: Map<u32, Set<u32>>, node: u32, is_first: bool) -> Seq<char> {
    if !m.contains_key(node) {
        if is_first {
            "missing rdf:first entry"@
        } else {
            "missing rdf:rest entry"@
        }
    } else if is_first {
        "rdf:first entry must be singular"@
    } else {
        "rdf:rest entry must be singular"@
    }
}

/// The walk along the list at `head` has read the cells `nodes` and
/// reached `current`: each cell read has one `rdf:first` and one `rdf:rest`
/// leading to the next cell (never `nil`), and no cell repeats.
pub open spec fn walk_state(
    first: Map<u32, Set<u32>>,
    rest: Map<u32, Set<u32>>,
    nil: u32,
    head: u32,
    nodes: Seq<u32>,
    current: u32,
) -> bool {
    &&& nodes.no_duplicates()
    &&& nodes.len() == 0 ==> current == head
    &&& nodes.len() > 0 ==> nodes[0] == head && singleton_value(rest, nodes.last(), current) && current != nil
    &&& forall|i: int| 0 <= i < nodes.len() ==> #[trigger] has_single(first, nodes[i])
    &&& forall|i: int|
        0 <= i < nodes.len() - 1 ==> #[trigger] singleton_value(rest, nodes[i], nodes[i + 1]) && nodes[i + 1]
            != nil
}

/// Why the walk stops at `current` after `nodes`, if it stops there on a
/// malformed list: `current` was read before, or it lacks a single
/// `rdf:first`, or a single `rdf:rest`.
pub open spec fn failure_at(
    first: Map<u32, Set<u32>>,
    rest: Map<u32, Set<u32>>,
    nodes: Seq<u32>,
    current: u32,
) -> Option<Seq<char>> {
    if nodes.contains(current) {
        Some("list contains a cycle"@)
    } else if !has_single(first, current) {
        Some(value_error(first, current, true))
    } else if !has_single(rest, current) {
        Some(value_error(rest, current, false))
    } else {
        None
    }
}

/// The walk along the list at `head` stops on a malformed list, for
/// `reason`.
pub open spec fn list_failure(
    first: Map<u32, Set<u32>>,
    rest: Map<u32, Set<u32>>,
    nil: u32,
    head: u32,
    reason: Seq<char>,
) -> bool {
    exists|nodes: Seq<u32>, current: u32|
        #[trigger] walk_state(first, rest, nil, head, nodes, current) && failure_at(first, rest, nodes, current)
            == Some(reason)
}

/// Two walks along one list agree cell by cell.
proof fn lemma_walks_agree(
    first: Map<u32, Set<u32>>,
    rest: Map<u32, Set<u32>>,
    nil: u32,
    head: u32,
    n1: Seq<u32>,
    c1: u32,
    n2: Seq<u32>,
    c2: u32,
    k: int,
)
    requires
        walk_state(first, rest, nil, head, n1, c1),
        walk_state(first, rest, nil, head, n2, c2),
        0 <= k <= n1.len(),
        k <= n2.len(),
    ensures
        (if k < n1.len() { n1[k] } else { c1 }) == (if k < n2.len() { n2[k] } else { c2 }),
    decreases k,
{
    if k > 0 {
        lemma_walks_agree(first, rest, nil, head, n1, c1, n2, c2, k - 1);
        let j = k - 1;
        assert(n1[j] == n2[j]);
        let x1 = if k < n1.len() { n1[k] } else { c1 };
        let x2 = if k < n2.len() { n2[k] } else { c2 };
        if k < n1.len() {
            assert(singleton_value(rest, n1[j], n1[j + 1]));
        } else {
            assert(n1.last() == n1[j]);
        }
        if k < n2.len() {
            assert(singleton_value(rest, n2[j], n2[j + 1]));
        } else {
            assert(n2.last() == n2[j]);
        }
        assert(singleton_value(rest, n1[j], x1));
        assert(singleton_value(rest, n2[j], x2));
        assert(Set::<u32>::empty().insert(x1).contains(x2));
    }
}

/// A walk stops on a malformed list for one reason only.
pub proof fn lemma_list_failure_unique(
    first: Map<u32, Set<u32>>,
    rest: Map<u32, Set<u32>>,
    nil: u32,
    head: u32,
    r1: Seq<char>,
    r2: Seq<char>,
)
    requires
        list_failure(first, rest, nil, head, r1),
        list_failure(first, rest, nil, head, r2),
    ensures
        r1 == r2,
{
    let (n1, c1) = choose|nodes: Seq<u32>, current: u32|
        #[trigger] walk_state(first, rest, nil, head, nodes, current) && failure_at(first, rest, nodes, current)
            == Some(r1);
    let (n2, c2) = choose|nodes: Seq<u32>, current: u32|
        #[trigger] walk_state(first, rest, nil, head, nodes, current) && failure_at(first, rest, nodes, current)
            == Some(r2);
    lemma_walk_length(first, rest, nil, head, n1, c1, n2, c2);
    lemma_walk_length(first, rest, nil, head, n2, c2, n1, c1);
    assert forall|k: int| 0 <= k < n1.len() implies n1[k] == n2[k] by {
        lemma_walks_agree(first, rest, nil, head, n1, c1, n2, c2, k);
    }
    lemma_walks_agree(first, rest, nil, head, n1, c1, n2, c2, n1.len() as int);
    assert(n1 =~= n2);
}

/// A walk that stops is no shorter than any other walk along the list.
proof fn lemma_walk_length(
    first: Map<u32, Set<u32>>,
    rest: Map<u32, Set<u32>>,
    nil: u32,
    head: u32,
    n1: Seq<u32>,
    c1: u32,
    n2: Seq<u32>,
    c2: u32,
)
    requires
        walk_state(first, rest, nil, head, n1, c1),
        walk_state(first, rest, nil, head, n2, c2),
        failure_at(first, rest, n1, c1) is Some,
    ensures
        n2.len() <= n1.len(),
{
    if n1.len() < n2.len() {
        let k = n1.len() as int;
        assert forall|i: int| 0 <= i < k implies n1[i] == n2[i] by {
            lemma_walks_agree(first, rest, nil, head, n1, c1, n2, c2, i);
        }
        lemma_walks_agree(first, rest, nil, head, n1, c1, n2, c2, k);
        assert(n2[k] == c1);
        if n1.contains(c1) {
            let i = choose|i: int| 0 <= i < n1.len() && n1[i] == c1;
            assert(n2[i] == n2[k]);
        } else {
            assert(has_single(first, n2[k]));
            if k < n2.len() - 1 {
                assert(singleton_value(rest, n2[k], n2[k + 1]));
            } else {
                assert(singleton_value(rest, n2.last(), c2));
            }
        }
    }
}

/// The single value stored under `node`, or why there is none.
fn single_list_value(map: &IdSetMap, node: u32, is_first: bool) -> (r: Result<u32, &'static str>)
    ensures
        r matches Ok(x) ==> singleton_value(map@, node, x),
        r is Err ==> forall|x: u32| !singleton_value(map@, node, x),
        r matches Err(e) ==> e@ == value_error(map@, node, is_first),
{
    match map.get(node) {
        None => Err(
            if is_first {
                "missing rdf:first entry"
            } else {
                "missing rdf:rest entry"
            },
        ),
        Some(values) => {
            if values.len() != 1 {
                proof {
                    assert forall|x: u32| !singleton_value(map@, node, x) by {
                        if singleton_value(map@, node, x) {
                            assert(values@ =~= Set::<u32>::empty().insert(x));
                            assert(values@.len() == 1);
                        }
                    }
                }
                Err(
                    if is_first {
                        "rdf:first entry must be singular"
                    } else {
                        "rdf:rest entry must be singular"
                    },
                )
            } else {
                let items = values.as_slice();
                let x = items[0];
                proof {
                    assert(items@.to_set() =~= Set::<u32>::empty().insert(x)) by {
                        assert forall|y: u32| items@.to_set().contains(y) implies y == x by {
                            let j = choose|j: int| 0 <= j < items@.len() && items@[j] == y;
                            assert(j == 0);
                        }
                    }
                }
                Ok(x)
            }
        },
    }
}

/// Reads the RDF list that starts at `head`: its members in order, or why
/// it is not a well-formed list (a cycle, a missing or repeated
/// `rdf:first`/`rdf:rest`).
pub fn parse_list(first: &IdSetMap, rest: &IdSetMap, rdf_nil_id: u32, head_id: u32) -> (r: Result<
    Vec<u32>,
    &'static str,
>)
    ensures
        r matches Ok(members) ==> is_rdf_list(first@, rest@, rdf_nil_id, head_id, members@),
        r is Err ==> forall|ms: Seq<u32>| !is_rdf_list(first@, rest@, rdf_nil_id, head_id, ms),
        r matches Ok(members) ==> list_members(first@, rest@, rdf_nil_id, head_id) == Some(
            members@,
        ),
        r is Err ==> list_members(first@, rest@, rdf_nil_id, head_id) is None,
        r matches Err(reason) ==> list_failure(first@, rest@, rdf_nil_id, head_id, reason@),
{
    let keys = first.keys();
    proof {
        vstd::seq_lib::seq_to_set_is_finite(keys@);
    }
    let mut members: Vec<u32> = Vec::new();
    let mut current = head_id;
    let mut visited = crate::idset::IdSet::new();
    let ghost mut nodes: Seq<u32> = Seq::empty();
    loop
        invariant
            first@.dom().finite(),
            nodes.len() == members@.len(),
            nodes.no_duplicates(),
            visited@ == nodes.to_set(),
            visited@.subset_of(first@.dom()),
            nodes.len() == 0 ==> current == head_id,
            nodes.len() > 0 ==> nodes[0] == head_id && singleton_value(
                rest@,
                nodes.last(),
                current,
            ) && current != rdf_nil_id,
            forall|i: int|
                0 <= i < nodes.len() ==> #[trigger] singleton_value(first@, nodes[i], members@[i]),
            forall|i: int|
                0 <= i < nodes.len() - 1 ==> #[trigger] singleton_value(rest@, nodes[i], nodes[i + 1])
                    && nodes[i + 1] != rdf_nil_id,
            forall|ns: Seq<u32>, ms: Seq<u32>|
                #[trigger] list_shape(first@, rest@, rdf_nil_id, head_id, ns, ms) ==> nodes.len()
                    < ns.len() && nodes == ns.take(nodes.len() as int) && members@ == ms.take(
                    nodes.len() as int,
                ) && current == ns[nodes.len() as int],
        decreases first@.dom().len() - visited@.len(),
    {
        proof {
            lemma_len_subset(visited@, first@.dom());
        }
        let ghost before_visited = visited@;
        if !visited.insert(current) {
            proof {
                assert forall|ms: Seq<u32>| !is_rdf_list(first@, rest@, rdf_nil_id, head_id, ms) by {
                    if is_rdf_list(first@, rest@, rdf_nil_id, head_id, ms) {
                        let ns = choose|ns: Seq<u32>| #[trigger]
                            list_shape(first@, rest@, rdf_nil_id, head_id, ns, ms);
                        let k = choose|k: int| 0 <= k < nodes.len() && nodes[k] == current;
                        assert(ns[k] == nodes[k]);
                        assert(ns[nodes.len() as int] == current);
                    }
                }
            }
            proof {
                assert forall|i: int| 0 <= i < nodes.len() implies #[trigger] has_single(first@, nodes[i]) by {
                    assert(singleton_value(first@, nodes[i], members@[i]));
                }
                assert(walk_state(first@, rest@, rdf_nil_id, head_id, nodes, current));
                assert(before_visited.contains(current));
                assert(nodes.contains(current));
                reveal_strlit("list contains a cycle");
                assert(failure_at(first@, rest@, nodes, current) == Some("list contains a cycle"@));
            }
            return Err("list contains a cycle");
        }
        let member = match single_list_value(first, current, true) {
            Ok(x) => x,
            Err(reason) => {
                proof {
                    assert forall|ms: Seq<u32>| !is_rdf_list(first@, rest@, rdf_nil_id, head_id, ms) by {
                        if is_rdf_list(first@, rest@, rdf_nil_id, head_id, ms) {
                            let ns = choose|ns: Seq<u32>| #[trigger]
                                list_shape(first@, rest@, rdf_nil_id, head_id, ns, ms);
                            assert(singleton_value(first@, ns[nodes.len() as int], ms[nodes.len() as int]));
                        }
                    }
                    assert forall|i: int| 0 <= i < nodes.len() implies #[trigger] has_single(first@, nodes[i]) by {
                        assert(singleton_value(first@, nodes[i], members@[i]));
                    }
                    assert(walk_state(first@, rest@, rdf_nil_id, head_id, nodes, current));
                    assert(!nodes.contains(current));
                    assert(!has_single(first@, current));
                    assert(failure_at(first@, rest@, nodes, current) == Some(reason@));
                }
                return Err(reason);
            },
        };
        let ghost old_nodes = nodes;
        let ghost old_members = members@;
        members.push(member);
        proof {
            nodes = nodes.push(current);
            old_nodes.lemma_push_to_set_commute(current);
            assert(!old_nodes.contains(current));
            assert(nodes.no_duplicates());
            assert forall|i: int| 0 <= i < nodes.len() implies #[trigger] singleton_value(
                first@,
                nodes[i],
                members@[i],
            ) by {
                if i < old_nodes.len() {
                    assert(nodes[i] == old_nodes[i]);
                    assert(members@[i] == old_members[i]);
                }
            }
            assert forall|i: int| 0 <= i < nodes.len() - 1 implies #[trigger] singleton_value(
                rest@,
                nodes[i],
                nodes[i + 1],
            ) && nodes[i + 1] != rdf_nil_id by {
                if i < old_nodes.len() - 1 {
                    assert(nodes[i] == old_nodes[i]);
                    assert(nodes[i + 1] == old_nodes[i + 1]);
                } else {
                    assert(nodes[i] == old_nodes.last());
                }
            }
        }
        let next = match single_list_value(rest, current, false) {
            Ok(x) => x,
            Err(reason) => {
                proof {
                    assert forall|ms: Seq<u32>| !is_rdf_list(first@, rest@, rdf_nil_id, head_id, ms) by {
                        if is_rdf_list(first@, rest@, rdf_nil_id, head_id, ms) {
                            let ns = choose|ns: Seq<u32>| #[trigger]
                                list_shape(first@, rest@, rdf_nil_id, head_id, ns, ms);
                            let k = old_nodes.len() as int;
                            assert(ns[k] == current);
                            if k < ns.len() - 1 {
                                assert(singleton_value(rest@, ns[k], ns[k + 1]));
                            } else {
                                assert(ns.last() == current);
                            }
                        }
                    }
                    assert forall|i: int| 0 <= i < old_nodes.len() implies #[trigger] has_single(first@, old_nodes[i]) by {
                        assert(singleton_value(first@, old_nodes[i], old_members[i]));
                    }
                    assert(walk_state(first@, rest@, rdf_nil_id, head_id, old_nodes, current));
                    assert(!old_nodes.contains(current));
                    assert(singleton_value(first@, current, member));
                    assert(has_single(first@, current));
                    assert(!has_single(rest@, current));
                    assert(failure_at(first@, rest@, old_nodes, current) == Some(reason@));
                }
                return Err(reason);
            },
        };
        if next == rdf_nil_id {
            proof {
                assert(list_shape(first@, rest@, rdf_nil_id, head_id, nodes, members@));
                lemma_list_members(first@, rest@, rdf_nil_id, head_id, members@);
            }
            return Ok(members);
        }
        proof {
            assert forall|ns: Seq<u32>, ms: Seq<u32>|
                #[trigger] list_shape(first@, rest@, rdf_nil_id, head_id, ns, ms) implies nodes.len()
                    < ns.len() && nodes == ns.take(nodes.len() as int) && members@ == ms.take(
                    nodes.len() as int,
                ) && next == ns[nodes.len() as int] by {
                let k = old_nodes.len() as int;
                assert(ns[k] == current);
                assert(singleton_value(first@, ns[k], ms[k]));
                assert(Set::<u32>::empty().insert(ms[k]).contains(member));
                assert(nodes =~= ns.take(k + 1));
                assert(members@ =~= ms.take(k + 1));
                if k == ns.len() - 1 {
                    assert(singleton_value(rest@, ns.last(), rdf_nil_id));
                    assert(Set::<u32>::empty().insert(rdf_nil_id).contains(next));
                } else {
                    assert(singleton_value(rest@, ns[k], ns[k + 1]));
                    assert(Set::<u32>::empty().insert(ns[k + 1]).contains(next));
                }
            }
            assert(visited@.len() == before_visited.len() + 1);
            assert(first@.contains_key(current));
            assert(visited@.subset_of(first@.dom()));
            lemma_len_subset(visited@, first@.dom());
        }
        current = next;
    }
}

} // verus!
