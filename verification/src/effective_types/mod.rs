use vstd::prelude::*;

pub mod maps;
pub mod origins;

use crate::closure_index::{ancestors, successors, ClosureIndex, TaxonomyIndex};
use crate::dataset_index::spec::EdgeField;
use crate::dataset_index::IndexedDataset;
use crate::effective_types::maps::{InstanceMap, OriginMap};
use crate::effective_types::origins::{
    copy_direct, direct_origin_rank, direct_rank, effective_origin_rank, effective_rank,
    origin_text, rank_byte, DirectTypeOrigin, EffectiveTypeOrigin,
};
use crate::identity::equality::{cluster, equivalent, is_member, EqualityIndex};
use crate::property_closure::rules::{equals_of, Triple};
use crate::property_closure::PropertyClosure;
use crate::effective_types::origins::{drank, erank};

verus! {

/// `m` gives instance `x` the class `c`.
pub open spec fn has_class<V>(m: Map<u32, Map<u32, V>>, x: u32, c: u32) -> bool {
    m.contains_key(x) && m[x].contains_key(c)
}

/// Every instance of `m` has at least one class.
pub open spec fn rows_nonempty<V>(m: Map<u32, Map<u32, V>>) -> bool {
    forall|x: u32| #[trigger] m.contains_key(x) ==> exists|c: u32| has_class(m, x, c)
}

/// `x` has class `c` asserted, or (with domain and range typing) as the
/// domain of a property it is the subject of, or the range of one it is
/// the object of, in the effective assertions `all`.
pub open spec fn base_class(index: IndexedDataset, all: Set<Triple>, typing: bool, x: u32, c: u32) -> bool {
    ||| successors(index.edges(EdgeField::TypeAssertions), x).contains(c)
    ||| typing && exists|t: Triple|
        #[trigger] all.contains(t) && t.0 == x && successors(index.edges(EdgeField::DomainByProperty), t.1).contains(c)
    ||| typing && exists|t: Triple|
        #[trigger] all.contains(t) && t.2 == x && successors(index.edges(EdgeField::RangeByProperty), t.1).contains(c)
}

/// `x` has direct class `c`: some resource equal to it has it as a base
/// class.
pub open spec fn direct_class(
    index: IndexedDataset,
    all: Set<Triple>,
    typing: bool,
    eq: Set<(u32, u32)>,
    x: u32,
    c: u32,
) -> bool {
    exists|y: u32| #[trigger] equals_of(eq, x).contains(y) && base_class(index, all, typing, y, c)
}

/// `x` has effective class `c`: a direct class or an ancestor of one in
/// the class hierarchy `tax`.
pub open spec fn effective_class(
    index: IndexedDataset,
    all: Set<Triple>,
    typing: bool,
    eq: Set<(u32, u32)>,
    tax: Map<u32, Set<u32>>,
    x: u32,
    c: u32,
) -> bool {
    ||| direct_class(index, all, typing, eq, x, c)
    ||| exists|d: u32| #[trigger] direct_class(index, all, typing, eq, x, d) && ancestors(tax, d).contains(c)
}

/// `o` truly explains why `x` has direct class `c`.
pub open spec fn direct_justified(
    index: IndexedDataset,
    all: Set<Triple>,
    typing: bool,
    eq: Set<(u32, u32)>,
    x: u32,
    c: u32,
    o: DirectTypeOrigin,
) -> bool
    decreases o,
{
    match o {
        DirectTypeOrigin::Asserted => successors(index.edges(EdgeField::TypeAssertions), x).contains(c),
        DirectTypeOrigin::Domain { via_property_id } => typing && (exists|t: Triple|
            #[trigger] all.contains(t) && t.0 == x && t.1 == via_property_id)
            && successors(index.edges(EdgeField::DomainByProperty), via_property_id).contains(c),
        DirectTypeOrigin::Range { via_property_id } => typing && (exists|t: Triple|
            #[trigger] all.contains(t) && t.2 == x && t.1 == via_property_id)
            && successors(index.edges(EdgeField::RangeByProperty), via_property_id).contains(c),
        DirectTypeOrigin::SameAs { source_instance_id, source_origin } => source_instance_id != x
            && equals_of(eq, x).contains(source_instance_id) && direct_justified(
            index,
            all,
            typing,
            eq,
            source_instance_id,
            c,
            *source_origin,
        ),
    }
}

/// `o` truly explains why `x` has effective class `c`.
pub open spec fn effective_justified(
    index: IndexedDataset,
    all: Set<Triple>,
    typing: bool,
    eq: Set<(u32, u32)>,
    tax: Map<u32, Set<u32>>,
    x: u32,
    c: u32,
    o: EffectiveTypeOrigin,
) -> bool {
    match o {
        EffectiveTypeOrigin::Direct(d) => direct_justified(index, all, typing, eq, x, c, d),
        EffectiveTypeOrigin::Inherited { from_class_id, from_origin } => ancestors(tax, from_class_id).contains(c)
            && direct_justified(index, all, typing, eq, x, from_class_id, from_origin),
    }
}

/// Every origin of `m` truly explains its class.
pub open spec fn direct_origins_justified(
    index: IndexedDataset,
    all: Set<Triple>,
    typing: bool,
    eq: Set<(u32, u32)>,
    m: Map<u32, Map<u32, DirectTypeOrigin>>,
) -> bool {
    forall|x: u32, c: u32| #[trigger] has_class(m, x, c) ==> direct_justified(index, all, typing, eq, x, c, m[x][c])
}

/// Gives `x` the class of each member of `classes` with `origin`, unless it
/// has that class with an origin at least as direct.
fn insert_classes(direct: &mut InstanceMap<DirectTypeOrigin>, x: u32, classes: &[u32], origin: &DirectTypeOrigin)
    requires
        old(direct).wf(),
    ensures
        final(direct).wf(),
        forall|x2: u32, c2: u32| #[trigger] has_class(final(direct)@, x2, c2) <==> (has_class(old(direct)@, x2, c2) || (x2 == x && classes@.contains(c2))),
        forall|x2: u32, c2: u32| #[trigger] has_class(final(direct)@, x2, c2) ==> (has_class(old(direct)@, x2, c2) && final(direct)@[x2][c2] == old(direct)@[x2][c2]) || (x2 == x && classes@.contains(c2) && final(direct)@[x2][c2] == *origin),
        ranks_settle(old(direct)@, final(direct)@),
        forall|c2: u32| #[trigger] classes@.contains(c2) ==> drank(final(direct)@[x][c2]) <= drank(*origin),
{
    let n = classes.len();
    let mut i: usize = 0;
    let rank = direct_origin_rank(origin);
    let ghost start = direct@;
    while i < n
        invariant
            n == classes@.len(),
            i <= n,
            direct.wf(),
            rank == rank_byte(direct_rank(*origin)),
            forall|x2: u32, c2: u32| #[trigger] has_class(direct@, x2, c2) <==> (has_class(start, x2, c2) || (x2 == x && classes@.take(i as int).contains(c2))),
            forall|x2: u32, c2: u32| #[trigger] has_class(direct@, x2, c2) ==> (has_class(start, x2, c2) && direct@[x2][c2] == start[x2][c2]) || (x2 == x && classes@.take(i as int).contains(c2) && direct@[x2][c2] == *origin),
            ranks_settle(start, direct@),
            forall|c2: u32| #[trigger] classes@.take(i as int).contains(c2) ==> drank(direct@[x][c2]) <= drank(*origin),
        decreases n - i,
    {
        let c = classes[i];
        let ghost before = direct@;
        let keep = match direct.get(x) {
            Some(m) => match m.get(c) {
                Some(existing) => direct_origin_rank(existing) <= rank,
                None => false,
            },
            None => false,
        };
        if !keep {
            direct.set(x, c, copy_direct(origin));
        }
        proof {
            let longer = classes@.take(i + 1);
            let shorter = classes@.take(i as int);
            assert(longer == shorter.push(c));
            assert forall|y: u32| longer.contains(y) <==> (shorter.contains(y) || y == c) by {
                if longer.contains(y) && y != c {
                    let k = choose|k: int| 0 <= k < longer.len() && longer[k] == y;
                    assert(shorter[k] == y);
                }
                if shorter.contains(y) {
                    let k = choose|k: int| 0 <= k < shorter.len() && shorter[k] == y;
                    assert(longer[k] == y);
                }
                if y == c {
                    assert(longer[shorter.len() as int] == y);
                }
            }
            if !keep {
                let inner = if before.contains_key(x) { before[x] } else { Map::<u32, DirectTypeOrigin>::empty() };
                assert(direct@ == before.insert(x, inner.insert(c, *origin)));
                assert forall|x2: u32, c2: u32| #[trigger] has_class(direct@, x2, c2) <==> (has_class(before, x2, c2) || (x2 == x && c2 == c)) by {
                    if x2 == x {
                        assert(direct@[x2] == inner.insert(c, *origin));
                    }
                }
                assert forall|x2: u32, c2: u32| #[trigger] has_class(direct@, x2, c2) implies (has_class(before, x2, c2) && direct@[x2][c2] == before[x2][c2]) || (x2 == x && direct@[x2][c2] == *origin) by {
                    if has_class(direct@, x2, c2) && x2 == x {
                        assert(direct@[x2] == inner.insert(c, *origin));
                    }
                }
            } else {
                assert(has_class(before, x, c));
            }
            assert forall|x2: u32, c2: u32| #[trigger] has_class(direct@, x2, c2) <==> (has_class(start, x2, c2) || (x2 == x && longer.contains(c2))) by {
                assert(has_class(before, x2, c2) <==> (has_class(start, x2, c2) || (x2 == x && shorter.contains(c2))));
            }
            assert forall|x2: u32, c2: u32| #[trigger] has_class(direct@, x2, c2) implies (has_class(start, x2, c2) && direct@[x2][c2] == start[x2][c2]) || (x2 == x && longer.contains(c2) && direct@[x2][c2] == *origin) by {
                if !keep && has_class(before, x2, c2) && !(x2 == x && c2 == c) {
                    assert(has_class(before, x2, c2));
                }
            }
            assert(ranks_settle(before, direct@)) by {
                assert forall|x2: u32, c2: u32| #[trigger] has_class(before, x2, c2) implies has_class(direct@, x2, c2) && drank(direct@[x2][c2]) <= drank(before[x2][c2]) by {
                    if !keep && x2 == x && c2 == c {
                        assert(drank(before[x2][c2]) > rank);
                    }
                }
            }
            lemma_ranks_settle_trans(start, before, direct@);
            assert forall|c2: u32| #[trigger] longer.contains(c2) implies drank(direct@[x][c2]) <= drank(*origin) by {
                if c2 != c {
                    assert(shorter.contains(c2));
                    assert(has_class(before, x, c2));
                }
            }
        }
        i += 1;
    }
    proof {
        assert(classes@.take(n as int) =~= classes@);
    }
}

/// Classes are never lost, and their origins only become more direct.
pub open spec fn ranks_settle(old_m: Map<u32, Map<u32, DirectTypeOrigin>>, new_m: Map<u32, Map<u32, DirectTypeOrigin>>) -> bool {
    forall|x: u32, c: u32| #[trigger] has_class(old_m, x, c) ==> has_class(new_m, x, c) && drank(new_m[x][c]) <= drank(old_m[x][c])
}

proof fn lemma_ranks_settle_trans(
    a: Map<u32, Map<u32, DirectTypeOrigin>>,
    b: Map<u32, Map<u32, DirectTypeOrigin>>,
    c: Map<u32, Map<u32, DirectTypeOrigin>>,
)
    requires
        ranks_settle(a, b),
        ranks_settle(b, c),
    ensures
        ranks_settle(a, c),
{
    assert forall|x: u32, k: u32| #[trigger] has_class(a, x, k) implies has_class(c, x, k) && drank(c[x][k]) <= drank(a[x][k]) by {
        assert(has_class(b, x, k));
    }
}

/// Instance `x` has class `c` in `m`, with an origin of rank at most `n`.
pub open spec fn rank_at_most(m: Map<u32, Map<u32, DirectTypeOrigin>>, x: u32, c: u32, n: u8) -> bool {
    has_class(m, x, c) && drank(m[x][c]) <= n
}

/// `o` names no equal resource: it is an assertion, a domain or a range.
pub open spec fn is_base_origin(o: DirectTypeOrigin) -> bool {
    !(o is SameAs)
}

/// Each class in `m` has an origin at least as direct as every assertion,
/// domain or range that explains it.
pub open spec fn base_ranks_least(
    index: IndexedDataset,
    all: Set<Triple>,
    typing: bool,
    eq: Set<(u32, u32)>,
    m: Map<u32, Map<u32, DirectTypeOrigin>>,
) -> bool {
    forall|x: u32, c: u32, b: DirectTypeOrigin|
        #[trigger] direct_justified(index, all, typing, eq, x, c, b) && is_base_origin(b) ==> rank_at_most(m, x, c, drank(b))
}

/// Each class in `m` has an origin at least as direct as every origin
/// that explains it.
pub open spec fn direct_ranks_least(
    index: IndexedDataset,
    all: Set<Triple>,
    typing: bool,
    eq: Set<(u32, u32)>,
    m: Map<u32, Map<u32, DirectTypeOrigin>>,
) -> bool {
    forall|x: u32, c: u32, o: DirectTypeOrigin|
        #[trigger] direct_justified(index, all, typing, eq, x, c, o) ==> rank_at_most(m, x, c, drank(o))
}

proof fn lemma_rank_at_most_settles(
    a: Map<u32, Map<u32, DirectTypeOrigin>>,
    b: Map<u32, Map<u32, DirectTypeOrigin>>,
)
    requires
        ranks_settle(a, b),
    ensures
        forall|x: u32, c: u32, n: u8| #[trigger] rank_at_most(a, x, c, n) ==> rank_at_most(b, x, c, n),
{
    assert forall|x: u32, c: u32, n: u8| #[trigger] rank_at_most(a, x, c, n) implies rank_at_most(b, x, c, n) by {
        assert(has_class(a, x, c));
    }
}

/// The base classes of every instance, each with an origin that explains
/// it: asserted classes, and with domain and range typing the domains
/// and ranges of the effective assertions.
fn collect_direct_types(
    index: &IndexedDataset,
    closure: &PropertyClosure,
    typing: bool,
    Ghost(eq): Ghost<Set<(u32, u32)>>,
) -> (r: InstanceMap<DirectTypeOrigin>)
    ensures
        r.wf(),
        forall|x: u32, c: u32| #[trigger] has_class(r@, x, c) <==> base_class(*index, closure.all(), typing, x, c),
        direct_origins_justified(*index, closure.all(), typing, eq, r@),
        base_ranks_least(*index, closure.all(), typing, eq, r@),
{
    let ghost all = closure.all();
    let types = index.type_assertions();
    let mut direct = InstanceMap::new();
    let n = types.len();
    let mut i: usize = 0;
    let asserted = DirectTypeOrigin::Asserted;
    while i < n
        invariant
            n == types.key_seq().len(),
            n == types.set_seq().len(),
            types@ == index.edges(EdgeField::TypeAssertions),
            i <= n,
            direct.wf(),
            asserted == DirectTypeOrigin::Asserted,
            forall|x: u32, c: u32| #[trigger] has_class(direct@, x, c) <==> (exists|k: int| 0 <= k < i && types.key_seq()[k] == x && types@[x].contains(c)),
            direct_origins_justified(*index, all, typing, eq, direct@),
            forall|x: u32, c: u32| #[trigger] has_class(direct@, x, c) ==> drank(direct@[x][c]) == 0,
        decreases n - i,
    {
        let x = types.key_at(i);
        let classes = types.set_at(i).as_slice();
        let ghost before = direct@;
        insert_classes(&mut direct, x, classes, &asserted);
        proof {
            assert forall|x2: u32, c2: u32| #[trigger] has_class(direct@, x2, c2) implies drank(direct@[x2][c2]) == 0 by {
                if !(has_class(before, x2, c2) && direct@[x2][c2] == before[x2][c2]) {
                    assert(direct@[x2][c2] == asserted);
                }
            }
            assert forall|x2: u32, c2: u32| #[trigger] has_class(direct@, x2, c2) implies direct_justified(*index, all, typing, eq, x2, c2, direct@[x2][c2]) by {
                if !(has_class(before, x2, c2) && direct@[x2][c2] == before[x2][c2]) {
                    assert(classes@.to_set().contains(c2) || has_class(before, x2, c2));
                    if !has_class(before, x2, c2) {
                        assert(classes@.contains(c2));
                        assert(classes@.to_set().contains(c2));
                    } else {
                        assert(direct@[x2][c2] == asserted);
                        if !classes@.contains(c2) {
                            assert(types@[x].contains(c2) || true);
                        }
                    }
                }
            }
            assert forall|x2: u32, c2: u32| #[trigger] has_class(direct@, x2, c2) <==> (exists|k: int| 0 <= k < i + 1 && types.key_seq()[k] == x2 && types@[x2].contains(c2)) by {
                if x2 == x && classes@.contains(c2) {
                    assert(classes@.to_set().contains(c2));
                }
                if x2 == x && types@[x2].contains(c2) {
                    assert(classes@.to_set().contains(c2));
                }
                if exists|k: int| 0 <= k < i + 1 && types.key_seq()[k] == x2 && types@[x2].contains(c2) {
                    let k = choose|k: int| 0 <= k < i + 1 && types.key_seq()[k] == x2 && types@[x2].contains(c2);
                    if k == i {
                        assert(classes@.to_set().contains(c2));
                    }
                }
            }
        }
        i += 1;
    }
    proof {
        assert forall|x: u32, c: u32| #[trigger] has_class(direct@, x, c) <==> successors(index.edges(EdgeField::TypeAssertions), x).contains(c) by {
            if successors(index.edges(EdgeField::TypeAssertions), x).contains(c) {
                assert(types@.contains_key(x));
                assert(types.key_seq().contains(x));
            }
        }
    }
    if typing {
        let items = closure.all_assertions().as_slice();
        let domains = index.domain_by_property();
        let ranges = index.range_by_property();
        let m = items.len();
        let mut j: usize = 0;
        while j < m
            invariant
                m == items@.len(),
                items@.to_set() == all,
                all == closure.all(),
                typing,
                domains@ == index.edges(EdgeField::DomainByProperty),
                ranges@ == index.edges(EdgeField::RangeByProperty),
                j <= m,
                direct.wf(),
                forall|x: u32, c: u32| #[trigger] has_class(direct@, x, c) <==> (successors(index.edges(EdgeField::TypeAssertions), x).contains(c)
                    || (exists|k: int| 0 <= k < j && #[trigger] items@[k].0 == x && successors(domains@, items@[k].1).contains(c))
                    || (exists|k: int| 0 <= k < j && #[trigger] items@[k].2 == x && successors(ranges@, items@[k].1).contains(c))),
                direct_origins_justified(*index, all, typing, eq, direct@),
                forall|x: u32, c: u32| #[trigger] successors(index.edges(EdgeField::TypeAssertions), x).contains(c) ==> rank_at_most(direct@, x, c, 0),
                forall|k: int, c: u32| 0 <= k < j && #[trigger] successors(domains@, items@[k].1).contains(c) ==> rank_at_most(direct@, items@[k].0, c, 10),
                forall|k: int, c: u32| 0 <= k < j && #[trigger] successors(ranges@, items@[k].1).contains(c) ==> rank_at_most(direct@, items@[k].2, c, 20),
            decreases m - j,
        {
            let (s, p, o) = items[j];
            let ghost t = items@[j as int];
            proof {
                assert(items@.to_set().contains(t));
            }
            let ghost before = direct@;
            let domain_origin = DirectTypeOrigin::Domain { via_property_id: p };
            let domain_classes: &[u32] = match domains.get(p) {
                Some(set) => set.as_slice(),
                None => &[],
            };
            insert_classes(&mut direct, s, domain_classes, &domain_origin);
            let ghost middle = direct@;
            let range_origin = DirectTypeOrigin::Range { via_property_id: p };
            let range_classes: &[u32] = match ranges.get(p) {
                Some(set) => set.as_slice(),
                None => &[],
            };
            insert_classes(&mut direct, o, range_classes, &range_origin);
            proof {
                assert(domain_classes@.to_set() =~= successors(domains@, p));
                assert(range_classes@.to_set() =~= successors(ranges@, p));
                lemma_ranks_settle_trans(before, middle, direct@);
                lemma_rank_at_most_settles(before, direct@);
                lemma_rank_at_most_settles(middle, direct@);
                assert forall|k: int, c: u32| 0 <= k < j + 1 && #[trigger] successors(domains@, items@[k].1).contains(c) implies rank_at_most(direct@, items@[k].0, c, 10) by {
                    if k == j {
                        assert(domain_classes@.to_set().contains(c));
                        assert(domain_classes@.contains(c));
                        assert(rank_at_most(middle, s, c, 10));
                    } else {
                        assert(rank_at_most(before, items@[k].0, c, 10));
                    }
                }
                assert forall|k: int, c: u32| 0 <= k < j + 1 && #[trigger] successors(ranges@, items@[k].1).contains(c) implies rank_at_most(direct@, items@[k].2, c, 20) by {
                    if k == j {
                        assert(range_classes@.to_set().contains(c));
                        assert(range_classes@.contains(c));
                    } else {
                        assert(rank_at_most(before, items@[k].2, c, 20));
                    }
                }
                assert forall|x: u32, c: u32| #[trigger] successors(index.edges(EdgeField::TypeAssertions), x).contains(c) implies rank_at_most(direct@, x, c, 0) by {
                    assert(rank_at_most(before, x, c, 0));
                }
                assert forall|x2: u32, c2: u32| #[trigger] has_class(middle, x2, c2) implies direct_justified(*index, all, typing, eq, x2, c2, middle[x2][c2]) by {
                    if !(has_class(before, x2, c2) && middle[x2][c2] == before[x2][c2]) {
                        assert(middle[x2][c2] == domain_origin);
                        assert(x2 == s);
                        if !has_class(before, x2, c2) {
                            assert(domain_classes@.contains(c2));
                            assert(domain_classes@.to_set().contains(c2));
                        }
                        assert(all.contains(t) && t.0 == x2 && t.1 == p);
                        assert(domain_classes@.to_set().contains(c2));
                    }
                }
                assert forall|x2: u32, c2: u32| #[trigger] has_class(direct@, x2, c2) implies direct_justified(*index, all, typing, eq, x2, c2, direct@[x2][c2]) by {
                    if !(has_class(middle, x2, c2) && direct@[x2][c2] == middle[x2][c2]) {
                        assert(direct@[x2][c2] == range_origin);
                        assert(x2 == o);
                        assert(all.contains(t) && t.2 == x2 && t.1 == p);
                        assert(range_classes@.to_set().contains(c2));
                    }
                }
                assert forall|x2: u32, c2: u32| #[trigger] has_class(direct@, x2, c2) <==> (successors(index.edges(EdgeField::TypeAssertions), x2).contains(c2)
                    || (exists|k: int| 0 <= k < j + 1 && #[trigger] items@[k].0 == x2 && successors(domains@, items@[k].1).contains(c2))
                    || (exists|k: int| 0 <= k < j + 1 && #[trigger] items@[k].2 == x2 && successors(ranges@, items@[k].1).contains(c2))) by {
                    if x2 == s && domain_classes@.contains(c2) {
                        assert(domain_classes@.to_set().contains(c2));
                        assert(items@[j as int].0 == x2);
                    }
                    if x2 == o && range_classes@.contains(c2) {
                        assert(range_classes@.to_set().contains(c2));
                        assert(items@[j as int].2 == x2);
                    }
                    if exists|k: int| 0 <= k < j + 1 && #[trigger] items@[k].0 == x2 && successors(domains@, items@[k].1).contains(c2) {
                        let k = choose|k: int| 0 <= k < j + 1 && #[trigger] items@[k].0 == x2 && successors(domains@, items@[k].1).contains(c2);
                        if k == j {
                            assert(domain_classes@.to_set().contains(c2));
                        }
                    }
                    if exists|k: int| 0 <= k < j + 1 && #[trigger] items@[k].2 == x2 && successors(ranges@, items@[k].1).contains(c2) {
                        let k = choose|k: int| 0 <= k < j + 1 && #[trigger] items@[k].2 == x2 && successors(ranges@, items@[k].1).contains(c2);
                        if k == j {
                            assert(range_classes@.to_set().contains(c2));
                        }
                    }
                }
            }
            j += 1;
        }
        proof {
            assert forall|x: u32, c: u32| #[trigger] has_class(direct@, x, c) <==> base_class(*index, all, typing, x, c) by {
                if exists|t: Triple| #[trigger] all.contains(t) && t.0 == x && successors(index.edges(EdgeField::DomainByProperty), t.1).contains(c) {
                    let t = choose|t: Triple| #[trigger] all.contains(t) && t.0 == x && successors(index.edges(EdgeField::DomainByProperty), t.1).contains(c);
                    assert(items@.to_set().contains(t));
                    let k = choose|k: int| 0 <= k < m && items@[k] == t;
                    assert(items@[k].0 == x);
                }
                if exists|t: Triple| #[trigger] all.contains(t) && t.2 == x && successors(index.edges(EdgeField::RangeByProperty), t.1).contains(c) {
                    let t = choose|t: Triple| #[trigger] all.contains(t) && t.2 == x && successors(index.edges(EdgeField::RangeByProperty), t.1).contains(c);
                    assert(items@.to_set().contains(t));
                    let k = choose|k: int| 0 <= k < m && items@[k] == t;
                    assert(items@[k].2 == x);
                }
                if exists|k: int| 0 <= k < m && #[trigger] items@[k].0 == x && successors(domains@, items@[k].1).contains(c) {
                    let k = choose|k: int| 0 <= k < m && #[trigger] items@[k].0 == x && successors(domains@, items@[k].1).contains(c);
                    assert(all.contains(items@[k]));
                }
                if exists|k: int| 0 <= k < m && #[trigger] items@[k].2 == x && successors(ranges@, items@[k].1).contains(c) {
                    let k = choose|k: int| 0 <= k < m && #[trigger] items@[k].2 == x && successors(ranges@, items@[k].1).contains(c);
                    assert(all.contains(items@[k]));
                }
            }
        }
    }
    direct
}

/// A copy of the classes and origins of `y` in `direct`.
fn snapshot_types(direct: &InstanceMap<DirectTypeOrigin>, y: u32) -> (r: Vec<(u32, DirectTypeOrigin)>)
    requires
        direct.wf(),
    ensures
        forall|c: u32| has_class(direct@, y, c) ==> exists|k: int| 0 <= k < r@.len() && (#[trigger] r@[k]).0 == c,
        forall|k: int| 0 <= k < r@.len() ==> has_class(direct@, y, (#[trigger] r@[k]).0) && direct@[y][r@[k].0] == r@[k].1,
{
    let mut out: Vec<(u32, DirectTypeOrigin)> = Vec::new();
    match direct.get(y) {
        Some(m) => {
            let keys = m.keys();
            let n = keys.len();
            let mut i: usize = 0;
            while i < n
                invariant
                    n == keys@.len(),
                    keys@ == m.key_seq(),
                    n == m.value_seq().len(),
                    m.wf(),
                    m@ == direct@[y],
                    direct@.contains_key(y),
                    i <= n,
                    out@.len() == i,
                    forall|k: int| 0 <= k < i ==> (#[trigger] out@[k]).0 == keys@[k] && has_class(direct@, y, out@[k].0) && direct@[y][out@[k].0] == out@[k].1,
                decreases n - i,
            {
                let origin = m.value_at(i);
                out.push((keys[i], copy_direct(origin)));
                i += 1;
            }
            proof {
                assert forall|c: u32| has_class(direct@, y, c) implies exists|k: int| 0 <= k < out@.len() && (#[trigger] out@[k]).0 == c by {
                    assert(keys@.to_set().contains(c));
                    let k = choose|k: int| 0 <= k < n && keys@[k] == c;
                    assert(out@[k].0 == c);
                }
            }
        },
        None => {},
    }
    out
}

/// Rank bytes keep their order when the same amount is added to both.
proof fn lemma_rank_byte_shift(r1: nat, r2: nat, k: nat)
    requires
        rank_byte(r1) <= rank_byte(r2),
    ensures
        rank_byte(k + r1) <= rank_byte(k + r2),
{
}

/// Following the `owl:sameAs` steps of an origin that explains why `x` has
/// class `c` leads to an assertion, domain or range of some resource `z`
/// equal to `x`, no less direct than the origin.
proof fn lemma_innermost(
    index: IndexedDataset,
    all: Set<Triple>,
    typing: bool,
    eq: Set<(u32, u32)>,
    x: u32,
    c: u32,
    o: DirectTypeOrigin,
) -> (r: (u32, DirectTypeOrigin))
    requires
        direct_justified(index, all, typing, eq, x, c, o),
    ensures
        is_base_origin(r.1),
        direct_justified(index, all, typing, eq, r.0, c, r.1),
        equals_of(eq, x).contains(r.0),
        direct_rank(r.1) <= direct_rank(o),
        r.0 != x ==> direct_rank(r.1) + 1 <= direct_rank(o),
    decreases o,
{
    match o {
        DirectTypeOrigin::SameAs { source_instance_id, source_origin } => {
            let y = source_instance_id;
            let inner = lemma_innermost(index, all, typing, eq, y, c, *source_origin);
            assert(is_member(eq, x));
            crate::identity::equality::lemma_cluster_shared(eq, x, y);
            assert(equals_of(eq, x).contains(inner.0));
            inner
        },
        _ => {
            lemma_self_equal(eq, x);
            (x, o)
        },
    }
}

/// The origins are the most direct there are, when they are for the
/// assertions, domains and ranges, and, through every equal resource,
/// one step more.
proof fn lemma_direct_ranks_least(
    index: IndexedDataset,
    all: Set<Triple>,
    typing: bool,
    eq: Set<(u32, u32)>,
    m: Map<u32, Map<u32, DirectTypeOrigin>>,
)
    requires
        base_ranks_least(index, all, typing, eq, m),
        forall|y: u32, z: u32, c: u32, b: DirectTypeOrigin|
            #[trigger] direct_justified(index, all, typing, eq, y, c, b) && is_base_origin(b) && is_member(eq, y)
                && #[trigger] cluster(eq, y).contains(z) && z != y ==> rank_at_most(m, z, c, rank_byte(1 + direct_rank(b))),
    ensures
        direct_ranks_least(index, all, typing, eq, m),
{
    assert forall|x: u32, c: u32, o: DirectTypeOrigin| #[trigger] direct_justified(index, all, typing, eq, x, c, o) implies rank_at_most(m, x, c, drank(o)) by {
        let (z, b) = lemma_innermost(index, all, typing, eq, x, c, o);
        if z == x {
            assert(rank_at_most(m, x, c, drank(b)));
        } else {
            assert(is_member(eq, x));
            crate::identity::equality::lemma_cluster_shared(eq, x, z);
            crate::identity::equality::lemma_member_in_cluster(eq, x);
            assert(cluster(eq, z).contains(x));
            assert(rank_at_most(m, x, c, rank_byte(1 + direct_rank(b))));
        }
    }
}

/// Gives every resource equal to an instance with direct classes those
/// classes too, with an origin through that instance.
fn propagate_equality_direct_types(
    index: &IndexedDataset,
    closure: &PropertyClosure,
    typing: bool,
    equality: &EqualityIndex,
    direct: &mut InstanceMap<DirectTypeOrigin>,
)
    requires
        old(direct).wf(),
        forall|x: u32, c: u32| #[trigger] has_class(old(direct)@, x, c) <==> base_class(*index, closure.all(), typing, x, c),
        direct_origins_justified(*index, closure.all(), typing, equality.pairs(), old(direct)@),
        base_ranks_least(*index, closure.all(), typing, equality.pairs(), old(direct)@),
    ensures
        final(direct).wf(),
        forall|x: u32, c: u32| #[trigger] has_class(final(direct)@, x, c) <==> direct_class(*index, closure.all(), typing, equality.pairs(), x, c),
        direct_origins_justified(*index, closure.all(), typing, equality.pairs(), final(direct)@),
        direct_ranks_least(*index, closure.all(), typing, equality.pairs(), final(direct)@),
{
    let ghost all = closure.all();
    let ghost eq = equality.pairs();
    let sources = vstd::slice::slice_to_vec(direct.keys());
    let ghost base_map = direct@;
    let n = sources.len();
    let mut k: usize = 0;
    proof {
        assert forall|x: u32, c: u32| #[trigger] has_class(direct@, x, c) implies direct_class(*index, all, typing, eq, x, c) by {
            lemma_self_equal(eq, x);
        }
    }
    while k < n
        invariant
            n == sources@.len(),
            sources@.to_set() == base_map.dom(),
            forall|x: u32, c: u32| #[trigger] has_class(base_map, x, c) <==> base_class(*index, all, typing, x, c),
            all == closure.all(),
            eq == equality.pairs(),
            k <= n,
            direct.wf(),
            forall|x: u32, c: u32| base_class(*index, all, typing, x, c) ==> #[trigger] has_class(direct@, x, c),
            forall|x: u32, c: u32, y: u32| (exists|j: int| 0 <= j < k && sources@[j] == y) && is_member(eq, y) && #[trigger] cluster(eq, y).contains(x) && #[trigger] base_class(*index, all, typing, y, c) ==> has_class(direct@, x, c),
            forall|x: u32, c: u32| #[trigger] has_class(direct@, x, c) ==> direct_class(*index, all, typing, eq, x, c),
            direct_origins_justified(*index, all, typing, eq, direct@),
            base_ranks_least(*index, all, typing, eq, direct@),
            forall|y: u32, z: u32, c: u32, b: DirectTypeOrigin|
                (exists|j: int| 0 <= j < k && sources@[j] == y) && #[trigger] direct_justified(*index, all, typing, eq, y, c, b) && is_base_origin(b) && is_member(eq, y)
                    && #[trigger] cluster(eq, y).contains(z) && z != y ==> rank_at_most(direct@, z, c, rank_byte(1 + direct_rank(b))),
        decreases n - k,
    {
        let y = sources[k];
        let ghost start = direct@;
        match equality.equivalents_of(y) {
            Some(equivalents) => {
                let entries = snapshot_types(direct, y);
                let targets = equivalents.as_slice();
                let nt = targets.len();
                let mut z_i: usize = 0;
                while z_i < nt
                    invariant
                        nt == targets@.len(),
                        targets@.to_set() == cluster(eq, y),
                        is_member(eq, y),
                        all == closure.all(),
                        eq == equality.pairs(),
                        z_i <= nt,
                        direct.wf(),
                        forall|c: u32| has_class(start, y, c) ==> exists|j: int| 0 <= j < entries@.len() && (#[trigger] entries@[j]).0 == c,
                        forall|j: int| 0 <= j < entries@.len() ==> has_class(start, y, (#[trigger] entries@[j]).0) && start[y][entries@[j].0] == entries@[j].1,
                        forall|x: u32, c: u32| #[trigger] has_class(start, x, c) ==> has_class(direct@, x, c),
                        forall|x: u32, c: u32| #[trigger] has_class(start, x, c) ==> direct_class(*index, all, typing, eq, x, c),
                        direct_origins_justified(*index, all, typing, eq, start),
                        forall|x: u32, c: u32| #[trigger] has_class(direct@, x, c) ==> direct_class(*index, all, typing, eq, x, c),
                        direct_origins_justified(*index, all, typing, eq, direct@),
                        forall|j: int, c: u32| 0 <= j < z_i && #[trigger] targets@[j] != y && has_class(start, y, c) ==> #[trigger] has_class(direct@, targets@[j], c),
                        ranks_settle(start, direct@),
                        base_ranks_least(*index, all, typing, eq, start),
                        forall|j: int, c: u32| #![trigger targets@[j], has_class(start, y, c)] 0 <= j < z_i && targets@[j] != y && has_class(start, y, c) ==> rank_at_most(direct@, targets@[j], c, rank_byte(1 + direct_rank(start[y][c]))),
                    decreases nt - z_i,
                {
                    let z = targets[z_i];
                    proof {
                        assert(targets@.to_set().contains(z));
                        crate::identity::equality::lemma_cluster_shared(eq, y, z);
                        crate::identity::equality::lemma_member_in_cluster(eq, y);
                    }
                    let ghost row = direct@;
                    if z != y {
                        let ne = entries.len();
                        let mut e: usize = 0;
                        while e < ne
                            invariant
                                ne == entries@.len(),
                                e <= ne,
                                z != y,
                                is_member(eq, y),
                                cluster(eq, z) == cluster(eq, y),
                                cluster(eq, y).contains(y),
                                is_member(eq, z),
                                all == closure.all(),
                                eq == equality.pairs(),
                                direct.wf(),
                                forall|j: int| 0 <= j < entries@.len() ==> has_class(start, y, (#[trigger] entries@[j]).0) && start[y][entries@[j].0] == entries@[j].1,
                                forall|x: u32, c: u32| #[trigger] has_class(start, x, c) ==> direct_class(*index, all, typing, eq, x, c),
                                direct_origins_justified(*index, all, typing, eq, start),
                                forall|x: u32, c: u32| #[trigger] has_class(row, x, c) ==> has_class(direct@, x, c),
                                forall|x: u32, c: u32| #[trigger] has_class(direct@, x, c) ==> direct_class(*index, all, typing, eq, x, c),
                                direct_origins_justified(*index, all, typing, eq, direct@),
                                forall|j: int| 0 <= j < e ==> #[trigger] has_class(direct@, z, entries@[j].0),
                                ranks_settle(row, direct@),
                                forall|j: int| 0 <= j < e ==> rank_at_most(direct@, z, (#[trigger] entries@[j]).0, rank_byte(1 + direct_rank(entries@[j].1))),
                            decreases ne - e,
                        {
                            let c = entries[e].0;
                            let candidate = DirectTypeOrigin::SameAs {
                                source_instance_id: y,
                                source_origin: Box::new(copy_direct(&entries[e].1)),
                            };
                            let one = vec![c];
                            let ghost before = direct@;
                            proof {
                                assert(has_class(start, y, c));
                                assert(direct_justified(*index, all, typing, eq, y, c, start[y][c]));
                                assert(equals_of(eq, z).contains(y));
                                assert(direct_justified(*index, all, typing, eq, z, c, candidate));
                                assert(direct_class(*index, all, typing, eq, y, c));
                                let w = choose|w: u32| #[trigger] equals_of(eq, y).contains(w) && base_class(*index, all, typing, w, c);
                                assert(equals_of(eq, z).contains(w));
                                assert(direct_class(*index, all, typing, eq, z, c));
                            }
                            insert_classes(direct, z, one.as_slice(), &candidate);
                            proof {
                                lemma_ranks_settle_trans(row, before, direct@);
                                lemma_rank_at_most_settles(before, direct@);
                                assert(one@[0] == c);
                                assert(one@.contains(c));
                                assert(drank(candidate) == rank_byte(1 + direct_rank(entries@[e as int].1)));
                                assert forall|j: int| 0 <= j < e + 1 implies rank_at_most(direct@, z, (#[trigger] entries@[j]).0, rank_byte(1 + direct_rank(entries@[j].1))) by {
                                    if j < e {
                                        assert(rank_at_most(before, z, entries@[j].0, rank_byte(1 + direct_rank(entries@[j].1))));
                                    }
                                }
                                assert forall|x2: u32, c2: u32| #[trigger] has_class(direct@, x2, c2) implies direct_justified(*index, all, typing, eq, x2, c2, direct@[x2][c2]) && direct_class(*index, all, typing, eq, x2, c2) by {
                                    if !(has_class(before, x2, c2) && direct@[x2][c2] == before[x2][c2]) {
                                        assert(one@.contains(c2));
                                        assert(c2 == c);
                                    }
                                    if !has_class(before, x2, c2) {
                                        assert(one@.contains(c2));
                                    }
                                }
                                assert(one@[0] == c);
                                assert(one@.contains(c));
                            }
                            e += 1;
                        }
                        proof {
                            assert forall|c: u32| has_class(start, y, c) implies #[trigger] has_class(direct@, z, c) by {
                                let j = choose|j: int| 0 <= j < entries@.len() && (#[trigger] entries@[j]).0 == c;
                            }
                            assert forall|c: u32| #[trigger] has_class(start, y, c) implies rank_at_most(direct@, z, c, rank_byte(1 + direct_rank(start[y][c]))) by {
                                let j = choose|j: int| 0 <= j < entries@.len() && (#[trigger] entries@[j]).0 == c;
                                assert(entries@[j].1 == start[y][c]);
                            }
                        }
                    }
                    proof {
                        assert forall|j: int, c: u32| 0 <= j < z_i + 1 && #[trigger] targets@[j] != y && has_class(start, y, c) implies #[trigger] has_class(direct@, targets@[j], c) by {
                            if j < z_i {
                                assert(has_class(row, targets@[j], c));
                            }
                        }
                        if z != y {
                            lemma_ranks_settle_trans(start, row, direct@);
                        } else {
                            assert(direct@ == row);
                        }
                        lemma_rank_at_most_settles(row, direct@);
                        assert forall|j: int, c: u32| #![trigger targets@[j], has_class(start, y, c)] 0 <= j < z_i + 1 && targets@[j] != y && has_class(start, y, c) implies rank_at_most(direct@, targets@[j], c, rank_byte(1 + direct_rank(start[y][c]))) by {
                            if j < z_i {
                                assert(rank_at_most(row, targets@[j], c, rank_byte(1 + direct_rank(start[y][c]))));
                            }
                        }
                    }
                    z_i += 1;
                }
                proof {
                    assert forall|x: u32, c: u32, y2: u32| (exists|j: int| 0 <= j < k + 1 && sources@[j] == y2) && is_member(eq, y2) && #[trigger] cluster(eq, y2).contains(x) && #[trigger] base_class(*index, all, typing, y2, c) implies has_class(direct@, x, c) by {
                        let j = choose|j: int| 0 <= j < k + 1 && sources@[j] == y2;
                        if j == k {
                            assert(y2 == y);
                            assert(has_class(start, y, c));
                            if x != y {
                                assert(targets@.to_set().contains(x));
                                let m = choose|m: int| 0 <= m < nt && targets@[m] == x;
                            }
                        }
                    }
                }
            },
            None => {
                proof {
                    assert forall|x: u32, c: u32, y2: u32| (exists|j: int| 0 <= j < k + 1 && sources@[j] == y2) && is_member(eq, y2) && #[trigger] cluster(eq, y2).contains(x) && #[trigger] base_class(*index, all, typing, y2, c) implies has_class(direct@, x, c) by {
                        let j = choose|j: int| 0 <= j < k + 1 && sources@[j] == y2;
                        if j == k {
                            assert(y2 == y);
                        }
                    }
                }
            },
        }
        proof {
            assert forall|x: u32, c: u32| base_class(*index, all, typing, x, c) implies #[trigger] has_class(direct@, x, c) by {
                assert(has_class(start, x, c));
            }
        }
        k += 1;
    }
    proof {
        assert forall|x: u32, c: u32| direct_class(*index, all, typing, eq, x, c) implies #[trigger] has_class(direct@, x, c) by {
            let y = choose|y: u32| #[trigger] equals_of(eq, x).contains(y) && base_class(*index, all, typing, y, c);
            if y != x {
                assert(is_member(eq, x));
                crate::identity::equality::lemma_cluster_shared(eq, x, y);
                crate::identity::equality::lemma_member_in_cluster(eq, x);
                assert(cluster(eq, y).contains(x));
                assert(has_class(base_map, y, c));
                assert(sources@.to_set().contains(y));
                let j = choose|j: int| 0 <= j < n && sources@[j] == y;
            }
        }
        assert forall|y: u32, z: u32, c: u32, b: DirectTypeOrigin|
            #[trigger] direct_justified(*index, all, typing, eq, y, c, b) && is_base_origin(b) && is_member(eq, y)
                && #[trigger] cluster(eq, y).contains(z) && z != y implies rank_at_most(direct@, z, c, rank_byte(1 + direct_rank(b))) by {
            assert(base_class(*index, all, typing, y, c));
            assert(has_class(base_map, y, c));
            assert(sources@.to_set().contains(y));
            let j = choose|j: int| 0 <= j < n && sources@[j] == y;
        }
        lemma_direct_ranks_least(*index, all, typing, eq, direct@);
    }
}

/// A resource stands for itself.
proof fn lemma_self_equal(eq: Set<(u32, u32)>, x: u32)
    ensures
        equals_of(eq, x).contains(x),
{
    if is_member(eq, x) {
        crate::identity::equality::lemma_member_in_cluster(eq, x);
    }
}

/// Gives `x` the effective class of each member of `classes` with
/// `origin`, unless it
/// has that class with an origin at least as direct.
fn insert_effective(direct: &mut InstanceMap<EffectiveTypeOrigin>, x: u32, classes: &[u32], origin: &EffectiveTypeOrigin)
    requires
        old(direct).wf(),
    ensures
        final(direct).wf(),
        forall|x2: u32, c2: u32| #[trigger] has_class(final(direct)@, x2, c2) <==> (has_class(old(direct)@, x2, c2) || (x2 == x && classes@.contains(c2))),
        forall|x2: u32, c2: u32| #[trigger] has_class(final(direct)@, x2, c2) ==> (has_class(old(direct)@, x2, c2) && final(direct)@[x2][c2] == old(direct)@[x2][c2]) || (x2 == x && classes@.contains(c2) && final(direct)@[x2][c2] == *origin),
        forall|x2: u32| #[trigger] final(direct)@.contains_key(x2) ==> old(direct)@.contains_key(x2) || (x2 == x && classes@.len() > 0),
        eranks_settle(old(direct)@, final(direct)@),
        forall|c2: u32| #[trigger] classes@.contains(c2) ==> erank(final(direct)@[x][c2]) <= erank(*origin),
        forall|x2: u32, c2: u32| #[trigger] has_class(old(direct)@, x2, c2) ==> final(direct)@[x2][c2] == old(direct)@[x2][c2] || (
        x2 == x && final(direct)@[x2][c2] == *origin && erank(*origin) < erank(old(direct)@[x2][c2])),
{
    let n = classes.len();
    let mut i: usize = 0;
    let rank = effective_origin_rank(origin);
    let ghost start = direct@;
    while i < n
        invariant
            n == classes@.len(),
            i <= n,
            direct.wf(),
            rank == rank_byte(effective_rank(*origin)),
            forall|x2: u32, c2: u32| #[trigger] has_class(direct@, x2, c2) <==> (has_class(start, x2, c2) || (x2 == x && classes@.take(i as int).contains(c2))),
            forall|x2: u32, c2: u32| #[trigger] has_class(direct@, x2, c2) ==> (has_class(start, x2, c2) && direct@[x2][c2] == start[x2][c2]) || (x2 == x && classes@.take(i as int).contains(c2) && direct@[x2][c2] == *origin),
            forall|x2: u32| #[trigger] direct@.contains_key(x2) ==> start.contains_key(x2) || (x2 == x && i > 0),
            eranks_settle(start, direct@),
            forall|c2: u32| #[trigger] classes@.take(i as int).contains(c2) ==> erank(direct@[x][c2]) <= erank(*origin),
            forall|x2: u32, c2: u32| #[trigger] has_class(start, x2, c2) ==> direct@[x2][c2] == start[x2][c2] || (
            x2 == x && direct@[x2][c2] == *origin && erank(*origin) < erank(start[x2][c2])),
        decreases n - i,
    {
        let c = classes[i];
        let ghost before = direct@;
        let keep = match direct.get(x) {
            Some(m) => match m.get(c) {
                Some(existing) => effective_origin_rank(existing) <= rank,
                None => false,
            },
            None => false,
        };
        if !keep {
            direct.set(x, c, crate::effective_types::origins::copy_effective(origin));
        }
        proof {
            let longer = classes@.take(i + 1);
            let shorter = classes@.take(i as int);
            assert(longer == shorter.push(c));
            assert forall|y: u32| longer.contains(y) <==> (shorter.contains(y) || y == c) by {
                if longer.contains(y) && y != c {
                    let k = choose|k: int| 0 <= k < longer.len() && longer[k] == y;
                    assert(shorter[k] == y);
                }
                if shorter.contains(y) {
                    let k = choose|k: int| 0 <= k < shorter.len() && shorter[k] == y;
                    assert(longer[k] == y);
                }
                if y == c {
                    assert(longer[shorter.len() as int] == y);
                }
            }
            if !keep {
                let inner = if before.contains_key(x) { before[x] } else { Map::<u32, EffectiveTypeOrigin>::empty() };
                assert(direct@ == before.insert(x, inner.insert(c, *origin)));
                assert forall|x2: u32, c2: u32| #[trigger] has_class(direct@, x2, c2) <==> (has_class(before, x2, c2) || (x2 == x && c2 == c)) by {
                    if x2 == x {
                        assert(direct@[x2] == inner.insert(c, *origin));
                    }
                }
                assert forall|x2: u32, c2: u32| #[trigger] has_class(direct@, x2, c2) implies (has_class(before, x2, c2) && direct@[x2][c2] == before[x2][c2]) || (x2 == x && direct@[x2][c2] == *origin) by {
                    if has_class(direct@, x2, c2) && x2 == x {
                        assert(direct@[x2] == inner.insert(c, *origin));
                    }
                }
            } else {
                assert(has_class(before, x, c));
            }
            assert forall|x2: u32, c2: u32| #[trigger] has_class(direct@, x2, c2) <==> (has_class(start, x2, c2) || (x2 == x && longer.contains(c2))) by {
                assert(has_class(before, x2, c2) <==> (has_class(start, x2, c2) || (x2 == x && shorter.contains(c2))));
            }
            assert forall|x2: u32, c2: u32| #[trigger] has_class(direct@, x2, c2) implies (has_class(start, x2, c2) && direct@[x2][c2] == start[x2][c2]) || (x2 == x && longer.contains(c2) && direct@[x2][c2] == *origin) by {
                if !keep && has_class(before, x2, c2) && !(x2 == x && c2 == c) {
                    assert(has_class(before, x2, c2));
                }
            }
            assert(eranks_settle(before, direct@)) by {
                assert forall|x2: u32, c2: u32| #[trigger] has_class(before, x2, c2) implies has_class(direct@, x2, c2) && erank(direct@[x2][c2]) <= erank(before[x2][c2]) by {
                    if !keep && x2 == x && c2 == c {
                        assert(erank(before[x2][c2]) > rank);
                    }
                }
            }
            assert forall|x2: u32, c2: u32| #[trigger] has_class(start, x2, c2) implies has_class(direct@, x2, c2) && erank(direct@[x2][c2]) <= erank(start[x2][c2]) by {
                assert(has_class(before, x2, c2));
            }
            assert forall|x2: u32, c2: u32| #[trigger] has_class(start, x2, c2) implies direct@[x2][c2] == start[x2][c2] || (
            x2 == x && direct@[x2][c2] == *origin && erank(*origin) < erank(start[x2][c2])) by {
                assert(has_class(before, x2, c2));
                if !keep && x2 == x && c2 == c {
                    assert(erank(before[x2][c2]) > rank);
                    assert(erank(before[x2][c2]) <= erank(start[x2][c2]));
                }
            }
            assert forall|c2: u32| #[trigger] longer.contains(c2) implies erank(direct@[x][c2]) <= erank(*origin) by {
                if c2 != c {
                    assert(shorter.contains(c2));
                    assert(has_class(before, x, c2));
                }
            }
        }
        i += 1;
    }
    proof {
        assert(classes@.take(n as int) =~= classes@);
    }
}

/// Effective classes are never lost, and their origins only become more
/// direct.
pub open spec fn eranks_settle(old_m: Map<u32, Map<u32, EffectiveTypeOrigin>>, new_m: Map<u32, Map<u32, EffectiveTypeOrigin>>) -> bool {
    forall|x: u32, c: u32| #[trigger] has_class(old_m, x, c) ==> has_class(new_m, x, c) && erank(new_m[x][c]) <= erank(old_m[x][c])
}

/// Instance `x` has effective class `c` in `m`, with an origin of rank at
/// most `n`.
pub open spec fn erank_at_most(m: Map<u32, Map<u32, EffectiveTypeOrigin>>, x: u32, c: u32, n: u8) -> bool {
    has_class(m, x, c) && erank(m[x][c]) <= n
}

/// Each effective class in `m` has an origin at least as direct as every
/// origin that explains it.
pub open spec fn effective_ranks_least(
    index: IndexedDataset,
    all: Set<Triple>,
    typing: bool,
    eq: Set<(u32, u32)>,
    tax: Map<u32, Set<u32>>,
    m: Map<u32, Map<u32, EffectiveTypeOrigin>>,
) -> bool {
    forall|x: u32, c: u32, o: EffectiveTypeOrigin|
        #[trigger] effective_justified(index, all, typing, eq, tax, x, c, o) ==> erank_at_most(m, x, c, erank(o))
}

/// The direct class `c` of `x` in `d`, and its ancestors in `tax`, have
/// effective origins in `m` at least as direct as the one that `d` gives.
pub open spec fn promoted(
    m: Map<u32, Map<u32, EffectiveTypeOrigin>>,
    d: Map<u32, Map<u32, DirectTypeOrigin>>,
    tax: Map<u32, Set<u32>>,
    x: u32,
    c: u32,
) -> bool {
    &&& erank_at_most(m, x, c, rank_byte(direct_rank(d[x][c])))
    &&& forall|a: u32| #[trigger] ancestors(tax, c).contains(a) ==> erank_at_most(m, x, a, rank_byte(10 + direct_rank(d[x][c])))
}

proof fn lemma_promoted_settles(
    m1: Map<u32, Map<u32, EffectiveTypeOrigin>>,
    m2: Map<u32, Map<u32, EffectiveTypeOrigin>>,
    d: Map<u32, Map<u32, DirectTypeOrigin>>,
    tax: Map<u32, Set<u32>>,
    x: u32,
    c: u32,
)
    requires
        eranks_settle(m1, m2),
        promoted(m1, d, tax, x, c),
    ensures
        promoted(m2, d, tax, x, c),
{
    assert(has_class(m1, x, c));
    assert forall|a: u32| #[trigger] ancestors(tax, c).contains(a) implies erank_at_most(m2, x, a, rank_byte(10 + direct_rank(d[x][c]))) by {
        assert(erank_at_most(m1, x, a, rank_byte(10 + direct_rank(d[x][c]))));
        assert(has_class(m1, x, a));
    }
}

/// Every origin of `m` truly explains its effective class.
pub open spec fn effective_origins_justified(
    index: IndexedDataset,
    all: Set<Triple>,
    typing: bool,
    eq: Set<(u32, u32)>,
    tax: Map<u32, Set<u32>>,
    m: Map<u32, Map<u32, EffectiveTypeOrigin>>,
) -> bool {
    forall|x: u32, c: u32| #[trigger] has_class(m, x, c) ==> effective_justified(index, all, typing, eq, tax, x, c, m[x][c])
}

/// The class that effective origin `o` of class `a` comes from: `a` itself
/// for a direct origin, the subclass for an inherited one.
pub open spec fn origin_source(o: EffectiveTypeOrigin, a: u32) -> u32 {
    match o {
        EffectiveTypeOrigin::Direct(_) => a,
        EffectiveTypeOrigin::Inherited { from_class_id, .. } => from_class_id,
    }
}

/// `cur`, the origin of class `a`, is at least as direct as `cand`, which
/// comes from class `k`, and comes from a class no greater than `k` when
/// both are equally direct.
pub open spec fn tie_ok(cur: EffectiveTypeOrigin, a: u32, cand: EffectiveTypeOrigin, k: u32) -> bool {
    erank(cur) <= erank(cand) && (erank(cur) == erank(cand) ==> origin_source(cur, a) <= k)
}

/// The direct class `c` of `x` in `d` and its ancestors in `tax` are
/// effective classes of `x` in `m` whose origins beat, or tie from no
/// greater a class, those that `c` gives.
pub open spec fn settled_against(
    m: Map<u32, Map<u32, EffectiveTypeOrigin>>,
    d: Map<u32, Map<u32, DirectTypeOrigin>>,
    tax: Map<u32, Set<u32>>,
    x: u32,
    c: u32,
) -> bool {
    &&& has_class(m, x, c)
    &&& tie_ok(m[x][c], c, EffectiveTypeOrigin::Direct(d[x][c]), c)
    &&& forall|a: u32| #[trigger] ancestors(tax, c).contains(a) ==> has_class(m, x, a) && tie_ok(
        m[x][a],
        a,
        EffectiveTypeOrigin::Inherited { from_class_id: c, from_origin: d[x][c] },
        c,
    )
}

/// Among the origins that explain an effective class of `m` equally
/// directly, the one kept comes from the least class.
pub open spec fn effective_sources_least(
    index: IndexedDataset,
    all: Set<Triple>,
    typing: bool,
    eq: Set<(u32, u32)>,
    tax: Map<u32, Set<u32>>,
    m: Map<u32, Map<u32, EffectiveTypeOrigin>>,
) -> bool {
    forall|x: u32, a: u32, o: EffectiveTypeOrigin|
        #[trigger] effective_justified(index, all, typing, eq, tax, x, a, o) && has_class(m, x, a) && erank(o) == erank(m[x][a])
            ==> origin_source(m[x][a], a) <= origin_source(o, a)
}

/// The first `j` classes `keys` of the row of `x` are settled in `m`, and
/// every origin of that row comes from one of them.
#[verifier::opaque]
pub open spec fn row_ties(
    m: Map<u32, Map<u32, EffectiveTypeOrigin>>,
    d: Map<u32, Map<u32, DirectTypeOrigin>>,
    tax: Map<u32, Set<u32>>,
    x: u32,
    keys: Seq<u32>,
    j: int,
) -> bool {
    &&& forall|a: u32| #[trigger] has_class(m, x, a) ==> exists|jj: int| 0 <= jj < j && origin_source(m[x][a], a) == keys[jj]
    &&& forall|jj: int| 0 <= jj < j ==> settled_against(m, d, tax, x, #[trigger] keys[jj])
}

/// Every direct class of the first `i` instances is settled in `m`.
#[verifier::opaque]
pub open spec fn rows_settled(
    m: Map<u32, Map<u32, EffectiveTypeOrigin>>,
    d: Map<u32, Map<u32, DirectTypeOrigin>>,
    tax: Map<u32, Set<u32>>,
    instances: Seq<u32>,
    i: int,
) -> bool {
    forall|k: int, c: u32| 0 <= k < i && #[trigger] has_class(d, instances[k], c) ==> settled_against(m, d, tax, instances[k], c)
}

proof fn lemma_settled_same_row(
    m1: Map<u32, Map<u32, EffectiveTypeOrigin>>,
    m2: Map<u32, Map<u32, EffectiveTypeOrigin>>,
    d: Map<u32, Map<u32, DirectTypeOrigin>>,
    tax: Map<u32, Set<u32>>,
    x: u32,
    c: u32,
)
    requires
        settled_against(m1, d, tax, x, c),
        forall|a: u32| #[trigger] has_class(m1, x, a) ==> has_class(m2, x, a) && m2[x][a] == m1[x][a],
    ensures
        settled_against(m2, d, tax, x, c),
{
    assert(has_class(m1, x, c));
    assert forall|a: u32| #[trigger] ancestors(tax, c).contains(a) implies has_class(m2, x, a) && tie_ok(
        m2[x][a],
        a,
        EffectiveTypeOrigin::Inherited { from_class_id: c, from_origin: d[x][c] },
        c,
    ) by {
        assert(has_class(m1, x, a));
    }
}

/// A row that has no class yet has nothing to settle.
proof fn lemma_row_ties_start(
    m: Map<u32, Map<u32, EffectiveTypeOrigin>>,
    d: Map<u32, Map<u32, DirectTypeOrigin>>,
    tax: Map<u32, Set<u32>>,
    x: u32,
    keys: Seq<u32>,
)
    requires
        forall|a: u32| !#[trigger] has_class(m, x, a),
    ensures
        row_ties(m, d, tax, x, keys, 0),
{
    reveal(row_ties);
}

proof fn lemma_rows_settled_start(
    m: Map<u32, Map<u32, EffectiveTypeOrigin>>,
    d: Map<u32, Map<u32, DirectTypeOrigin>>,
    tax: Map<u32, Set<u32>>,
    instances: Seq<u32>,
)
    ensures
        rows_settled(m, d, tax, instances, 0),
{
    reveal(rows_settled);
}

/// Once the whole row of `instances[i]` is settled, the first `i + 1`
/// instances are.
proof fn lemma_rows_settled_extend(
    row: Map<u32, Map<u32, EffectiveTypeOrigin>>,
    m: Map<u32, Map<u32, EffectiveTypeOrigin>>,
    d: Map<u32, Map<u32, DirectTypeOrigin>>,
    tax: Map<u32, Set<u32>>,
    instances: Seq<u32>,
    i: int,
    keys: Seq<u32>,
)
    requires
        0 <= i < instances.len(),
        instances.no_duplicates(),
        rows_settled(row, d, tax, instances, i),
        forall|x2: u32, c: u32| x2 != instances[i] && #[trigger] has_class(row, x2, c) ==> has_class(m, x2, c) && m[x2][c] == row[x2][c],
        row_ties(m, d, tax, instances[i], keys, keys.len() as int),
        d.contains_key(instances[i]),
        keys.to_set() == d[instances[i]].dom(),
    ensures
        rows_settled(m, d, tax, instances, i + 1),
{
    reveal(rows_settled);
    reveal(row_ties);
    let x = instances[i];
    assert forall|k: int, c: u32| 0 <= k < i + 1 && #[trigger] has_class(d, instances[k], c) implies settled_against(m, d, tax, instances[k], c) by {
        if k < i {
            assert(instances[k] != x);
            lemma_settled_same_row(row, m, d, tax, instances[k], c);
        } else {
            assert(keys.to_set().contains(c));
            let jj = choose|jj: int| 0 <= jj < keys.len() && keys[jj] == c;
            assert(settled_against(m, d, tax, x, keys[jj]));
        }
    }
}

/// Settled rows keep the least source among equally direct origins.
proof fn lemma_sources_least(
    index: IndexedDataset,
    all: Set<Triple>,
    typing: bool,
    eq: Set<(u32, u32)>,
    tax: Map<u32, Set<u32>>,
    m: Map<u32, Map<u32, EffectiveTypeOrigin>>,
    d: Map<u32, Map<u32, DirectTypeOrigin>>,
    instances: Seq<u32>,
)
    requires
        direct_ranks_least(index, all, typing, eq, d),
        rows_settled(m, d, tax, instances, instances.len() as int),
        instances.to_set() == d.dom(),
    ensures
        effective_sources_least(index, all, typing, eq, tax, m),
{
    reveal(rows_settled);
    assert forall|x: u32, a: u32, o: EffectiveTypeOrigin|
        #[trigger] effective_justified(index, all, typing, eq, tax, x, a, o) && has_class(m, x, a) && erank(o) == erank(m[x][a])
            implies origin_source(m[x][a], a) <= origin_source(o, a) by {
        match o {
            EffectiveTypeOrigin::Direct(dd) => {
                assert(direct_justified(index, all, typing, eq, x, a, dd));
                assert(rank_at_most(d, x, a, drank(dd)));
                assert(instances.to_set().contains(x));
                let k = choose|k: int| 0 <= k < instances.len() && instances[k] == x;
                assert(has_class(d, instances[k], a));
                assert(settled_against(m, d, tax, x, a));
            },
            EffectiveTypeOrigin::Inherited { from_class_id, from_origin } => {
                let c = from_class_id;
                assert(direct_justified(index, all, typing, eq, x, c, from_origin));
                assert(rank_at_most(d, x, c, drank(from_origin)));
                assert(instances.to_set().contains(x));
                let k = choose|k: int| 0 <= k < instances.len() && instances[k] == x;
                assert(has_class(d, instances[k], c));
                assert(settled_against(m, d, tax, x, c));
                assert(ancestors(tax, c).contains(a));
                lemma_rank_byte_shift(direct_rank(d[x][c]), direct_rank(from_origin), 10);
            },
        }
    }
}

/// One class `c = keys[j]` of the row of `x` processed: its direct origin
/// inserted for `c`, then its inherited origin for each ancestor in `anc`.
proof fn lemma_row_step(
    before: Map<u32, Map<u32, EffectiveTypeOrigin>>,
    mid: Map<u32, Map<u32, EffectiveTypeOrigin>>,
    fin: Map<u32, Map<u32, EffectiveTypeOrigin>>,
    d: Map<u32, Map<u32, DirectTypeOrigin>>,
    tax: Map<u32, Set<u32>>,
    x: u32,
    keys: Seq<u32>,
    j: int,
    cls: Seq<u32>,
    anc: Seq<u32>,
)
    requires
        0 <= j < keys.len(),
        crate::idset::strictly_increasing(keys),
        forall|c2: u32| #[trigger] cls.contains(c2) <==> c2 == keys[j],
        forall|a: u32| #[trigger] anc.contains(a) <==> ancestors(tax, keys[j]).contains(a),
        forall|x2: u32, c2: u32| #[trigger] has_class(mid, x2, c2) <==> (has_class(before, x2, c2) || (x2 == x && cls.contains(c2))),
        forall|x2: u32, c2: u32| #[trigger] has_class(mid, x2, c2) ==> (has_class(before, x2, c2) && mid[x2][c2] == before[x2][c2]) || (x2 == x && cls.contains(c2) && mid[x2][c2] == EffectiveTypeOrigin::Direct(d[x][keys[j]])),
        forall|c2: u32| #[trigger] cls.contains(c2) ==> erank(mid[x][c2]) <= erank(EffectiveTypeOrigin::Direct(d[x][keys[j]])),
        forall|x2: u32, c2: u32| #[trigger] has_class(fin, x2, c2) <==> (has_class(mid, x2, c2) || (x2 == x && anc.contains(c2))),
        forall|x2: u32, c2: u32| #[trigger] has_class(fin, x2, c2) ==> (has_class(mid, x2, c2) && fin[x2][c2] == mid[x2][c2]) || (x2 == x && anc.contains(c2) && fin[x2][c2] == EffectiveTypeOrigin::Inherited { from_class_id: keys[j], from_origin: d[x][keys[j]] }),
        forall|c2: u32| #[trigger] anc.contains(c2) ==> erank(fin[x][c2]) <= erank(EffectiveTypeOrigin::Inherited { from_class_id: keys[j], from_origin: d[x][keys[j]] }),
        forall|x2: u32, c2: u32| #[trigger] has_class(before, x2, c2) ==> mid[x2][c2] == before[x2][c2] || (
        x2 == x && mid[x2][c2] == EffectiveTypeOrigin::Direct(d[x][keys[j]]) && erank(EffectiveTypeOrigin::Direct(d[x][keys[j]])) < erank(before[x2][c2])),
        forall|x2: u32, c2: u32| #[trigger] has_class(mid, x2, c2) ==> fin[x2][c2] == mid[x2][c2] || (
        x2 == x && fin[x2][c2] == EffectiveTypeOrigin::Inherited { from_class_id: keys[j], from_origin: d[x][keys[j]] } && erank(EffectiveTypeOrigin::Inherited { from_class_id: keys[j], from_origin: d[x][keys[j]] }) < erank(mid[x2][c2])),
        row_ties(before, d, tax, x, keys, j),
    ensures
        row_ties(fin, d, tax, x, keys, j + 1),
        forall|x2: u32, c2: u32| x2 != x && #[trigger] has_class(before, x2, c2) ==> has_class(fin, x2, c2) && fin[x2][c2] == before[x2][c2],
{
    reveal(row_ties);
    let c = keys[j];
    let od = EffectiveTypeOrigin::Direct(d[x][c]);
    let oi = EffectiveTypeOrigin::Inherited { from_class_id: c, from_origin: d[x][c] };
    assert forall|a: u32| #[trigger] has_class(fin, x, a) implies (has_class(before, x, a) && fin[x][a] == before[x][a])
        || origin_source(fin[x][a], a) == c by {
        if has_class(mid, x, a) && fin[x][a] == mid[x][a] {
            if has_class(before, x, a) && mid[x][a] == before[x][a] {
            } else if has_class(before, x, a) {
                assert(mid[x][a] == od);
                assert(a == c);
            } else {
                assert(cls.contains(a));
                assert(a == c);
            }
        } else if has_class(mid, x, a) {
            assert(fin[x][a] == oi);
        } else {
            assert(fin[x][a] == oi);
        }
    }
    assert forall|a: u32| #[trigger] has_class(fin, x, a) implies exists|jj: int| 0 <= jj < j + 1 && origin_source(fin[x][a], a) == keys[jj] by {
        if origin_source(fin[x][a], a) != c {
            let jj = choose|jj: int| 0 <= jj < j && origin_source(before[x][a], a) == keys[jj];
        }
    }
    assert forall|a: u32| #[trigger] has_class(before, x, a) implies origin_source(before[x][a], a) < c by {
        let jj = choose|jj: int| 0 <= jj < j && origin_source(before[x][a], a) == keys[jj];
        assert(keys[jj] < keys[j]);
    }
    assert forall|jj: int| 0 <= jj < j + 1 implies settled_against(fin, d, tax, x, #[trigger] keys[jj]) by {
        let k = keys[jj];
        if jj < j {
            assert(settled_against(before, d, tax, x, k));
            assert(has_class(mid, x, k));
            assert(has_class(fin, x, k));
            assert forall|a: u32| #[trigger] ancestors(tax, k).contains(a) implies has_class(fin, x, a) && tie_ok(
                fin[x][a],
                a,
                EffectiveTypeOrigin::Inherited { from_class_id: k, from_origin: d[x][k] },
                k,
            ) by {
                assert(has_class(before, x, a));
                assert(has_class(mid, x, a));
            }
        } else {
            assert(cls.contains(c));
            assert(has_class(mid, x, c));
            assert(has_class(fin, x, c));
            assert(erank(fin[x][c]) <= erank(mid[x][c]) || fin[x][c] == oi);
            assert(tie_ok(fin[x][c], c, od, c)) by {
                if origin_source(fin[x][c], c) != c {
                    assert(has_class(before, x, c) && fin[x][c] == before[x][c]);
                }
            }
            assert forall|a: u32| #[trigger] ancestors(tax, c).contains(a) implies has_class(fin, x, a) && tie_ok(fin[x][a], a, oi, c) by {
                assert(anc.contains(a));
                assert(has_class(fin, x, a));
                if origin_source(fin[x][a], a) != c {
                    assert(has_class(before, x, a) && fin[x][a] == before[x][a]);
                }
            }
        }
    }
    assert forall|x2: u32, c2: u32| x2 != x && #[trigger] has_class(before, x2, c2) implies has_class(fin, x2, c2) && fin[x2][c2] == before[x2][c2] by {
        assert(has_class(mid, x2, c2));
    }
}

/// The effective classes of every instance: its direct classes and their
/// ancestors in `taxonomy`.
fn promote_effective_types(
    index: &IndexedDataset,
    closure: &PropertyClosure,
    typing: bool,
    equality: &EqualityIndex,
    taxonomy: &ClosureIndex,
    direct: &InstanceMap<DirectTypeOrigin>,
) -> (r: InstanceMap<EffectiveTypeOrigin>)
    requires
        direct.wf(),
        forall|x: u32, c: u32| #[trigger] has_class(direct@, x, c) <==> direct_class(*index, closure.all(), typing, equality.pairs(), x, c),
        direct_origins_justified(*index, closure.all(), typing, equality.pairs(), direct@),
        direct_ranks_least(*index, closure.all(), typing, equality.pairs(), direct@),
    ensures
        effective_sources_least(*index, closure.all(), typing, equality.pairs(), taxonomy.edges(), r@),
        r.wf(),
        forall|x: u32, c: u32| #[trigger] has_class(r@, x, c) <==> effective_class(*index, closure.all(), typing, equality.pairs(), taxonomy.edges(), x, c),
        effective_origins_justified(*index, closure.all(), typing, equality.pairs(), taxonomy.edges(), r@),
        rows_nonempty(r@),
        effective_ranks_least(*index, closure.all(), typing, equality.pairs(), taxonomy.edges(), r@),
{
    let ghost all = closure.all();
    let ghost eq = equality.pairs();
    let ghost tax = taxonomy.edges();
    let mut effective = InstanceMap::new();
    let instances = direct.keys();
    let n = instances.len();
    let mut i: usize = 0;
    proof {
        lemma_rows_settled_start(effective@, direct@, tax, instances@);
    }
    while i < n
        invariant
            n == instances@.len(),
            instances@ == direct.key_seq(),
            n == direct.map_seq().len(),
            direct.wf(),
            forall|x: u32, c: u32| #[trigger] has_class(direct@, x, c) <==> direct_class(*index, all, typing, eq, x, c),
            direct_origins_justified(*index, all, typing, eq, direct@),
            all == closure.all(),
            eq == equality.pairs(),
            tax == taxonomy.edges(),
            i <= n,
            effective.wf(),
            forall|x: u32, c: u32| #[trigger] has_class(effective@, x, c) <==> (exists|k: int| 0 <= k < i && instances@[k] == x) && effective_class(*index, all, typing, eq, tax, x, c),
            effective_origins_justified(*index, all, typing, eq, tax, effective@),
            rows_nonempty(effective@),
            forall|k: int, c: u32| 0 <= k < i && #[trigger] has_class(direct@, instances@[k], c) ==> promoted(effective@, direct@, tax, instances@[k], c),
            instances@.no_duplicates(),
            instances@.to_set() == direct@.dom(),
            rows_settled(effective@, direct@, tax, instances@, i as int),
        decreases n - i,
    {
        let x = instances[i];
        let classes_map = direct.map_at(i);
        let keys = classes_map.keys();
        let m = keys.len();
        let mut j: usize = 0;
        let ghost row = effective@;
        proof {
            assert forall|a: u32| !#[trigger] has_class(row, x, a) by {
                if has_class(row, x, a) {
                    let k = choose|k: int| 0 <= k < i && instances@[k] == x;
                    assert(instances@[k] == instances@[i as int]);
                }
            }
            lemma_row_ties_start(row, direct@, tax, x, keys@);
        }
        while j < m
            invariant
                n == instances@.len(),
                i < n,
                x == instances@[i as int],
                instances@ == direct.key_seq(),
                direct.wf(),
                classes_map.wf(),
                classes_map@ == direct@[x],
                direct@.contains_key(x),
                keys@ == classes_map.key_seq(),
                m == keys@.len(),
                m == classes_map.value_seq().len(),
                forall|x2: u32, c: u32| #[trigger] has_class(direct@, x2, c) <==> direct_class(*index, all, typing, eq, x2, c),
                direct_origins_justified(*index, all, typing, eq, direct@),
                all == closure.all(),
                eq == equality.pairs(),
                tax == taxonomy.edges(),
                j <= m,
                effective.wf(),
                forall|x2: u32, c: u32| #[trigger] has_class(effective@, x2, c) <==> (has_class(row, x2, c) || (x2 == x && exists|k: int| 0 <= k < j && (keys@[k] == c || ancestors(tax, keys@[k]).contains(c)))),
                forall|x2: u32, c: u32| #[trigger] has_class(row, x2, c) <==> (exists|k: int| 0 <= k < i && instances@[k] == x2) && effective_class(*index, all, typing, eq, tax, x2, c),
                effective_origins_justified(*index, all, typing, eq, tax, effective@),
                rows_nonempty(effective@),
                eranks_settle(row, effective@),
                forall|k: int, c: u32| 0 <= k < i && #[trigger] has_class(direct@, instances@[k], c) ==> promoted(row, direct@, tax, instances@[k], c),
                forall|jj: int| 0 <= jj < j ==> promoted(effective@, direct@, tax, x, #[trigger] keys@[jj]),
                crate::idset::strictly_increasing(keys@),
                forall|x2: u32, c: u32| x2 != x && #[trigger] has_class(row, x2, c) ==> has_class(effective@, x2, c) && effective@[x2][c] == row[x2][c],
                row_ties(effective@, direct@, tax, x, keys@, j as int),
            decreases m - j,
        {
            let c = keys[j];
            let origin = classes_map.value_at(j);
            let ghost before = effective@;
            proof {
                assert(has_class(direct@, x, c));
                assert(direct_justified(*index, all, typing, eq, x, c, *origin));
            }
            let direct_origin = EffectiveTypeOrigin::Direct(copy_direct(origin));
            let one = vec![c];
            insert_effective(&mut effective, x, one.as_slice(), &direct_origin);
            let ghost mid = effective@;
            let ancestors_list: &[u32] = match taxonomy.ancestors_of(c) {
                Some(set) => set.as_slice(),
                None => &[],
            };
            proof {
                assert forall|a: u32| ancestors(tax, c).contains(a) implies ancestors_list@.contains(a) by {
                    if !crate::closure_index::graph_nodes(tax).contains(c) {
                        crate::closure_index::law_ancestors_are_nodes(tax, c, a);
                        crate::property_closure::lemma_reached_from_node(tax, c, a);
                    }
                    assert(ancestors_list@.to_set().contains(a));
                }
                assert forall|a: u32| ancestors_list@.contains(a) implies ancestors(tax, c).contains(a) by {
                    assert(ancestors_list@.to_set().contains(a));
                }
            }
            let inherited = EffectiveTypeOrigin::Inherited { from_class_id: c, from_origin: copy_direct(origin) };
            insert_effective(&mut effective, x, ancestors_list, &inherited);
            proof {
                assert(eranks_settle(row, effective@)) by {
                    assert forall|x2: u32, c2: u32| #[trigger] has_class(row, x2, c2) implies has_class(effective@, x2, c2) && erank(effective@[x2][c2]) <= erank(row[x2][c2]) by {
                        assert(has_class(before, x2, c2));
                        assert(has_class(mid, x2, c2));
                    }
                }
                assert(eranks_settle(before, effective@)) by {
                    assert forall|x2: u32, c2: u32| #[trigger] has_class(before, x2, c2) implies has_class(effective@, x2, c2) && erank(effective@[x2][c2]) <= erank(before[x2][c2]) by {
                        assert(has_class(mid, x2, c2));
                    }
                }
                assert(one@[0] == c);
                assert(one@.contains(c));
                assert forall|c2: u32| #[trigger] one@.contains(c2) <==> c2 == keys@[j as int] by {
                    if one@.contains(c2) {
                        let q = choose|q: int| 0 <= q < one@.len() && one@[q] == c2;
                    }
                }
                assert(direct_origin == EffectiveTypeOrigin::Direct(direct@[x][keys@[j as int]]));
                assert(inherited == EffectiveTypeOrigin::Inherited { from_class_id: keys@[j as int], from_origin: direct@[x][keys@[j as int]] });
                lemma_row_step(before, mid, effective@, direct@, tax, x, keys@, j as int, one@, ancestors_list@);
                assert forall|x2: u32, c2: u32| x2 != x && #[trigger] has_class(row, x2, c2) implies has_class(effective@, x2, c2) && effective@[x2][c2] == row[x2][c2] by {
                    assert(has_class(before, x2, c2));
                }
                assert(erank(direct_origin) == rank_byte(direct_rank(direct@[x][c])));
                assert(erank(inherited) == rank_byte(10 + direct_rank(direct@[x][c])));
                assert(has_class(mid, x, c));
                assert(promoted(effective@, direct@, tax, x, c)) by {
                    assert forall|a: u32| #[trigger] ancestors(tax, c).contains(a) implies erank_at_most(effective@, x, a, rank_byte(10 + direct_rank(direct@[x][c]))) by {
                        assert(ancestors_list@.contains(a));
                    }
                }
                assert forall|jj: int| 0 <= jj < j + 1 implies promoted(effective@, direct@, tax, x, #[trigger] keys@[jj]) by {
                    if jj < j {
                        lemma_promoted_settles(before, effective@, direct@, tax, x, keys@[jj]);
                    }
                }
                assert(one@.contains(c)) by {
                    assert(one@[0] == c);
                }
                assert forall|x2: u32| #[trigger] effective@.contains_key(x2) implies exists|c2: u32| has_class(effective@, x2, c2) by {
                    if mid.contains_key(x2) {
                        if before.contains_key(x2) {
                            let c2 = choose|c2: u32| has_class(before, x2, c2);
                            assert(has_class(mid, x2, c2));
                            assert(has_class(effective@, x2, c2));
                        } else {
                            assert(has_class(mid, x, c));
                            assert(has_class(effective@, x, c));
                        }
                    } else {
                        assert(ancestors_list@.contains(ancestors_list@[0]));
                        assert(has_class(effective@, x, ancestors_list@[0]));
                    }
                }
                assert forall|x2: u32, c2: u32| #[trigger] has_class(effective@, x2, c2) implies effective_justified(*index, all, typing, eq, tax, x2, c2, effective@[x2][c2]) by {
                    if has_class(mid, x2, c2) && effective@[x2][c2] == mid[x2][c2] {
                        if !(has_class(before, x2, c2) && mid[x2][c2] == before[x2][c2]) {
                            assert(one@.contains(c2));
                            assert(c2 == c);
                        }
                    }
                }
                assert forall|x2: u32, c2: u32| #[trigger] has_class(effective@, x2, c2) <==> (has_class(row, x2, c2) || (x2 == x && exists|k: int| 0 <= k < j + 1 && (keys@[k] == c2 || ancestors(tax, keys@[k]).contains(c2)))) by {
                    if x2 == x && one@.contains(c2) {
                        assert(c2 == c);
                        assert(keys@[j as int] == c2);
                    }
                    if x2 == x && ancestors_list@.contains(c2) {
                        assert(keys@[j as int] == c);
                    }
                    if x2 == x && exists|k: int| 0 <= k < j + 1 && (keys@[k] == c2 || ancestors(tax, keys@[k]).contains(c2)) {
                        let k = choose|k: int| 0 <= k < j + 1 && (keys@[k] == c2 || ancestors(tax, keys@[k]).contains(c2));
                        if k == j {
                            if keys@[k] == c2 {
                                assert(one@.contains(c2));
                            }
                        }
                    }
                    if has_class(mid, x2, c2) && !has_class(before, x2, c2) {
                        assert(x2 == x && one@.contains(c2));
                        assert(one@[0] == c2);
                    }
                }
            }
            j += 1;
        }
        proof {
            assert forall|k: int, c: u32| 0 <= k < i + 1 && #[trigger] has_class(direct@, instances@[k], c) implies promoted(effective@, direct@, tax, instances@[k], c) by {
                if k < i {
                    lemma_promoted_settles(row, effective@, direct@, tax, instances@[k], c);
                } else {
                    assert(keys@.to_set().contains(c));
                    let jj = choose|jj: int| 0 <= jj < m && keys@[jj] == c;
                }
            }
            assert(keys@.to_set() == direct@[x].dom());
            lemma_rows_settled_extend(row, effective@, direct@, tax, instances@, i as int, keys@);
            assert forall|x2: u32, c: u32| #[trigger] has_class(effective@, x2, c) <==> (exists|k: int| 0 <= k < i + 1 && instances@[k] == x2) && effective_class(*index, all, typing, eq, tax, x2, c) by {
                if x2 == x {
                    if effective_class(*index, all, typing, eq, tax, x2, c) {
                        if direct_class(*index, all, typing, eq, x2, c) {
                            assert(has_class(direct@, x, c));
                            assert(keys@.to_set().contains(c));
                            let k = choose|k: int| 0 <= k < m && keys@[k] == c;
                        } else {
                            let d = choose|d: u32| #[trigger] direct_class(*index, all, typing, eq, x2, d) && ancestors(tax, d).contains(c);
                            assert(has_class(direct@, x, d));
                            assert(keys@.to_set().contains(d));
                            let k = choose|k: int| 0 <= k < m && keys@[k] == d;
                        }
                    }
                    if exists|k: int| 0 <= k < m && (keys@[k] == c || ancestors(tax, keys@[k]).contains(c)) {
                        let k = choose|k: int| 0 <= k < m && (keys@[k] == c || ancestors(tax, keys@[k]).contains(c));
                        assert(keys@.to_set().contains(keys@[k]));
                        assert(has_class(direct@, x, keys@[k]));
                        assert(direct_class(*index, all, typing, eq, x, keys@[k]));
                    }
                    assert(instances@[i as int] == x2);
                } else {
                    if exists|k: int| 0 <= k < i + 1 && instances@[k] == x2 {
                        let k = choose|k: int| 0 <= k < i + 1 && instances@[k] == x2;
                        assert(k != i);
                    }
                }
            }
        }
        i += 1;
    }
    proof {
        assert forall|x: u32, c: u32| #[trigger] has_class(effective@, x, c) <==> effective_class(*index, all, typing, eq, tax, x, c) by {
            if effective_class(*index, all, typing, eq, tax, x, c) {
                let d = if direct_class(*index, all, typing, eq, x, c) {
                    c
                } else {
                    choose|d: u32| #[trigger] direct_class(*index, all, typing, eq, x, d) && ancestors(tax, d).contains(c)
                };
                assert(has_class(direct@, x, d));
                assert(direct@.contains_key(x));
                assert(instances@.to_set().contains(x)) by {
                    assert(direct.key_seq().contains(x));
                }
                let k = choose|k: int| 0 <= k < n && instances@[k] == x;
            }
        }
        lemma_sources_least(*index, all, typing, eq, tax, effective@, direct@, instances@);
    }
    effective
}

/// Law: the effective classes of an instance are closed upwards: an
/// ancestor of one of them in the class hierarchy is one of them too.
pub proof fn law_effective_classes_inherited(
    index: IndexedDataset,
    all: Set<Triple>,
    typing: bool,
    eq: Set<(u32, u32)>,
    tax: Map<u32, Set<u32>>,
    x: u32,
    c: u32,
    a: u32,
)
    requires
        effective_class(index, all, typing, eq, tax, x, c),
        ancestors(tax, c).contains(a),
    ensures
        effective_class(index, all, typing, eq, tax, x, a),
{
    if !direct_class(index, all, typing, eq, x, c) {
        let d = choose|d: u32| #[trigger] direct_class(index, all, typing, eq, x, d) && ancestors(tax, d).contains(c);
        crate::closure_index::law_ancestors_transitive(tax, d, c, a);
        assert(direct_class(index, all, typing, eq, x, d) && ancestors(tax, d).contains(a));
    }
}

/// Law: resources that are the same resource under `eq` have the same
/// effective classes.
pub proof fn law_equal_instances_share_classes(
    index: IndexedDataset,
    all: Set<Triple>,
    typing: bool,
    eq: Set<(u32, u32)>,
    tax: Map<u32, Set<u32>>,
    x: u32,
    y: u32,
    c: u32,
)
    requires
        eq.finite(),
        equivalent(eq, x, y),
    ensures
        effective_class(index, all, typing, eq, tax, x, c) <==> effective_class(index, all, typing, eq, tax, y, c),
{
    crate::identity::equality::law_equivalent_iff_connected(eq, x, y);
    if x != y {
        crate::identity::equality::lemma_cluster_shared(eq, x, y);
    }
    assert(equals_of(eq, x) == equals_of(eq, y));
    assert forall|d: u32| direct_class(index, all, typing, eq, x, d) <==> direct_class(index, all, typing, eq, y, d) by {
        if direct_class(index, all, typing, eq, x, d) {
            let z = choose|z: u32| #[trigger] equals_of(eq, x).contains(z) && base_class(index, all, typing, z, d);
            assert(equals_of(eq, y).contains(z));
        }
        if direct_class(index, all, typing, eq, y, d) {
            let z = choose|z: u32| #[trigger] equals_of(eq, y).contains(z) && base_class(index, all, typing, z, d);
            assert(equals_of(eq, x).contains(z));
        }
    }
    if effective_class(index, all, typing, eq, tax, x, c) && !direct_class(index, all, typing, eq, x, c) {
        let d = choose|d: u32| #[trigger] direct_class(index, all, typing, eq, x, d) && ancestors(tax, d).contains(c);
        assert(direct_class(index, all, typing, eq, y, d));
    }
    if effective_class(index, all, typing, eq, tax, y, c) && !direct_class(index, all, typing, eq, y, c) {
        let d = choose|d: u32| #[trigger] direct_class(index, all, typing, eq, y, d) && ancestors(tax, d).contains(c);
        assert(direct_class(index, all, typing, eq, x, d));
    }
}

/// The effective classes of every instance, each with one origin that
/// explains how the instance came to have it.
pub struct EffectiveTypeSet {
    types_by_instance: InstanceMap<EffectiveTypeOrigin>,
}

impl View for EffectiveTypeSet {
    type V = Map<u32, Map<u32, EffectiveTypeOrigin>>;

    closed spec fn view(&self) -> Map<u32, Map<u32, EffectiveTypeOrigin>> {
        self.types_by_instance@
    }
}

impl EffectiveTypeSet {
    #[verifier::type_invariant]
    spec fn well_formed(self) -> bool {
        self.types_by_instance.wf()
    }

    /// Types every instance: its asserted classes, with
    /// `include_domain_range_typing` the domains and ranges of the effective
    /// property assertions of `property_closure`, the direct classes of
    /// every resource equal to it, and the ancestors of all of these in
    /// `class_taxonomy`. Each class carries an origin that explains it and
    /// that is at least as direct (of a rank no higher) as every other
    /// origin that explains it; of equally direct ones, it keeps one that
    /// comes from the least class (the class itself for a direct origin,
    /// the subclass for an inherited one).
    pub fn build(
        index: &IndexedDataset,
        class_taxonomy: &TaxonomyIndex,
        property_closure: &PropertyClosure,
        equality: &EqualityIndex,
        include_domain_range_typing: bool,
    ) -> (r: EffectiveTypeSet)
        ensures
            forall|x: u32, c: u32| #[trigger] has_class(r@, x, c) <==> effective_class(
                *index,
                property_closure.all(),
                include_domain_range_typing,
                equality.pairs(),
                class_taxonomy.edges(),
                x,
                c,
            ),
            forall|x: u32| #[trigger] r@.contains_key(x) <==> exists|c: u32| has_class(r@, x, c),
            effective_origins_justified(
                *index,
                property_closure.all(),
                include_domain_range_typing,
                equality.pairs(),
                class_taxonomy.edges(),
                r@,
            ),
            effective_ranks_least(
                *index,
                property_closure.all(),
                include_domain_range_typing,
                equality.pairs(),
                class_taxonomy.edges(),
                r@,
            ),
            effective_sources_least(
                *index,
                property_closure.all(),
                include_domain_range_typing,
                equality.pairs(),
                class_taxonomy.edges(),
                r@,
            ),
    {
        let mut direct = collect_direct_types(index, property_closure, include_domain_range_typing, Ghost(equality.pairs()));
        propagate_equality_direct_types(index, property_closure, include_domain_range_typing, equality, &mut direct);
        let types = promote_effective_types(
            index,
            property_closure,
            include_domain_range_typing,
            equality,
            class_taxonomy,
            &direct,
        );
        EffectiveTypeSet { types_by_instance: types }
    }

    /// The typed instances, each once.
    pub fn instances(&self) -> (r: &[u32])
        ensures
            r@.no_duplicates(),
            r@.to_set() == self@.dom(),
    {
        proof {
            use_type_invariant(self);
        }
        self.types_by_instance.keys()
    }

    /// The effective classes of `instance_id` with their origins, if it is
    /// typed.
    pub fn classes_for(&self, instance_id: u32) -> (r: Option<&OriginMap<EffectiveTypeOrigin>>)
        ensures
            r is Some <==> self@.contains_key(instance_id),
            r matches Some(m) ==> m.wf() && m@ == self@[instance_id],
    {
        proof {
            use_type_invariant(self);
        }
        self.types_by_instance.get(instance_id)
    }

    /// Describes `origin`: how an instance came to have a class; `None`
    /// when an id in it is not a term of `index`.
    pub fn describe_origin(index: &IndexedDataset, origin: &EffectiveTypeOrigin) -> (r: Option<String>)
        ensures
            r is Some <==> origin_text(index.terms(), *origin) is Some,
            r matches Some(t) ==> origin_text(index.terms(), *origin) == Some(t@),
    {
        crate::effective_types::origins::describe_origin(index, origin)
    }
}

} // verus!
