use vstd::prelude::*;

use crate::idset::{lemma_index_of_unique, lemma_take_succ_to_set, IdSet};

verus! {

/// A map from a pair of term ids to a set of term ids, such as the
/// adjacency `(property, subject) -> objects`.
#[derive(Debug, PartialEq, Eq)]
pub struct PairSetMap {
    keys: Vec<(u32, u32)>,
    sets: Vec<IdSet>,
}

impl View for PairSetMap {
    type V = Map<(u32, u32), Set<u32>>;

    open spec fn view(&self) -> Map<(u32, u32), Set<u32>> {
        Map::new(
            |k: (u32, u32)| self.key_seq().contains(k),
            |k: (u32, u32)| self.set_seq()[self.key_seq().index_of(k)]@,
        )
    }
}

impl PairSetMap {
    #[verifier::type_invariant]
    spec fn inv(&self) -> bool {
        &&& self.keys@.len() == self.sets@.len()
        &&& self.keys@.no_duplicates()
    }

    /// The keys, in insertion order.
    pub closed spec fn key_seq(&self) -> Seq<(u32, u32)> {
        self.keys@
    }

    /// The sets, aligned with `key_seq`.
    pub closed spec fn set_seq(&self) -> Seq<IdSet> {
        self.sets@
    }

    /// The empty map.
    pub fn new() -> (r: PairSetMap)
        ensures
            r@ == Map::<(u32, u32), Set<u32>>::empty(),
            r.key_seq().len() == 0,
    {
        let r = PairSetMap { keys: Vec::new(), sets: Vec::new() };
        assert(r@ =~= Map::<(u32, u32), Set<u32>>::empty());
        r
    }

    /// Number of keys.
    pub fn len(&self) -> (r: usize)
        ensures
            r == self.key_seq().len(),
            r == self.set_seq().len(),
    {
        proof {
            use_type_invariant(self);
        }
        self.keys.len()
    }

    /// The keys as a slice (insertion order).
    pub fn keys(&self) -> (r: &[(u32, u32)])
        ensures
            r@ == self.key_seq(),
            r@.no_duplicates(),
            r@.len() == self.set_seq().len(),
            r@.to_set() == self@.dom(),
    {
        proof {
            use_type_invariant(self);
        }
        assert(self.keys@.to_set() =~= self@.dom());
        self.keys.as_slice()
    }

    /// The key at position `i`.
    pub fn key_at(&self, i: usize) -> (r: (u32, u32))
        requires
            i < self.key_seq().len(),
        ensures
            r == self.key_seq()[i as int],
            self@.contains_key(r),
            self@[r] == self.set_seq()[i as int]@,
    {
        proof {
            use_type_invariant(self);
            lemma_index_of_unique(self.keys@, i as int);
        }
        self.keys[i]
    }

    /// The set at position `i`.
    pub fn set_at(&self, i: usize) -> (r: &IdSet)
        requires
            i < self.set_seq().len(),
        ensures
            *r == self.set_seq()[i as int],
            self@.contains_key(self.key_seq()[i as int]),
            self@[self.key_seq()[i as int]] == r@,
    {
        proof {
            use_type_invariant(self);
            lemma_index_of_unique(self.keys@, i as int);
        }
        &self.sets[i]
    }

    fn find(&self, k: (u32, u32)) -> (r: Option<usize>)
        ensures
            r is None <==> !self@.contains_key(k),
            r matches Some(i) ==> i < self.key_seq().len() && self.key_seq()[i as int] == k,
    {
        proof {
            use_type_invariant(self);
        }
        let n = self.keys.len();
        let mut i: usize = 0;
        while i < n
            invariant
                n == self.keys@.len(),
                i <= n,
                forall|j: int| 0 <= j < i ==> self.keys@[j] != k,
            decreases n - i,
        {
            if self.keys[i].0 == k.0 && self.keys[i].1 == k.1 {
                return Some(i);
            }
            i += 1;
        }
        None
    }

    /// Whether `k` is a key.
    pub fn contains_key(&self, k: (u32, u32)) -> (r: bool)
        ensures
            r == self@.contains_key(k),
    {
        self.find(k).is_some()
    }

    /// The set stored under `k`, if any.
    pub fn get(&self, k: (u32, u32)) -> (r: Option<&IdSet>)
        ensures
            r is None <==> !self@.contains_key(k),
            r matches Some(s) ==> self@.contains_key(k) && s@ == self@[k],
    {
        proof {
            use_type_invariant(self);
        }
        match self.find(k) {
            Some(i) => {
                proof {
                    lemma_index_of_unique(self.keys@, i as int);
                }
                Some(&self.sets[i])
            },
            None => None,
        }
    }

    /// The set stored under `k`, or the empty set.
    pub open spec fn targets(&self, k: (u32, u32)) -> Set<u32> {
        if self@.contains_key(k) {
            self@[k]
        } else {
            Set::empty()
        }
    }

    /// Adds `v` to the set under `k`, creating the entry when missing.
    pub fn insert(&mut self, k: (u32, u32), v: u32)
        ensures
            final(self)@ == old(self)@.insert(k, old(self).targets(k).insert(v)),
    {
        proof {
            use_type_invariant(&*self);
        }
        let ghost old_view = self@;
        let found = self.find(k);
        let mut whole = PairSetMap::new();
        std::mem::swap(&mut whole, self);
        proof {
            use_type_invariant(&whole);
        }
        let PairSetMap { mut keys, mut sets } = whole;
        let ghost old_keys = keys@;
        let ghost old_sets = sets@;
        match found {
            Some(i) => {
                proof {
                    lemma_index_of_unique(keys@, i as int);
                }
                sets[i].insert(v);
                proof {
                    assert(sets@ =~= old_sets.update(i as int, sets@[i as int]));
                }
                *self = PairSetMap { keys, sets };
                proof {
                    assert forall|j: (u32, u32)| self.keys@.contains(j) && j != k implies self.keys@.index_of(j)
                        != i by {}
                    assert(self@ =~= old_view.insert(k, old_view[k].insert(v)));
                }
            },
            None => {
                let mut fresh = IdSet::new();
                fresh.insert(v);
                keys.push(k);
                sets.push(fresh);
                proof {
                    assert(!old_keys.contains(k));
                    assert(keys@.no_duplicates());
                }
                *self = PairSetMap { keys, sets };
                proof {
                    let n = old_keys.len() as int;
                    lemma_index_of_unique(self.keys@, n);
                    assert(old_view =~= Map::new(
                        |j: (u32, u32)| old_keys.contains(j),
                        |j: (u32, u32)| old_sets[old_keys.index_of(j)]@,
                    ));
                    assert forall|j: (u32, u32)| old_keys.contains(j) implies self.keys@.index_of(j)
                        == old_keys.index_of(j) && self@[j] == old_view[j] by {
                        let a = old_keys.index_of(j);
                        assert(self.keys@[a] == j);
                        lemma_index_of_unique(self.keys@, a);
                        assert(self.sets@[a] == old_sets[a]);
                    }
                    assert(self.keys@ =~= old_keys.push(k));
                    assert forall|j: (u32, u32)| self.keys@.contains(j) <==> (old_keys.contains(j) || j == k) by {
                        if self.keys@.contains(j) && j != k {
                            let a = choose|a: int| 0 <= a < self.keys@.len() && self.keys@[a] == j;
                            assert(old_keys[a] == j);
                        }
                        if j == k {
                            assert(self.keys@[old_keys.len() as int] == k);
                        }
                        if old_keys.contains(j) {
                            let a = choose|a: int| 0 <= a < old_keys.len() && old_keys[a] == j;
                            assert(self.keys@[a] == j);
                        }
                    }
                    assert(self@.dom() =~= old_view.dom().insert(k));
                    assert(fresh@ =~= Set::<u32>::empty().insert(v));
                    assert(self@ =~= old_view.insert(k, Set::<u32>::empty().insert(v)));
                }
            },
        }
    }

}


/// A finite set of pairs of term ids, kept in increasing order.
#[derive(Debug, PartialEq, Eq)]
pub struct PairSet {
    items: Vec<(u32, u32)>,
}

impl View for PairSet {
    type V = Set<(u32, u32)>;

    open spec fn view(&self) -> Set<(u32, u32)> {
        self.seq().to_set()
    }
}

impl PairSet {
    #[verifier::type_invariant]
    spec fn inv(&self) -> bool {
        pairs_sorted(self.items@)
    }

    /// The members in increasing order.
    pub closed spec fn seq(&self) -> Seq<(u32, u32)> {
        self.items@
    }

    /// The empty set.
    pub fn new() -> (r: PairSet)
        ensures
            r@ == Set::<(u32, u32)>::empty(),
            r.seq() == Seq::<(u32, u32)>::empty(),
    {
        let r = PairSet { items: Vec::new() };
        assert(r.seq().to_set() =~= Set::<(u32, u32)>::empty());
        r
    }

    /// The members as a slice.
    pub fn as_slice(&self) -> (r: &[(u32, u32)])
        ensures
            r@ == self.seq(),
            pairs_sorted(r@),
            r@.no_duplicates(),
            r@.to_set() == self@,
    {
        proof {
            use_type_invariant(self);
            lemma_sorted_pairs_unique(self.items@);
        }
        self.items.as_slice()
    }

    /// Number of members.
    pub fn len(&self) -> (r: usize)
        ensures
            r == self.seq().len(),
            r == self@.len(),
            self@.finite(),
    {
        proof {
            use_type_invariant(self);
            lemma_sorted_pairs_unique(self.items@);
            self.items@.unique_seq_to_set();
        }
        self.items.len()
    }

    /// Whether `x` is a member.
    pub fn contains(&self, x: (u32, u32)) -> (r: bool)
        ensures
            r == self@.contains(x),
    {
        let n = self.items.len();
        let mut i: usize = 0;
        while i < n
            invariant
                n == self.items@.len(),
                i <= n,
                forall|k: int| 0 <= k < i ==> self.items@[k] != x,
            decreases n - i,
        {
            if self.items[i].0 == x.0 && self.items[i].1 == x.1 {
                return true;
            }
            i += 1;
        }
        false
    }

    /// Adds `x`; returns whether it was new.
    pub fn insert(&mut self, x: (u32, u32)) -> (added: bool)
        ensures
            final(self)@ == old(self)@.insert(x),
            added == !old(self)@.contains(x),
    {
        proof {
            use_type_invariant(&*self);
        }
        if self.contains(x) {
            assert(old(self)@.insert(x) =~= old(self)@);
            return false;
        }
        let mut items: Vec<(u32, u32)> = Vec::new();
        std::mem::swap(&mut items, &mut self.items);
        sorted_pair_insert(&mut items, x);
        self.items = items;
        true
    }
}

/// `a` comes before `b` in the order of tuples.
pub open spec fn pair_lt(a: (u32, u32), b: (u32, u32)) -> bool {
    a.0 < b.0 || (a.0 == b.0 && a.1 < b.1)
}

/// `s` is strictly increasing in the order of tuples.
pub open spec fn pairs_sorted(s: Seq<(u32, u32)>) -> bool {
    forall|i: int, j: int| 0 <= i < j < s.len() ==> pair_lt(#[trigger] s[i], #[trigger] s[j])
}

/// A strictly increasing list holds each pair once.
pub proof fn lemma_sorted_pairs_unique(s: Seq<(u32, u32)>)
    requires
        pairs_sorted(s),
    ensures
        s.no_duplicates(),
{
    assert forall|i: int, j: int| 0 <= i < s.len() && 0 <= j < s.len() && i != j implies s[i] != s[j] by {
        if i < j {
            assert(pair_lt(s[i], s[j]));
        } else {
            assert(pair_lt(s[j], s[i]));
        }
    }
}

/// Adds `t` to the sorted list `v`, keeping it sorted and without
/// duplicates.
pub fn sorted_pair_insert(v: &mut Vec<(u32, u32)>, t: (u32, u32))
    requires
        pairs_sorted(old(v)@),
    ensures
        pairs_sorted(final(v)@),
        final(v)@.to_set() == old(v)@.to_set().insert(t),
{
    let n = v.len();
    let mut p: usize = 0;
    let mut i: usize = 0;
    while i < n
        invariant
            n == v@.len(),
            pairs_sorted(v@),
            p <= i <= n,
            forall|k: int| 0 <= k < p ==> pair_lt(#[trigger] v@[k], t),
            forall|k: int| p <= k < i ==> !pair_lt(#[trigger] v@[k], t),
        decreases n - i,
    {
        let x = v[i];
        if x.0 < t.0 || (x.0 == t.0 && x.1 < t.1) {
            proof {
                assert forall|k: int| 0 <= k < i + 1 implies pair_lt(#[trigger] v@[k], t) by {
                    if k < i {
                        assert(pair_lt(v@[k], v@[i as int]));
                    }
                }
            }
            p = i + 1;
        }
        i += 1;
    }
    if p < n && v[p].0 == t.0 && v[p].1 == t.1 {
        proof {
            assert(v@[p as int] == t);
            assert(v@.to_set().contains(t));
            assert(v@.to_set().insert(t) =~= v@.to_set());
        }
        return;
    }
    let ghost before = v@;
    proof {
        assert forall|k: int| p <= k < n implies pair_lt(t, #[trigger] before[k]) by {
            assert(!pair_lt(before[p as int], t));
            assert(before[p as int] != t);
            if k > p {
                assert(pair_lt(before[p as int], before[k]));
            }
        }
    }
    v.insert(p, t);
    proof {
        assert forall|a: int, b: int| 0 <= a < b < v@.len() implies pair_lt(#[trigger] v@[a], #[trigger] v@[b]) by {
            if b < p {
                assert(v@[a] == before[a] && v@[b] == before[b]);
            } else if b == p {
                assert(v@[a] == before[a]);
            } else if a < p {
                assert(v@[a] == before[a] && v@[b] == before[b - 1]);
                assert(pair_lt(before[a], t));
            } else if a == p {
                assert(v@[b] == before[b - 1]);
            } else {
                assert(v@[a] == before[a - 1] && v@[b] == before[b - 1]);
            }
        }
        lemma_insert_to_set(before, p as int, t);
    }
}

impl PairSet {
    /// The members in increasing order.
    pub fn sorted(&self) -> (r: Vec<(u32, u32)>)
        ensures
            pairs_sorted(r@),
            r@.to_set() == self@,
    {
        let items = self.as_slice();
        let n = items.len();
        let mut out: Vec<(u32, u32)> = Vec::new();
        let mut i: usize = 0;
        while i < n
            invariant
                n == items@.len(),
                items@.to_set() == self@,
                i <= n,
                pairs_sorted(out@),
                out@.to_set() == items@.take(i as int).to_set(),
            decreases n - i,
        {
            sorted_pair_insert(&mut out, items[i]);
            proof {
                crate::idset::lemma_take_succ_to_set(items@, i as int);
            }
            i += 1;
        }
        proof {
            assert(items@.take(n as int) =~= items@);
        }
        out
    }
}

/// `a` comes before `b` in the order of tuples.
pub open spec fn triple_lt(a: (u32, u32, u32), b: (u32, u32, u32)) -> bool {
    ||| a.0 < b.0
    ||| a.0 == b.0 && a.1 < b.1
    ||| a.0 == b.0 && a.1 == b.1 && a.2 < b.2
}

/// `s` is strictly increasing in the order of tuples.
pub open spec fn triples_sorted(s: Seq<(u32, u32, u32)>) -> bool {
    forall|i: int, j: int| 0 <= i < j < s.len() ==> triple_lt(#[trigger] s[i], #[trigger] s[j])
}

/// Whether `a` comes before `b`.
pub fn triple_less(a: (u32, u32, u32), b: (u32, u32, u32)) -> (r: bool)
    ensures
        r == triple_lt(a, b),
{
    a.0 < b.0 || (a.0 == b.0 && (a.1 < b.1 || (a.1 == b.1 && a.2 < b.2)))
}

/// Adds `t` to the sorted list `v`, keeping it sorted and without
/// duplicates.
pub fn sorted_triple_insert(v: &mut Vec<(u32, u32, u32)>, t: (u32, u32, u32))
    requires
        triples_sorted(old(v)@),
    ensures
        triples_sorted(final(v)@),
        final(v)@.to_set() == old(v)@.to_set().insert(t),
{
    let n = v.len();
    let mut p: usize = 0;
    let mut i: usize = 0;
    while i < n
        invariant
            n == v@.len(),
            triples_sorted(v@),
            p <= i <= n,
            forall|k: int| 0 <= k < p ==> triple_lt(#[trigger] v@[k], t),
            forall|k: int| p <= k < i ==> !triple_lt(#[trigger] v@[k], t),
        decreases n - i,
    {
        if triple_less(v[i], t) {
            proof {
                assert forall|k: int| 0 <= k < i + 1 implies triple_lt(#[trigger] v@[k], t) by {
                    if k < i {
                        assert(triple_lt(v@[k], v@[i as int]));
                    }
                }
            }
            p = i + 1;
        }
        i += 1;
    }
    if p < n && !triple_less(t, v[p]) {
        proof {
            assert(v@.to_set().contains(t));
            assert(v@.to_set().insert(t) =~= v@.to_set());
        }
        return;
    }
    let ghost before = v@;
    proof {
        assert forall|k: int| p <= k < n implies triple_lt(t, #[trigger] before[k]) by {
            assert(!triple_lt(before[p as int], t));
            assert(before[p as int] != t);
            if k > p {
                assert(triple_lt(before[p as int], before[k]));
            }
        }
    }
    v.insert(p, t);
    proof {
        assert forall|a: int, b: int| 0 <= a < b < v@.len() implies triple_lt(#[trigger] v@[a], #[trigger] v@[b]) by {
            if b < p {
                assert(v@[a] == before[a] && v@[b] == before[b]);
            } else if b == p {
                assert(v@[a] == before[a]);
            } else if a < p {
                assert(v@[a] == before[a] && v@[b] == before[b - 1]);
                assert(triple_lt(before[a], t));
            } else if a == p {
                assert(v@[b] == before[b - 1]);
            } else {
                assert(v@[a] == before[a - 1] && v@[b] == before[b - 1]);
            }
        }
        lemma_insert_to_set(before, p as int, t);
        assert(v@.to_set() =~= before.to_set().insert(t));
    }
}

/// `a` comes before `b` in the order of tuples.
pub open spec fn quad_lt(a: (u32, u32, u32, u32), b: (u32, u32, u32, u32)) -> bool {
    ||| a.0 < b.0
    ||| a.0 == b.0 && a.1 < b.1
    ||| a.0 == b.0 && a.1 == b.1 && a.2 < b.2
    ||| a.0 == b.0 && a.1 == b.1 && a.2 == b.2 && a.3 < b.3
}

/// `s` is strictly increasing in the order of tuples.
pub open spec fn quads_sorted(s: Seq<(u32, u32, u32, u32)>) -> bool {
    forall|i: int, j: int| 0 <= i < j < s.len() ==> quad_lt(#[trigger] s[i], #[trigger] s[j])
}

/// Whether `a` comes before `b`.
pub fn quad_less(a: (u32, u32, u32, u32), b: (u32, u32, u32, u32)) -> (r: bool)
    ensures
        r == quad_lt(a, b),
{
    a.0 < b.0 || (a.0 == b.0 && (a.1 < b.1 || (a.1 == b.1 && (a.2 < b.2 || (a.2 == b.2 && a.3 < b.3)))))
}

/// Adds `t` to the sorted list `v`, keeping it sorted and without
/// duplicates.
pub fn sorted_quad_insert(v: &mut Vec<(u32, u32, u32, u32)>, t: (u32, u32, u32, u32))
    requires
        quads_sorted(old(v)@),
    ensures
        quads_sorted(final(v)@),
        final(v)@.to_set() == old(v)@.to_set().insert(t),
{
    let n = v.len();
    let mut p: usize = 0;
    let mut i: usize = 0;
    while i < n
        invariant
            n == v@.len(),
            quads_sorted(v@),
            p <= i <= n,
            forall|k: int| 0 <= k < p ==> quad_lt(#[trigger] v@[k], t),
            forall|k: int| p <= k < i ==> !quad_lt(#[trigger] v@[k], t),
        decreases n - i,
    {
        if quad_less(v[i], t) {
            proof {
                assert forall|k: int| 0 <= k < i + 1 implies quad_lt(#[trigger] v@[k], t) by {
                    if k < i {
                        assert(quad_lt(v@[k], v@[i as int]));
                    }
                }
            }
            p = i + 1;
        }
        i += 1;
    }
    if p < n && !quad_less(t, v[p]) {
        proof {
            assert(v@.to_set().contains(t));
            assert(v@.to_set().insert(t) =~= v@.to_set());
        }
        return;
    }
    let ghost before = v@;
    proof {
        assert forall|k: int| p <= k < n implies quad_lt(t, #[trigger] before[k]) by {
            assert(!quad_lt(before[p as int], t));
            assert(before[p as int] != t);
            if k > p {
                assert(quad_lt(before[p as int], before[k]));
            }
        }
    }
    v.insert(p, t);
    proof {
        assert forall|a: int, b: int| 0 <= a < b < v@.len() implies quad_lt(#[trigger] v@[a], #[trigger] v@[b]) by {
            if b < p {
                assert(v@[a] == before[a] && v@[b] == before[b]);
            } else if b == p {
                assert(v@[a] == before[a]);
            } else if a < p {
                assert(v@[a] == before[a] && v@[b] == before[b - 1]);
                assert(quad_lt(before[a], t));
            } else if a == p {
                assert(v@[b] == before[b - 1]);
            } else {
                assert(v@[a] == before[a - 1] && v@[b] == before[b - 1]);
            }
        }
        lemma_insert_to_set(before, p as int, t);
        assert(v@.to_set() =~= before.to_set().insert(t));
    }
}

/// Inserting `t` anywhere into `s` adds `t` to its members.
pub proof fn lemma_insert_to_set<A>(s: Seq<A>, p: int, t: A)
    requires
        0 <= p <= s.len(),
    ensures
        s.insert(p, t).to_set() == s.to_set().insert(t),
{
    let v = s.insert(p, t);
    assert forall|x: A| #[trigger] v.to_set().contains(x) <==> s.to_set().insert(t).contains(x) by {
        if v.contains(x) {
            let k = choose|k: int| 0 <= k < v.len() && v[k] == x;
            if k < p {
                assert(s[k] == x);
            } else if k > p {
                assert(s[k - 1] == x);
            }
        }
        if s.contains(x) {
            let k = choose|k: int| 0 <= k < s.len() && s[k] == x;
            if k < p {
                assert(v[k] == x);
            } else {
                assert(v[k + 1] == x);
            }
        }
        if x == t {
            assert(v[p] == t);
        }
    }
    assert(v.to_set() =~= s.to_set().insert(t));
}

/// A finite set of triples of term ids, in insertion order.
#[derive(Debug, PartialEq, Eq)]
pub struct TripleSet {
    items: Vec<(u32, u32, u32)>,
}

impl View for TripleSet {
    type V = Set<(u32, u32, u32)>;

    open spec fn view(&self) -> Set<(u32, u32, u32)> {
        self.seq().to_set()
    }
}

impl TripleSet {
    #[verifier::type_invariant]
    spec fn inv(&self) -> bool {
        self.items@.no_duplicates()
    }

    /// The members in insertion order.
    pub closed spec fn seq(&self) -> Seq<(u32, u32, u32)> {
        self.items@
    }

    /// The empty set.
    pub fn new() -> (r: TripleSet)
        ensures
            r@ == Set::<(u32, u32, u32)>::empty(),
            r.seq() == Seq::<(u32, u32, u32)>::empty(),
    {
        let r = TripleSet { items: Vec::new() };
        assert(r.seq().to_set() =~= Set::<(u32, u32, u32)>::empty());
        r
    }

    /// The members as a slice.
    pub fn as_slice(&self) -> (r: &[(u32, u32, u32)])
        ensures
            r@ == self.seq(),
            r@.no_duplicates(),
            r@.to_set() == self@,
    {
        proof {
            use_type_invariant(self);
        }
        self.items.as_slice()
    }

    /// Number of members.
    pub fn len(&self) -> (r: usize)
        ensures
            r == self.seq().len(),
            r == self@.len(),
            self@.finite(),
    {
        proof {
            use_type_invariant(self);
            self.items@.unique_seq_to_set();
        }
        self.items.len()
    }

    /// Whether `x` is a member.
    pub fn contains(&self, x: (u32, u32, u32)) -> (r: bool)
        ensures
            r == self@.contains(x),
    {
        let n = self.items.len();
        let mut i: usize = 0;
        while i < n
            invariant
                n == self.items@.len(),
                i <= n,
                forall|k: int| 0 <= k < i ==> self.items@[k] != x,
            decreases n - i,
        {
            if self.items[i].0 == x.0 && self.items[i].1 == x.1 && self.items[i].2 == x.2 {
                return true;
            }
            i += 1;
        }
        false
    }

    /// Adds `x`; returns whether it was new.
    pub fn insert(&mut self, x: (u32, u32, u32)) -> (added: bool)
        ensures
            final(self)@ == old(self)@.insert(x),
            added == !old(self)@.contains(x),
            added ==> final(self).seq() == old(self).seq().push(x),
            !added ==> final(self).seq() == old(self).seq(),
    {
        proof {
            use_type_invariant(&*self);
        }
        if self.contains(x) {
            assert(old(self)@.insert(x) =~= old(self)@);
            return false;
        }
        let mut items: Vec<(u32, u32, u32)> = Vec::new();
        std::mem::swap(&mut items, &mut self.items);
        let ghost before = items@;
        items.push(x);
        proof {
            assert(!before.contains(x));
            assert(items@ == before.push(x));
            assert(items@.no_duplicates());
            before.lemma_push_to_set_commute(x);
        }
        self.items = items;
        true
    }

    /// Adds every member of `other`.
    pub fn extend(&mut self, other: &TripleSet)
        ensures
            final(self)@ == old(self)@.union(other@),
    {
        let items = other.as_slice();
        let n = items.len();
        let mut i: usize = 0;
        while i < n
            invariant
                n == items@.len(),
                items@.to_set() == other@,
                i <= n,
                self@ == old(self)@.union(items@.take(i as int).to_set()),
            decreases n - i,
        {
            self.insert(items[i]);
            proof {
                lemma_take_succ_to_set(items@, i as int);
            }
            i += 1;
        }
        assert(items@.take(n as int) =~= items@);
        assert(self@ =~= old(self)@.union(other@));
    }
    /// The same members in increasing order.
    pub fn sorted_copy(&self) -> (r: TripleSet)
        ensures
            r@ == self@,
            triples_sorted(r.seq()),
    {
        let items = self.as_slice();
        let n = items.len();
        let mut out: Vec<(u32, u32, u32)> = Vec::new();
        let mut i: usize = 0;
        while i < n
            invariant
                n == items@.len(),
                items@.to_set() == self@,
                i <= n,
                triples_sorted(out@),
                out@.to_set() == items@.take(i as int).to_set(),
            decreases n - i,
        {
            sorted_triple_insert(&mut out, items[i]);
            proof {
                crate::idset::lemma_take_succ_to_set(items@, i as int);
            }
            i += 1;
        }
        proof {
            assert(items@.take(n as int) =~= items@);
            assert forall|a: int, b: int| 0 <= a < out@.len() && 0 <= b < out@.len() && a != b implies out@[a] != out@[b] by {
                if a < b {
                    assert(triple_lt(out@[a], out@[b]));
                } else {
                    assert(triple_lt(out@[b], out@[a]));
                }
            }
        }
        TripleSet { items: out }
    }
}

} // verus!
