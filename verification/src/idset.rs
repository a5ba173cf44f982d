use vstd::prelude::*;

verus! {

/// Strictly ascending order of a sequence of term ids.
pub open spec fn strictly_increasing(s: Seq<u32>) -> bool {
    forall|i: int, j: int| 0 <= i < j < s.len() ==> s[i] < s[j]
}

/// A strictly ascending sequence holds every id once.
pub proof fn lemma_increasing_no_duplicates(s: Seq<u32>)
    requires
        strictly_increasing(s),
    ensures
        s.no_duplicates(),
{
    assert forall|i: int, j: int| 0 <= i < s.len() && 0 <= j < s.len() && i != j implies s[i]
        != s[j] by {
        if i < j {
        } else {
        }
    }
}

/// The members of a prefix one element longer.
pub proof fn lemma_take_succ_to_set<A>(s: Seq<A>, i: int)
    requires
        0 <= i < s.len(),
    ensures
        s.take(i + 1).to_set() == s.take(i).to_set().insert(s[i]),
{
    assert(s.take(i + 1) =~= s.take(i).push(s[i]));
    s.take(i).lemma_push_to_set_commute(s[i]);
}

/// A finite set of term ids, kept in ascending order so that iteration
/// visits the smallest id first.
#[derive(Debug, PartialEq, Eq)]
pub struct IdSet {
    items: Vec<u32>,
}

impl View for IdSet {
    type V = Set<u32>;

    open spec fn view(&self) -> Set<u32> {
        self.seq().to_set()
    }
}

impl IdSet {
    #[verifier::type_invariant]
    spec fn inv(&self) -> bool {
        strictly_increasing(self.items@)
    }

    /// The members in ascending order.
    pub closed spec fn seq(&self) -> Seq<u32> {
        self.items@
    }

    /// The empty set.
    pub fn new() -> (r: IdSet)
        ensures
            r@ == Set::<u32>::empty(),
            r.seq() == Seq::<u32>::empty(),
    {
        let r = IdSet { items: Vec::new() };
        assert(r.seq().to_set() =~= Set::<u32>::empty());
        r
    }

    /// The members in ascending order, as a slice.
    pub fn as_slice(&self) -> (r: &[u32])
        ensures
            r@ == self.seq(),
            strictly_increasing(r@),
            r@.no_duplicates(),
            r@.to_set() == self@,
    {
        proof {
            use_type_invariant(self);
            lemma_increasing_no_duplicates(self.items@);
        }
        self.items.as_slice()
    }

    /// Number of members.
    pub fn len(&self) -> (r: usize)
        ensures
            r == self.seq().len(),
            r == self@.len(),
            self@.finite(),
    {
        proof {
            use_type_invariant(self);
            lemma_increasing_no_duplicates(self.items@);
            self.items@.unique_seq_to_set();
        }
        self.items.len()
    }

    /// Whether the set has no member.
    pub fn is_empty(&self) -> (r: bool)
        ensures
            r == (self@ == Set::<u32>::empty()),
            r == (self.seq().len() == 0),
    {
        if self.items.len() == 0 {
            assert(self@ =~= Set::<u32>::empty());
            true
        } else {
            assert(self@.contains(self.items@[0]));
            false
        }
    }

    /// Whether `x` is a member.
    pub fn contains(&self, x: u32) -> (r: bool)
        ensures
            r == self@.contains(x),
    {
        let n = self.items.len();
        let mut i: usize = 0;
        while i < n
            invariant
                n == self.items@.len(),
                i <= n,
                forall|k: int| 0 <= k < i ==> self.items@[k] != x,
            decreases n - i,
        {
            if self.items[i] == x {
                return true;
            }
            i += 1;
        }
        false
    }

    /// The smallest member, if any.
    pub fn first(&self) -> (r: Option<u32>)
        ensures
            r is None <==> self@ == Set::<u32>::empty(),
            r matches Some(m) ==> self@.contains(m) && forall|y: u32| #[trigger]
                self@.contains(y) ==> m <= y,
            r matches Some(m) ==> m == self.seq()[0],
    {
        proof {
            use_type_invariant(self);
        }
        if self.items.len() == 0 {
            assert(self@ =~= Set::<u32>::empty());
            None
        } else {
            let m = self.items[0];
            assert(self@.contains(m));
            assert forall|y: u32| #[trigger] self@.contains(y) implies m <= y by {
                let k = choose|k: int| 0 <= k < self.items@.len() && self.items@[k] == y;
                if k > 0 {
                    assert(self.items@[0] < self.items@[k]);
                }
            }
            Some(m)
        }
    }

    /// Adds `x`; returns whether it was new.
    pub fn insert(&mut self, x: u32) -> (added: bool)
        ensures
            final(self)@ == old(self)@.insert(x),
            added == !old(self)@.contains(x),
    {
        proof {
            use_type_invariant(&*self);
        }
        let n = self.items.len();
        let mut i: usize = 0;
        while i < n && self.items[i] < x
            invariant
                n == self.items@.len(),
                i <= n,
                forall|k: int| 0 <= k < i ==> self.items@[k] < x,
            decreases n - i,
        {
            i += 1;
        }
        if i < n && self.items[i] == x {
            assert(old(self)@.contains(x));
            assert(old(self)@.insert(x) =~= old(self)@);
            return false;
        }
        assert(forall|k: int| i <= k < n ==> self.items@[k] > x) by {
            assert forall|k: int| i <= k < n implies self.items@[k] > x by {
                if k > i {
                    assert(self.items@[i as int] < self.items@[k]);
                }
            }
        }
        let ghost before = self.items@;
        assert(strictly_increasing(before.insert(i as int, x)));
        let mut items: Vec<u32> = Vec::new();
        std::mem::swap(&mut items, &mut self.items);
        items.insert(i, x);
        self.items = items;
        assert(!before.contains(x));
        assert(self.items@.to_set() =~= before.to_set().insert(x)) by {
            assert forall|y: u32| self.items@.to_set().contains(y) implies before.to_set().insert(
                x,
            ).contains(y) by {
                let k = choose|k: int| 0 <= k < self.items@.len() && self.items@[k] == y;
                if k < i {
                    assert(before[k] == y);
                } else if k > i {
                    assert(before[k - 1] == y);
                }
            }
            assert forall|y: u32| before.to_set().insert(x).contains(y) implies self.items@.to_set().contains(
                y,
            ) by {
                if y == x {
                    assert(self.items@[i as int] == x);
                } else {
                    let k = choose|k: int| 0 <= k < before.len() && before[k] == y;
                    if k < i {
                        assert(self.items@[k] == y);
                    } else {
                        assert(self.items@[k + 1] == y);
                    }
                }
            }
        }
        true
    }

    /// Adds every member of `other`.
    pub fn union_with(&mut self, other: &IdSet)
        ensures
            final(self)@ == old(self)@.union(other@),
    {
        let items = other.as_slice();
        let n = items.len();
        let mut i: usize = 0;
        while i < n
            invariant
                n == items@.len(),
                items@.to_set() == other@,
                i <= n,
                self@ == old(self)@.union(items@.take(i as int).to_set()),
            decreases n - i,
        {
            self.insert(items[i]);
            proof {
                lemma_take_succ_to_set(items@, i as int);
            }
            i += 1;
        }
        assert(items@.take(n as int) =~= items@);
        assert(self@ =~= old(self)@.union(other@));
    }

    /// A copy of this set.
    pub fn duplicate(&self) -> (r: IdSet)
        ensures
            r@ == self@,
            r.seq() == self.seq(),
    {
        proof {
            use_type_invariant(self);
        }
        let items = self.items.clone();
        assert(items@ =~= self.items@);
        IdSet { items }
    }
}

} // verus!

verus! {

/// In a sequence without duplicates, the position of `s[i]` is `i`.
pub proof fn lemma_index_of_unique<A>(s: Seq<A>, i: int)
    requires
        s.no_duplicates(),
        0 <= i < s.len(),
    ensures
        s.index_of(s[i]) == i,
{
    assert(s.contains(s[i]));
    let j = s.index_of(s[i]);
    assert(0 <= j < s.len() && s[j] == s[i]);
}

/// The edges `(a, b)` of `m`: each key with each member of its set.
pub open spec fn edge_pairs(m: Map<u32, Set<u32>>) -> Set<(u32, u32)> {
    Set::new(|p: (u32, u32)| m.contains_key(p.0) && m[p.0].contains(p.1))
}

/// `n`, or `usize::MAX` when it does not fit.
pub open spec fn saturating_count(n: nat) -> nat {
    if n > usize::MAX {
        usize::MAX as nat
    } else {
        n
    }
}

/// A map from a term id to a set of term ids: the edge lists of the
/// dataset index (`subject -> objects`).
#[derive(Debug, PartialEq, Eq)]
pub struct IdSetMap {
    keys: Vec<u32>,
    sets: Vec<IdSet>,
}

impl View for IdSetMap {
    type V = Map<u32, Set<u32>>;

    open spec fn view(&self) -> Map<u32, Set<u32>> {
        Map::new(
            |k: u32| self.key_seq().contains(k),
            |k: u32| self.set_seq()[self.key_seq().index_of(k)]@,
        )
    }
}

impl IdSetMap {
    #[verifier::type_invariant]
    spec fn inv(&self) -> bool {
        &&& self.keys@.len() == self.sets@.len()
        &&& self.keys@.no_duplicates()
    }

    /// The keys, in insertion order.
    pub closed spec fn key_seq(&self) -> Seq<u32> {
        self.keys@
    }

    /// The sets, aligned with `key_seq`.
    pub closed spec fn set_seq(&self) -> Seq<IdSet> {
        self.sets@
    }

    /// The empty map.
    pub fn new() -> (r: IdSetMap)
        ensures
            r@ == Map::<u32, Set<u32>>::empty(),
            r.key_seq().len() == 0,
    {
        let r = IdSetMap { keys: Vec::new(), sets: Vec::new() };
        assert(r@ =~= Map::<u32, Set<u32>>::empty());
        r
    }

    /// Number of keys.
    pub fn len(&self) -> (r: usize)
        ensures
            r == self.key_seq().len(),
            r == self.set_seq().len(),
    {
        proof {
            use_type_invariant(self);
        }
        self.keys.len()
    }

    /// The keys as a slice (insertion order).
    pub fn keys(&self) -> (r: &[u32])
        ensures
            r@ == self.key_seq(),
            r@.no_duplicates(),
            r@.len() == self.set_seq().len(),
            r@.to_set() == self@.dom(),
    {
        proof {
            use_type_invariant(self);
        }
        assert(self.keys@.to_set() =~= self@.dom());
        self.keys.as_slice()
    }

    /// The key at position `i`.
    pub fn key_at(&self, i: usize) -> (r: u32)
        requires
            i < self.key_seq().len(),
        ensures
            r == self.key_seq()[i as int],
            self@.contains_key(r),
            self@[r] == self.set_seq()[i as int]@,
    {
        proof {
            use_type_invariant(self);
            lemma_index_of_unique(self.keys@, i as int);
        }
        self.keys[i]
    }

    /// The set at position `i`.
    pub fn set_at(&self, i: usize) -> (r: &IdSet)
        requires
            i < self.set_seq().len(),
        ensures
            *r == self.set_seq()[i as int],
            self@.contains_key(self.key_seq()[i as int]),
            self@[self.key_seq()[i as int]] == r@,
    {
        proof {
            use_type_invariant(self);
            lemma_index_of_unique(self.keys@, i as int);
        }
        &self.sets[i]
    }

    fn find(&self, k: u32) -> (r: Option<usize>)
        ensures
            r is None <==> !self@.contains_key(k),
            r matches Some(i) ==> i < self.key_seq().len() && self.key_seq()[i as int] == k,
    {
        proof {
            use_type_invariant(self);
        }
        let n = self.keys.len();
        let mut i: usize = 0;
        while i < n
            invariant
                n == self.keys@.len(),
                i <= n,
                forall|j: int| 0 <= j < i ==> self.keys@[j] != k,
            decreases n - i,
        {
            if self.keys[i] == k {
                return Some(i);
            }
            i += 1;
        }
        None
    }

    /// Whether `k` is a key.
    pub fn contains_key(&self, k: u32) -> (r: bool)
        ensures
            r == self@.contains_key(k),
    {
        self.find(k).is_some()
    }

    /// The set stored under `k`, if any.
    pub fn get(&self, k: u32) -> (r: Option<&IdSet>)
        ensures
            r is None <==> !self@.contains_key(k),
            r matches Some(s) ==> self@.contains_key(k) && s@ == self@[k],
    {
        proof {
            use_type_invariant(self);
        }
        match self.find(k) {
            Some(i) => {
                proof {
                    lemma_index_of_unique(self.keys@, i as int);
                }
                Some(&self.sets[i])
            },
            None => None,
        }
    }

    /// The set stored under `k`, or the empty set.
    pub open spec fn targets(&self, k: u32) -> Set<u32> {
        if self@.contains_key(k) {
            self@[k]
        } else {
            Set::empty()
        }
    }

    /// Adds `v` to the set under `k`, creating the entry when missing.
    pub fn insert(&mut self, k: u32, v: u32)
        ensures
            final(self)@ == old(self)@.insert(k, old(self).targets(k).insert(v)),
    {
        proof {
            use_type_invariant(&*self);
        }
        let ghost old_view = self@;
        let found = self.find(k);
        let mut whole = IdSetMap::new();
        std::mem::swap(&mut whole, self);
        proof {
            use_type_invariant(&whole);
        }
        let IdSetMap { mut keys, mut sets } = whole;
        let ghost old_keys = keys@;
        let ghost old_sets = sets@;
        match found {
            Some(i) => {
                proof {
                    lemma_index_of_unique(keys@, i as int);
                }
                sets[i].insert(v);
                proof {
                    assert(sets@ =~= old_sets.update(i as int, sets@[i as int]));
                }
                *self = IdSetMap { keys, sets };
                proof {
                    assert forall|j: u32| self.keys@.contains(j) && j != k implies self.keys@.index_of(j)
                        != i by {}
                    assert(self@ =~= old_view.insert(k, old_view[k].insert(v)));
                }
            },
            None => {
                let mut fresh = IdSet::new();
                fresh.insert(v);
                keys.push(k);
                sets.push(fresh);
                proof {
                    assert(!old_keys.contains(k));
                    assert(keys@.no_duplicates());
                }
                *self = IdSetMap { keys, sets };
                proof {
                    let n = old_keys.len() as int;
                    lemma_index_of_unique(self.keys@, n);
                    assert(old_view =~= Map::new(
                        |j: u32| old_keys.contains(j),
                        |j: u32| old_sets[old_keys.index_of(j)]@,
                    ));
                    assert forall|j: u32| old_keys.contains(j) implies self.keys@.index_of(j)
                        == old_keys.index_of(j) && self@[j] == old_view[j] by {
                        let a = old_keys.index_of(j);
                        assert(self.keys@[a] == j);
                        lemma_index_of_unique(self.keys@, a);
                        assert(self.sets@[a] == old_sets[a]);
                    }
                    assert(self.keys@ =~= old_keys.push(k));
                    assert forall|j: u32| self.keys@.contains(j) <==> (old_keys.contains(j) || j == k) by {
                        if self.keys@.contains(j) && j != k {
                            let a = choose|a: int| 0 <= a < self.keys@.len() && self.keys@[a] == j;
                            assert(old_keys[a] == j);
                        }
                        if j == k {
                            assert(self.keys@[old_keys.len() as int] == k);
                        }
                        if old_keys.contains(j) {
                            let a = choose|a: int| 0 <= a < old_keys.len() && old_keys[a] == j;
                            assert(self.keys@[a] == j);
                        }
                    }
                    assert(self@.dom() =~= old_view.dom().insert(k));
                    assert(fresh@ =~= Set::<u32>::empty().insert(v));
                    assert(self@ =~= old_view.insert(k, Set::<u32>::empty().insert(v)));
                }
            },
        }
    }

    /// Stores `set` under the new key `k`.
    pub fn put(&mut self, k: u32, set: IdSet)
        requires
            !old(self)@.contains_key(k),
        ensures
            final(self)@ == old(self)@.insert(k, set@),
    {
        proof {
            use_type_invariant(&*self);
        }
        let ghost old_view = self@;
        let mut whole = IdSetMap::new();
        std::mem::swap(&mut whole, self);
        proof {
            use_type_invariant(&whole);
        }
        let IdSetMap { mut keys, mut sets } = whole;
        let ghost old_keys = keys@;
        let ghost old_sets = sets@;
        let ghost new_set = set@;
        keys.push(k);
        sets.push(set);
        proof {
            assert(!old_keys.contains(k));
            assert(keys@.no_duplicates());
        }
        *self = IdSetMap { keys, sets };
        proof {
            let n = old_keys.len() as int;
            lemma_index_of_unique(self.keys@, n);
            assert(old_view =~= Map::new(
                |j: u32| old_keys.contains(j),
                |j: u32| old_sets[old_keys.index_of(j)]@,
            ));
            assert forall|j: u32| old_keys.contains(j) implies self.keys@.index_of(j)
                == old_keys.index_of(j) && self@[j] == old_view[j] by {
                let a = old_keys.index_of(j);
                assert(self.keys@[a] == j);
                lemma_index_of_unique(self.keys@, a);
                assert(self.sets@[a] == old_sets[a]);
            }
            assert(self.keys@ =~= old_keys.push(k));
            assert forall|j: u32| self.keys@.contains(j) <==> (old_keys.contains(j) || j == k) by {
                if self.keys@.contains(j) && j != k {
                    let a = choose|a: int| 0 <= a < self.keys@.len() && self.keys@[a] == j;
                    assert(old_keys[a] == j);
                }
                if j == k {
                    assert(self.keys@[old_keys.len() as int] == k);
                }
                if old_keys.contains(j) {
                    let a = choose|a: int| 0 <= a < old_keys.len() && old_keys[a] == j;
                    assert(self.keys@[a] == j);
                }
            }
            assert(self@.dom() =~= old_view.dom().insert(k));
            assert(self@ =~= old_view.insert(k, new_set));
        }
    }

    /// Total number of `(key, member)` pairs, saturating at `usize::MAX`.
    pub fn total_len(&self) -> (r: usize)
        ensures
            edge_pairs(self@).finite(),
            r == saturating_count(edge_pairs(self@).len()),
    {
        proof {
            use_type_invariant(self);
        }
        let n = self.sets.len();
        let mut total: usize = 0;
        let mut i: usize = 0;
        let ghost mut done: Set<(u32, u32)> = Set::empty();
        while i < n
            invariant
                n == self.sets@.len(),
                n == self.keys@.len(),
                self.keys@.no_duplicates(),
                i <= n,
                done.finite(),
                done == Set::new(
                    |p: (u32, u32)|
                        exists|x: int| 0 <= x < i && self.keys@[x] == p.0 && #[trigger] self.sets@[x]@.contains(p.1),
                ),
                total == saturating_count(done.len()),
            decreases n - i,
        {
            let len = self.sets[i].len();
            proof {
                let k = self.keys@[i as int];
                let row_src = self.sets@[i as int]@;
                let f = |b: u32| (k, b);
                let row = row_src.map(f);
                assert(vstd::relations::injective_on(f, row_src));
                vstd::set_lib::lemma_map_size(row_src, row, f);
                assert(done.disjoint(row)) by {
                    assert forall|p: (u32, u32)| done.contains(p) implies !row.contains(p) by {
                        let x = choose|x: int| 0 <= x < i && self.keys@[x] == p.0 && #[trigger] self.sets@[x]@.contains(p.1);
                        assert(self.keys@[x] != self.keys@[i as int]);
                    }
                }
                vstd::set_lib::lemma_set_disjoint_lens(done, row);
                let next = Set::new(
                    |p: (u32, u32)|
                        exists|x: int| 0 <= x < i + 1 && self.keys@[x] == p.0 && #[trigger] self.sets@[x]@.contains(p.1),
                );
                assert(done + row =~= next) by {
                    assert forall|p: (u32, u32)| next.contains(p) implies (done + row).contains(p) by {
                        let x = choose|x: int| 0 <= x < i + 1 && self.keys@[x] == p.0 && #[trigger] self.sets@[x]@.contains(p.1);
                        if x == i {
                            assert(row_src.contains(p.1));
                            assert(f(p.1) == p);
                        }
                    }
                    assert forall|p: (u32, u32)| (done + row).contains(p) implies next.contains(p) by {
                        if row.contains(p) {
                            let b = choose|b: u32| row_src.contains(b) && f(b) == p;
                            assert(self.sets@[i as int]@.contains(p.1));
                        }
                    }
                }
                done = next;
            }
            total = total.saturating_add(len);
            i += 1;
        }
        proof {
            assert(done =~= edge_pairs(self@)) by {
                assert forall|p: (u32, u32)| edge_pairs(self@).contains(p) implies done.contains(p) by {
                    let x = self.keys@.index_of(p.0);
                    assert(self.keys@.contains(p.0));
                }
                assert forall|p: (u32, u32)| done.contains(p) implies edge_pairs(self@).contains(p) by {
                    let x = choose|x: int| 0 <= x < n && self.keys@[x] == p.0 && #[trigger] self.sets@[x]@.contains(p.1);
                    lemma_index_of_unique(self.keys@, x);
                }
            }
        }
        total
    }

    /// A copy of the map.
    pub fn duplicate(&self) -> (r: IdSetMap)
        ensures
            r@ == self@,
    {
        proof {
            use_type_invariant(self);
        }
        let n = self.keys.len();
        let mut keys: Vec<u32> = Vec::new();
        let mut sets: Vec<IdSet> = Vec::new();
        let mut i: usize = 0;
        while i < n
            invariant
                n == self.keys@.len(),
                n == self.sets@.len(),
                i <= n,
                keys@ == self.keys@.take(i as int),
                sets@.len() == i,
                forall|j: int| 0 <= j < i ==> #[trigger] sets@[j]@ == self.sets@[j]@,
            decreases n - i,
        {
            keys.push(self.keys[i]);
            sets.push(self.sets[i].duplicate());
            proof {
                assert(self.keys@.take(i + 1) =~= self.keys@.take(i as int).push(self.keys@[i as int]));
            }
            i += 1;
        }
        proof {
            assert(self.keys@.take(n as int) =~= self.keys@);
        }
        let r = IdSetMap { keys, sets };
        assert(r@ =~= self@);
        r
    }
}

} // verus!
