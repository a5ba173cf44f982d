use vstd::prelude::*;

verus! {

/// A map from class ids to values (origins), in increasing order of class
/// id.
pub struct OriginMap<V> {
    keys: Vec<u32>,
    values: Vec<V>,
}

impl<V> View for OriginMap<V> {
    type V = Map<u32, V>;

    open spec fn view(&self) -> Map<u32, V> {
        Map::new(
            |k: u32| self.key_seq().contains(k),
            |k: u32| self.value_seq()[self.key_seq().index_of(k)],
        )
    }
}

impl<V> OriginMap<V> {
    /// The keys, in increasing order.
    pub closed spec fn key_seq(&self) -> Seq<u32> {
        self.keys@
    }

    /// The values, aligned with the keys.
    pub closed spec fn value_seq(&self) -> Seq<V> {
        self.values@
    }

    /// The keys are in increasing order and aligned with the values.
    pub closed spec fn wf(&self) -> bool {
        &&& self.keys@.len() == self.values@.len()
        &&& crate::idset::strictly_increasing(self.keys@)
    }

    /// The empty map.
    pub fn new() -> (r: OriginMap<V>)
        ensures
            r.wf(),
            r@ == Map::<u32, V>::empty(),
    {
        let r = OriginMap { keys: Vec::new(), values: Vec::new() };
        assert(r@ =~= Map::<u32, V>::empty());
        r
    }

    /// The keys, in increasing order.
    pub fn keys(&self) -> (r: &[u32])
        requires
            self.wf(),
        ensures
            r@ == self.key_seq(),
            r@.no_duplicates(),
            crate::idset::strictly_increasing(r@),
            r@.to_set() == self@.dom(),
            r@.len() == self.value_seq().len(),
    {
        proof {
            crate::idset::lemma_increasing_no_duplicates(self.keys@);
        }
        assert(self.keys@.to_set() =~= self@.dom());
        self.keys.as_slice()
    }

    /// The value at position `i`.
    pub fn value_at(&self, i: usize) -> (r: &V)
        requires
            self.wf(),
            i < self.key_seq().len(),
        ensures
            self@.contains_key(self.key_seq()[i as int]),
            *r == self@[self.key_seq()[i as int]],
    {
        proof {
            crate::idset::lemma_increasing_no_duplicates(self.keys@);
            crate::idset::lemma_index_of_unique(self.keys@, i as int);
        }
        &self.values[i]
    }

    fn find(&self, k: u32) -> (r: Option<usize>)
        requires
            self.wf(),
        ensures
            r is None <==> !self@.contains_key(k),
            r matches Some(i) ==> i < self.key_seq().len() && self.key_seq()[i as int] == k,
    {
        let n = self.keys.len();
        let mut i: usize = 0;
        while i < n
            invariant
                n == self.keys@.len(),
                i <= n,
                forall|j: int| 0 <= j < i ==> self.keys@[j] != k,
            decreases n - i,
        {
            if self.keys[i] == k {
                return Some(i);
            }
            i += 1;
        }
        None
    }

    /// The value under `k`, if any.
    pub fn get(&self, k: u32) -> (r: Option<&V>)
        requires
            self.wf(),
        ensures
            r is None <==> !self@.contains_key(k),
            r matches Some(v) ==> self@.contains_key(k) && *v == self@[k],
    {
        match self.find(k) {
            Some(i) => {
                proof {
                    crate::idset::lemma_increasing_no_duplicates(self.keys@);
                    crate::idset::lemma_index_of_unique(self.keys@, i as int);
                }
                Some(&self.values[i])
            },
            None => None,
        }
    }

    /// Stores `v` under `k`, replacing any value there.
    pub fn set(&mut self, k: u32, v: V)
        requires
            old(self).wf(),
        ensures
            final(self).wf(),
            final(self)@ == old(self)@.insert(k, v),
    {
        proof {
            crate::idset::lemma_increasing_no_duplicates(self.keys@);
        }
        match self.find(k) {
            Some(i) => {
                let ghost old_keys = self.keys@;
                let ghost old_values = self.values@;
                self.values.set(i, v);
                proof {
                    crate::idset::lemma_index_of_unique(old_keys, i as int);
                    assert forall|j: u32| #[trigger] self@.contains_key(j) implies self@[j] == old(self)@.insert(k, v)[j] by {
                        if j != k {
                            let x = old_keys.index_of(j);
                            crate::idset::lemma_index_of_unique(old_keys, x);
                        }
                    }
                    assert(self@ =~= old(self)@.insert(k, v));
                }
            },
            None => {
                let ghost old_keys = self.keys@;
                let ghost old_values = self.values@;
                let n = self.keys.len();
                let mut p: usize = 0;
                while p < n && self.keys[p] < k
                    invariant
                        n == self.keys@.len(),
                        self.keys@ == old_keys,
                        p <= n,
                        forall|j: int| 0 <= j < p ==> old_keys[j] < k,
                    decreases n - p,
                {
                    p += 1;
                }
                proof {
                    assert forall|j: int| p <= j < n implies k < old_keys[j] by {
                        assert(old_keys[j] != k) by {
                            assert(!old_keys.contains(k));
                        }
                        if j > p {
                            assert(old_keys[p as int] < old_keys[j]);
                        }
                    }
                }
                self.keys.insert(p, k);
                self.values.insert(p, v);
                proof {
                    let nk = self.keys@;
                    assert(nk == old_keys.insert(p as int, k));
                    assert(crate::idset::strictly_increasing(nk)) by {
                        assert forall|a: int, b: int| 0 <= a < b < nk.len() implies nk[a] < nk[b] by {
                            if b < p {
                                assert(nk[a] == old_keys[a] && nk[b] == old_keys[b]);
                            } else if b == p {
                                assert(nk[a] == old_keys[a]);
                            } else if a < p {
                                assert(nk[a] == old_keys[a] && nk[b] == old_keys[b - 1]);
                            } else if a == p {
                                assert(nk[b] == old_keys[b - 1]);
                            } else {
                                assert(nk[a] == old_keys[a - 1] && nk[b] == old_keys[b - 1]);
                            }
                        }
                    }
                    crate::idset::lemma_increasing_no_duplicates(nk);
                    crate::pairs::lemma_insert_to_set(old_keys, p as int, k);
                    assert forall|j: u32| self@.contains_key(j) <==> old(self)@.insert(k, v).contains_key(j) by {
                        assert(nk.contains(j) <==> nk.to_set().contains(j));
                        assert(old_keys.contains(j) <==> old_keys.to_set().contains(j));
                    }
                    assert forall|j: u32| #[trigger] self@.contains_key(j) implies self@[j] == old(self)@.insert(k, v)[j] by {
                        if j == k {
                            assert(nk[p as int] == k);
                            crate::idset::lemma_index_of_unique(nk, p as int);
                        } else {
                            assert(old_keys.contains(j)) by {
                                assert(nk.to_set().contains(j));
                            }
                            let x = old_keys.index_of(j);
                            crate::idset::lemma_index_of_unique(old_keys, x);
                            if x < p {
                                assert(nk[x] == j);
                                crate::idset::lemma_index_of_unique(nk, x);
                                assert(self.values@[x] == old_values[x]);
                            } else {
                                assert(nk[x + 1] == j);
                                crate::idset::lemma_index_of_unique(nk, x + 1);
                                assert(self.values@[x + 1] == old_values[x]);
                            }
                        }
                    }
                    assert(self@ =~= old(self)@.insert(k, v));
                }
            },
        }
    }
}

/// A map from instance ids to their class maps, in insertion order.
pub struct InstanceMap<V> {
    keys: Vec<u32>,
    maps: Vec<OriginMap<V>>,
}

impl<V> View for InstanceMap<V> {
    type V = Map<u32, Map<u32, V>>;

    open spec fn view(&self) -> Map<u32, Map<u32, V>> {
        Map::new(
            |k: u32| self.key_seq().contains(k),
            |k: u32| self.map_seq()[self.key_seq().index_of(k)]@,
        )
    }
}

impl<V> InstanceMap<V> {
    /// The instance ids, in insertion order.
    pub closed spec fn key_seq(&self) -> Seq<u32> {
        self.keys@
    }

    /// The class maps, aligned with the instance ids.
    pub closed spec fn map_seq(&self) -> Seq<OriginMap<V>> {
        self.maps@
    }

    /// The instance ids are distinct and aligned with well-formed maps.
    pub closed spec fn wf(&self) -> bool {
        &&& self.keys@.len() == self.maps@.len()
        &&& self.keys@.no_duplicates()
        &&& forall|i: int| 0 <= i < self.maps@.len() ==> (#[trigger] self.maps@[i]).wf()
    }

    /// The empty map.
    pub fn new() -> (r: InstanceMap<V>)
        ensures
            r.wf(),
            r@ == Map::<u32, Map<u32, V>>::empty(),
    {
        let r = InstanceMap { keys: Vec::new(), maps: Vec::new() };
        assert(r@ =~= Map::<u32, Map<u32, V>>::empty());
        r
    }

    /// The instance ids.
    pub fn keys(&self) -> (r: &[u32])
        requires
            self.wf(),
        ensures
            r@ == self.key_seq(),
            r@.no_duplicates(),
            r@.to_set() == self@.dom(),
            r@.len() == self.map_seq().len(),
    {
        assert(self.keys@.to_set() =~= self@.dom());
        self.keys.as_slice()
    }

    /// The class map at position `i`.
    pub fn map_at(&self, i: usize) -> (r: &OriginMap<V>)
        requires
            self.wf(),
            i < self.key_seq().len(),
        ensures
            r.wf(),
            self@.contains_key(self.key_seq()[i as int]),
            r@ == self@[self.key_seq()[i as int]],
    {
        proof {
            crate::idset::lemma_index_of_unique(self.keys@, i as int);
        }
        &self.maps[i]
    }

    fn find(&self, k: u32) -> (r: Option<usize>)
        requires
            self.wf(),
        ensures
            r is None <==> !self@.contains_key(k),
            r matches Some(i) ==> i < self.key_seq().len() && self.key_seq()[i as int] == k,
    {
        let n = self.keys.len();
        let mut i: usize = 0;
        while i < n
            invariant
                n == self.keys@.len(),
                i <= n,
                forall|j: int| 0 <= j < i ==> self.keys@[j] != k,
            decreases n - i,
        {
            if self.keys[i] == k {
                return Some(i);
            }
            i += 1;
        }
        None
    }

    /// The class map of `k`, if any.
    pub fn get(&self, k: u32) -> (r: Option<&OriginMap<V>>)
        requires
            self.wf(),
        ensures
            r is None <==> !self@.contains_key(k),
            r matches Some(m) ==> m.wf() && self@.contains_key(k) && m@ == self@[k],
    {
        match self.find(k) {
            Some(i) => {
                proof {
                    crate::idset::lemma_index_of_unique(self.keys@, i as int);
                }
                Some(&self.maps[i])
            },
            None => None,
        }
    }

    /// Stores `v` under class `c` of instance `k`.
    pub fn set(&mut self, k: u32, c: u32, v: V)
        requires
            old(self).wf(),
        ensures
            final(self).wf(),
            final(self)@ == old(self)@.insert(
                k,
                (if old(self)@.contains_key(k) {
                    old(self)@[k]
                } else {
                    Map::empty()
                }).insert(c, v),
            ),
    {
        let ghost old_keys = self.keys@;
        let ghost old_maps = self.maps@;
        match self.find(k) {
            Some(i) => {
                proof {
                    crate::idset::lemma_index_of_unique(old_keys, i as int);
                }
                let mut inner = OriginMap::new();
                std::mem::swap(&mut inner, &mut self.maps[i]);
                inner.set(c, v);
                std::mem::swap(&mut inner, &mut self.maps[i]);
                proof {
                    assert(self.keys@ == old_keys);
                    assert forall|j: int| 0 <= j < self.maps@.len() implies (#[trigger] self.maps@[j]).wf() by {
                        if j != i {
                            assert(self.maps@[j] == old_maps[j]);
                        }
                    }
                    assert forall|j: u32| #[trigger] self@.contains_key(j) implies self@[j] == old(self)@.insert(k, old(self)@[k].insert(c, v))[j] by {
                        if j != k {
                            let x = old_keys.index_of(j);
                            crate::idset::lemma_index_of_unique(old_keys, x);
                            assert(x != i);
                            assert(self.maps@[x] == old_maps[x]);
                        }
                    }
                    assert(self@ =~= old(self)@.insert(k, old(self)@[k].insert(c, v)));
                }
            },
            None => {
                let mut inner = OriginMap::new();
                inner.set(c, v);
                self.keys.push(k);
                self.maps.push(inner);
                proof {
                    let n = old_keys.len() as int;
                    assert(!old_keys.contains(k));
                    crate::idset::lemma_index_of_unique(self.keys@, n);
                    assert(Map::<u32, V>::empty().insert(c, v) =~= self.maps@[n]@);
                    assert forall|j: int| 0 <= j < self.maps@.len() implies (#[trigger] self.maps@[j]).wf() by {
                        if j < n {
                            assert(self.maps@[j] == old_maps[j]);
                        }
                    }
                    assert forall|j: u32| self@.contains_key(j) <==> old(self)@.insert(k, Map::<u32, V>::empty().insert(c, v)).contains_key(j) by {
                        if j != k && self@.contains_key(j) {
                            let x = choose|x: int| 0 <= x < self.keys@.len() && self.keys@[x] == j;
                            assert(old_keys[x] == j);
                        }
                        if old(self)@.contains_key(j) {
                            let x = choose|x: int| 0 <= x < old_keys.len() && old_keys[x] == j;
                            assert(self.keys@[x] == j);
                        }
                    }
                    assert forall|j: u32| #[trigger] self@.contains_key(j) implies self@[j] == old(self)@.insert(k, Map::<u32, V>::empty().insert(c, v))[j] by {
                        if j != k {
                            let x = choose|x: int| 0 <= x < self.keys@.len() && self.keys@[x] == j;
                            assert(old_keys[x] == j);
                            crate::idset::lemma_index_of_unique(old_keys, x);
                            crate::idset::lemma_index_of_unique(self.keys@, x);
                            assert(self.maps@[x] == old_maps[x]);
                        }
                    }
                    assert(self@ =~= old(self)@.insert(k, Map::<u32, V>::empty().insert(c, v)));
                }
            },
        }
    }
}

} // verus!
