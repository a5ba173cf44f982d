use vstd::prelude::*;

verus! {

/// The values filed under key `k` of `m`, or none.
pub open spec fn filed<K, V>(m: Map<K, Set<V>>, k: K) -> Set<V> {
    if m.contains_key(k) {
        m[k]
    } else {
        Set::empty()
    }
}

/// The items of `ts` filed by `key`: each key that some item has, with the
/// `val` of every item that has it.
pub open spec fn index_by<T, K, V>(ts: Set<T>, key: spec_fn(T) -> K, val: spec_fn(T) -> V) -> Map<K, Set<V>> {
    Map::new(
        |k: K| exists|t: T| #[trigger] ts.contains(t) && key(t) == k,
        |k: K| Set::new(|v: V| exists|t: T| #[trigger] ts.contains(t) && key(t) == k && val(t) == v),
    )
}

/// Filing one more item adds its value under its key.
pub proof fn lemma_index_by_insert<T, K, V>(ts: Set<T>, key: spec_fn(T) -> K, val: spec_fn(T) -> V, t: T)
    ensures
        index_by(ts.insert(t), key, val) == index_by(ts, key, val).insert(
            key(t),
            filed(index_by(ts, key, val), key(t)).insert(val(t)),
        ),
{
    let lhs = index_by(ts.insert(t), key, val);
    let old = index_by(ts, key, val);
    let rhs = old.insert(key(t), filed(old, key(t)).insert(val(t)));
    assert forall|k: K| #[trigger] lhs.contains_key(k) <==> rhs.contains_key(k) by {
        if lhs.contains_key(k) && k != key(t) {
            let u = choose|u: T| #[trigger] ts.insert(t).contains(u) && key(u) == k;
            assert(ts.contains(u));
        }
        if rhs.contains_key(k) {
            if k == key(t) {
                assert(ts.insert(t).contains(t));
            } else {
                let u = choose|u: T| #[trigger] ts.contains(u) && key(u) == k;
                assert(ts.insert(t).contains(u));
            }
        }
    }
    assert forall|k: K| #[trigger] lhs.contains_key(k) implies lhs[k] == rhs[k] by {
        assert forall|v: V| lhs[k].contains(v) <==> rhs[k].contains(v) by {
            if lhs[k].contains(v) && !(k == key(t) && v == val(t)) {
                let u = choose|u: T| #[trigger] ts.insert(t).contains(u) && key(u) == k && val(u) == v;
                assert(ts.contains(u));
                assert(old.contains_key(k));
            }
            if rhs[k].contains(v) {
                if k == key(t) && v == val(t) {
                    assert(ts.insert(t).contains(t));
                } else {
                    assert(old.contains_key(k));
                    let u = choose|u: T| #[trigger] ts.contains(u) && key(u) == k && val(u) == v;
                    assert(ts.insert(t).contains(u));
                }
            }
        }
        assert(lhs[k] =~= rhs[k]);
    }
    assert(lhs =~= rhs);
}

/// Nothing filed in an empty set.
pub proof fn lemma_index_by_empty<T, K, V>(key: spec_fn(T) -> K, val: spec_fn(T) -> V)
    ensures
        index_by(Set::<T>::empty(), key, val) == Map::<K, Set<V>>::empty(),
{
    assert(index_by(Set::<T>::empty(), key, val) =~= Map::<K, Set<V>>::empty());
}

} // verus!
