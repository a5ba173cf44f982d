use vstd::prelude::*;
use vstd::set::fold::{is_fun_commutative, lemma_fold_empty, lemma_fold_insert};

use crate::dataset_index::group_axioms::resolve_or_unknown;
use crate::idset::{IdSet, IdSetMap};
use crate::symbols::SymbolTable;

verus! {

/// The FNV-1a offset basis.
pub const FNV_OFFSET: u64 = 0xcbf2_9ce4_8422_2325;

/// The FNV-1a prime.
pub const FNV_PRIME: u64 = 0x0000_0100_0000_01b3;

/// Separates the two terms of an entry in its hash.
pub const TERM_SEPARATOR: u64 = 0xffff_ffff;

/// One FNV-1a step.
pub open spec fn fnv_step(h: u64, x: u64) -> u64 {
    (h ^ x).wrapping_mul(FNV_PRIME)
}

/// FNV-1a over the code points of `s`, starting from `h`.
pub open spec fn fnv_chars(h: u64, s: Seq<char>) -> u64
    decreases s.len(),
{
    if s.len() == 0 {
        h
    } else {
        fnv_step(fnv_chars(h, s.drop_last()), (s.last() as u32) as u64)
    }
}

/// The hash of a schema entry: its tag and its two terms.
pub open spec fn entry_hash(tag: u64, a: Seq<char>, b: Seq<char>) -> u64 {
    fnv_chars(fnv_step(fnv_chars(fnv_step(FNV_OFFSET, tag), a), TERM_SEPARATOR), b)
}

/// A schema entry: the tag of the schema part and two term ids.
pub type SchemaEntry = (u64, u32, u32);

/// The hash of entry `e` with its ids resolved in `terms`.
pub open spec fn entry_value(terms: Seq<Seq<char>>, e: SchemaEntry) -> u64 {
    entry_hash(e.0, resolve_or_unknown(terms, e.1), resolve_or_unknown(terms, e.2))
}

/// Adds the hash of an entry to the running key.
pub open spec fn fingerprint_step(terms: Seq<Seq<char>>) -> spec_fn(u64, SchemaEntry) -> u64 {
    |acc: u64, e: SchemaEntry| acc.wrapping_add(entry_value(terms, e))
}

/// The key of a set of schema entries: the wrapping sum of their hashes,
/// so that it does not depend on any order.
pub open spec fn schema_fingerprint(terms: Seq<Seq<char>>, entries: Set<SchemaEntry>) -> u64 {
    entries.fold(0u64, fingerprint_step(terms))
}

/// The entries `(tag, a, b)` of the edges `a -> b` of `m`.
pub open spec fn map_entries(tag: u64, m: Map<u32, Set<u32>>) -> Set<SchemaEntry> {
    Set::new(|e: SchemaEntry| e.0 == tag && m.contains_key(e.1) && m[e.1].contains(e.2))
}

/// The entries `(tag, x, x)` of the members `x` of `s`.
pub open spec fn set_entries(tag: u64, s: Set<u32>) -> Set<SchemaEntry> {
    Set::new(|e: SchemaEntry| e.0 == tag && s.contains(e.1) && e.2 == e.1)
}

proof fn lemma_step_commutative(terms: Seq<Seq<char>>)
    ensures
        is_fun_commutative(fingerprint_step(terms)),
{
    let f = fingerprint_step(terms);
    assert forall|a1: SchemaEntry, a2: SchemaEntry, b: u64| #[trigger] f(f(b, a2), a1) == f(f(b, a1), a2) by {
        let h1 = entry_value(terms, a1);
        let h2 = entry_value(terms, a2);
        assert(f(b, a2) == b.wrapping_add(h2));
        assert(f(b, a1) == b.wrapping_add(h1));
    }
}

/// FNV-1a over the code points of `s`, starting from `h`.
fn hash_chars(h: u64, s: &str) -> (r: u64)
    ensures
        r == fnv_chars(h, s@),
{
    let mut acc = h;
    for c in it: s.chars()
        invariant
            it.seq() == s@,
            acc == fnv_chars(h, s@.take(it.index() as int)),
    {
        proof {
            let pre = s@.take(it.index() as int);
            assert(c == s@[it.index() as int]);
            assert(s@.take(it.index() + 1).drop_last() =~= pre);
            assert(s@.take(it.index() + 1).last() == c);
        }
        acc = (acc ^ ((c as u32) as u64)).wrapping_mul(FNV_PRIME);
    }
    proof {
        assert(s@.take(s@.len() as int) =~= s@);
    }
    acc
}

/// The hash of the entry `(tag, a, b)` with its ids resolved.
fn hash_entry(symbols: &SymbolTable, tag: u64, a: u32, b: u32) -> (r: u64)
    ensures
        r == entry_value(symbols@, (tag, a, b)),
{
    let a_text = match symbols.resolve(a) {
        Some(t) => t,
        None => "<unknown>",
    };
    let b_text = match symbols.resolve(b) {
        Some(t) => t,
        None => "<unknown>",
    };
    let h0 = (FNV_OFFSET ^ tag).wrapping_mul(FNV_PRIME);
    let h1 = hash_chars(h0, a_text);
    let h2 = (h1 ^ TERM_SEPARATOR).wrapping_mul(FNV_PRIME);
    hash_chars(h2, b_text)
}

/// Adds the entries of the edges of `m`, tagged `tag`, to the key `acc`
/// of the entries `done`.
fn add_map_entries(symbols: &SymbolTable, tag: u64, m: &IdSetMap, acc: u64, Ghost(done): Ghost<Set<SchemaEntry>>) -> (r: u64)
    requires
        done.finite(),
        forall|e: SchemaEntry| #[trigger] done.contains(e) ==> e.0 != tag,
        acc == schema_fingerprint(symbols@, done),
    ensures
        r == schema_fingerprint(symbols@, done.union(map_entries(tag, m@))),
        done.union(map_entries(tag, m@)).finite(),
{
    proof {
        lemma_step_commutative(symbols@);
    }
    let keys = m.keys();
    let n = keys.len();
    let mut total = acc;
    let mut i: usize = 0;
    let ghost mut seen: Set<SchemaEntry> = done;
    while i < n
        invariant
            n == keys@.len(),
            n == m.set_seq().len(),
            keys@ == m.key_seq(),
            keys@.no_duplicates(),
            i <= n,
            is_fun_commutative(fingerprint_step(symbols@)),
            seen.finite(),
            forall|e: SchemaEntry| #[trigger] done.contains(e) ==> e.0 != tag,
            seen == done.union(Set::new(|e: SchemaEntry| e.0 == tag && exists|x: int| 0 <= x < i && keys@[x] == e.1 && m@[e.1].contains(e.2))),
            total == schema_fingerprint(symbols@, seen),
        decreases n - i,
    {
        let k = m.key_at(i);
        let items = m.set_at(i).as_slice();
        let c = items.len();
        let mut j: usize = 0;
        let ghost row_start = seen;
        while j < c
            invariant
                n == keys@.len(),
                keys@ == m.key_seq(),
                keys@.no_duplicates(),
                i < n,
                k == keys@[i as int],
                m@.contains_key(k),
                items@.to_set() == m@[k],
                items@.no_duplicates(),
                c == items@.len(),
                j <= c,
                is_fun_commutative(fingerprint_step(symbols@)),
                seen.finite(),
                forall|e: SchemaEntry| #[trigger] done.contains(e) ==> e.0 != tag,
                row_start == done.union(Set::new(|e: SchemaEntry| e.0 == tag && exists|x: int| 0 <= x < i && keys@[x] == e.1 && m@[e.1].contains(e.2))),
                seen == row_start.union(Set::new(|e: SchemaEntry| e.0 == tag && e.1 == k && exists|y: int| 0 <= y < j && items@[y] == e.2)),
                total == schema_fingerprint(symbols@, seen),
            decreases c - j,
        {
            let b = items[j];
            let e: SchemaEntry = (tag, k, b);
            proof {
                assert(!seen.contains(e)) by {
                    if row_start.contains(e) {
                        if done.contains(e) {
                        } else {
                            let x = choose|x: int| 0 <= x < i && keys@[x] == e.1 && m@[e.1].contains(e.2);
                            assert(keys@[x] == keys@[i as int]);
                        }
                    } else if seen.contains(e) {
                        let y = choose|y: int| 0 <= y < j && items@[y] == e.2;
                        assert(items@[y] == items@[j as int]);
                    }
                }
                lemma_fold_insert(seen, 0u64, fingerprint_step(symbols@), e);
            }
            let h = hash_entry(symbols, tag, k, b);
            total = total.wrapping_add(h);
            proof {
                let next = row_start.union(Set::new(|e2: SchemaEntry| e2.0 == tag && e2.1 == k && exists|y: int| 0 <= y < j + 1 && items@[y] == e2.2));
                assert(seen.insert(e) =~= next) by {
                    assert forall|e2: SchemaEntry| next.contains(e2) implies seen.insert(e).contains(e2) by {
                        if !row_start.contains(e2) && e2 != e {
                            let y = choose|y: int| 0 <= y < j + 1 && items@[y] == e2.2;
                            assert(y != j);
                        }
                    }
                }
                seen = next;
            }
            j += 1;
        }
        proof {
            let next = done.union(Set::new(|e: SchemaEntry| e.0 == tag && exists|x: int| 0 <= x < i + 1 && keys@[x] == e.1 && m@[e.1].contains(e.2)));
            assert(seen =~= next) by {
                assert forall|e: SchemaEntry| seen.contains(e) implies next.contains(e) by {
                    if !row_start.contains(e) {
                        let y = choose|y: int| 0 <= y < c && items@[y] == e.2;
                        assert(items@.to_set().contains(e.2));
                        assert(keys@[i as int] == e.1);
                    } else if !done.contains(e) {
                        let x = choose|x: int| 0 <= x < i && keys@[x] == e.1 && m@[e.1].contains(e.2);
                        assert(0 <= x < i + 1);
                    }
                }
                assert forall|e: SchemaEntry| next.contains(e) implies seen.contains(e) by {
                    if !done.contains(e) {
                        let x = choose|x: int| 0 <= x < i + 1 && keys@[x] == e.1 && m@[e.1].contains(e.2);
                        if x == i {
                            assert(items@.to_set().contains(e.2));
                            let y = choose|y: int| 0 <= y < c && items@[y] == e.2;
                        } else {
                            assert(row_start.contains(e));
                        }
                    }
                }
            }
        }
        i += 1;
    }
    proof {
        assert(seen =~= done.union(map_entries(tag, m@))) by {
            assert forall|e: SchemaEntry| map_entries(tag, m@).contains(e) implies seen.contains(e) by {
                assert(m@.dom().contains(e.1));
                assert(keys@.to_set().contains(e.1));
                let x = choose|x: int| 0 <= x < n && keys@[x] == e.1;
            }
        }
    }
    total
}

/// Adds the entries of the members of `s`, tagged `tag`, to the key `acc`
/// of the entries `done`.
fn add_set_entries(symbols: &SymbolTable, tag: u64, s: &IdSet, acc: u64, Ghost(done): Ghost<Set<SchemaEntry>>) -> (r: u64)
    requires
        done.finite(),
        forall|e: SchemaEntry| #[trigger] done.contains(e) ==> e.0 != tag,
        acc == schema_fingerprint(symbols@, done),
    ensures
        r == schema_fingerprint(symbols@, done.union(set_entries(tag, s@))),
        done.union(set_entries(tag, s@)).finite(),
{
    proof {
        lemma_step_commutative(symbols@);
    }
    let items = s.as_slice();
    let c = items.len();
    let mut total = acc;
    let mut j: usize = 0;
    let ghost mut seen: Set<SchemaEntry> = done;
    while j < c
        invariant
            items@.to_set() == s@,
            items@.no_duplicates(),
            c == items@.len(),
            j <= c,
            is_fun_commutative(fingerprint_step(symbols@)),
            seen.finite(),
            forall|e: SchemaEntry| #[trigger] done.contains(e) ==> e.0 != tag,
            seen == done.union(Set::new(|e: SchemaEntry| e.0 == tag && e.2 == e.1 && exists|y: int| 0 <= y < j && items@[y] == e.1)),
            total == schema_fingerprint(symbols@, seen),
        decreases c - j,
    {
        let x = items[j];
        let e: SchemaEntry = (tag, x, x);
        proof {
            assert(!seen.contains(e)) by {
                if seen.contains(e) && !done.contains(e) {
                    let y = choose|y: int| 0 <= y < j && items@[y] == e.1;
                    assert(items@[y] == items@[j as int]);
                }
            }
            lemma_fold_insert(seen, 0u64, fingerprint_step(symbols@), e);
        }
        let h = hash_entry(symbols, tag, x, x);
        total = total.wrapping_add(h);
        proof {
            let next = done.union(Set::new(|e2: SchemaEntry| e2.0 == tag && e2.2 == e2.1 && exists|y: int| 0 <= y < j + 1 && items@[y] == e2.1));
            assert(seen.insert(e) =~= next) by {
                assert forall|e2: SchemaEntry| next.contains(e2) implies seen.insert(e).contains(e2) by {
                    if !done.contains(e2) && e2 != e {
                        let y = choose|y: int| 0 <= y < j + 1 && items@[y] == e2.1;
                        assert(y != j);
                    }
                }
            }
            seen = next;
        }
        j += 1;
    }
    proof {
        assert(seen =~= done.union(set_entries(tag, s@))) by {
            assert forall|e: SchemaEntry| set_entries(tag, s@).contains(e) implies seen.contains(e) by {
                assert(items@.to_set().contains(e.1));
                let y = choose|y: int| 0 <= y < c && items@[y] == e.1;
            }
        }
    }
    total
}

/// The schema entries of the maps `ms` (tagged by position) and the sets
/// `ss` (tagged by position after the maps).
pub open spec fn schema_entries(ms: Seq<Map<u32, Set<u32>>>, ss: Seq<Set<u32>>) -> Set<SchemaEntry> {
    Set::new(
        |e: SchemaEntry|
            (e.0 < ms.len() && map_entries(e.0, ms[e.0 as int]).contains(e)) || (ms.len() <= e.0 < ms.len()
                + ss.len() && set_entries(e.0, ss[e.0 - ms.len()]).contains(e)),
    )
}

/// The schema cache key of the schema maps `maps` and sets `sets`: a
/// fingerprint of every schema edge and member with its ids resolved to
/// terms, independent of the order in which they are stored.
pub fn schema_key(symbols: &SymbolTable, maps: &[&IdSetMap], sets: &[&IdSet]) -> (r: u64)
    requires
        maps@.len() + sets@.len() < 1000,
    ensures
        r == schema_fingerprint(
            symbols@,
            schema_entries(maps@.map_values(|m: &IdSetMap| m@), sets@.map_values(|s: &IdSet| s@)),
        ),
        schema_entries(maps@.map_values(|m: &IdSetMap| m@), sets@.map_values(|s: &IdSet| s@)).finite(),
{
    let ghost ms = maps@.map_values(|m: &IdSetMap| m@);
    let ghost ss = sets@.map_values(|s: &IdSet| s@);
    let nm = maps.len();
    let ns = sets.len();
    let mut total: u64 = 0;
    let ghost mut done: Set<SchemaEntry> = Set::empty();
    proof {
        lemma_fold_empty(0u64, fingerprint_step(symbols@));
    }
    let mut i: usize = 0;
    while i < nm
        invariant
            nm == maps@.len(),
            ns == sets@.len(),
            nm + ns < 1000,
            ms == maps@.map_values(|m: &IdSetMap| m@),
            i <= nm,
            done.finite(),
            done == Set::new(|e: SchemaEntry| e.0 < i && map_entries(e.0, ms[e.0 as int]).contains(e)),
            total == schema_fingerprint(symbols@, done),
        decreases nm - i,
    {
        let tag = i as u64;
        total = add_map_entries(symbols, tag, maps[i], total, Ghost(done));
        proof {
            let next = Set::new(|e: SchemaEntry| e.0 < i + 1 && map_entries(e.0, ms[e.0 as int]).contains(e));
            assert(done.union(map_entries(tag, maps@[i as int]@)) =~= next);
            done = next;
        }
        i += 1;
    }
    let mut j: usize = 0;
    while j < ns
        invariant
            nm == maps@.len(),
            ns == sets@.len(),
            nm + ns < 1000,
            ms == maps@.map_values(|m: &IdSetMap| m@),
            ss == sets@.map_values(|s: &IdSet| s@),
            j <= ns,
            done.finite(),
            done == Set::new(
                |e: SchemaEntry|
                    (e.0 < nm && map_entries(e.0, ms[e.0 as int]).contains(e)) || (nm <= e.0 < nm + j
                        && set_entries(e.0, ss[e.0 - nm]).contains(e)),
            ),
            total == schema_fingerprint(symbols@, done),
        decreases ns - j,
    {
        let tag = (nm + j) as u64;
        total = add_set_entries(symbols, tag, sets[j], total, Ghost(done));
        proof {
            let next = Set::new(
                |e: SchemaEntry|
                    (e.0 < nm && map_entries(e.0, ms[e.0 as int]).contains(e)) || (nm <= e.0 < nm + j + 1
                        && set_entries(e.0, ss[e.0 - nm]).contains(e)),
            );
            assert(done.union(set_entries(tag, sets@[j as int]@)) =~= next);
            done = next;
        }
        j += 1;
    }
    proof {
        assert(done =~= schema_entries(ms, ss));
    }
    total
}

/// Law: the schema key depends only on the schema entries with their ids
/// resolved to terms: two numberings of the terms under which every entry
/// resolves alike give the same key, whatever other terms (such as those
/// of the instance data) they number.
pub proof fn law_schema_key_depends_on_resolved_entries(
    t1: Seq<Seq<char>>,
    t2: Seq<Seq<char>>,
    entries: Set<SchemaEntry>,
)
    requires
        entries.finite(),
        forall|e: SchemaEntry| #[trigger]
            entries.contains(e) ==> resolve_or_unknown(t1, e.1) == resolve_or_unknown(t2, e.1) && resolve_or_unknown(
                t1,
                e.2,
            ) == resolve_or_unknown(t2, e.2),
    ensures
        schema_fingerprint(t1, entries) == schema_fingerprint(t2, entries),
    decreases entries.len(),
{
    if entries.len() == 0 {
        assert(entries =~= Set::<SchemaEntry>::empty());
        lemma_fold_empty(0u64, fingerprint_step(t1));
        lemma_fold_empty(0u64, fingerprint_step(t2));
    } else {
        let e = entries.choose();
        let rest = entries.remove(e);
        law_schema_key_depends_on_resolved_entries(t1, t2, rest);
        lemma_step_commutative(t1);
        lemma_step_commutative(t2);
        lemma_fold_insert(rest, 0u64, fingerprint_step(t1), e);
        lemma_fold_insert(rest, 0u64, fingerprint_step(t2), e);
        assert(rest.insert(e) =~= entries);
        assert(entry_value(t1, e) == entry_value(t2, e));
    }
}

} // verus!
