use vstd::prelude::*;

use crate::closure_index::{ancestors, graph_nodes, successors, TaxonomyIndex};
use crate::dataset_index::{expanded_disjoint_classes, IndexedDataset};
use crate::idset::{IdSet, IdSetMap};

verus! {

/// The classes that can have no instance: `nothing` itself and every class
/// whose ancestors in `tax` include it.
pub open spec fn unsatisfiable_set(tax: Map<u32, Set<u32>>, nothing: u32) -> Set<u32> {
    Set::new(|c: u32| c == nothing || ancestors(tax, c).contains(nothing))
}

/// What the class consistency checks need, computed once per dataset:
/// the classes disjoint with each class and the unsatisfiable classes.
pub struct PreparedClassConsistency {
    effective_disjoint_targets_by_class: IdSetMap,
    unsatisfiable_classes: IdSet,
    owl_nothing_id: u32,
}

impl PreparedClassConsistency {
    /// The classes declared disjoint with each class; no class is mapped
    /// to an empty set.
    pub closed spec fn disjoint(&self) -> Map<u32, Set<u32>> {
        self.effective_disjoint_targets_by_class@
    }

    /// The unsatisfiable classes.
    pub closed spec fn unsatisfiable(&self) -> Set<u32> {
        self.unsatisfiable_classes@
    }

    /// The id of `owl:Nothing`.
    pub closed spec fn nothing(&self) -> u32 {
        self.owl_nothing_id
    }

    #[verifier::type_invariant]
    spec fn well_formed(self) -> bool {
        forall|c: u32| #[trigger] self.effective_disjoint_targets_by_class@.contains_key(c)
            ==> self.effective_disjoint_targets_by_class@[c] != Set::<u32>::empty()
    }

    /// Prepares the checks for `index` with the class hierarchy `taxonomy`.
    pub fn build(index: &IndexedDataset, taxonomy: &TaxonomyIndex) -> (r: PreparedClassConsistency)
        ensures
            r.nothing() == index.vocab().owl_nothing_id,
            r.unsatisfiable() == unsatisfiable_set(taxonomy.edges(), r.nothing()),
            forall|c: u32| #[trigger] successors(r.disjoint(), c) == successors(expanded_disjoint_classes(index.vocab(), index.source()), c),
    {
        let owl_nothing_id = index.owl_nothing_id();
        let ghost tax = taxonomy.edges();
        let mut unsatisfiable_classes = IdSet::new();
        unsatisfiable_classes.insert(owl_nothing_id);
        let nodes = taxonomy.nodes().as_slice();
        let n = nodes.len();
        let mut i: usize = 0;
        while i < n
            invariant
                n == nodes@.len(),
                nodes@.to_set() == graph_nodes(tax),
                tax == taxonomy.edges(),
                i <= n,
                unsatisfiable_classes@ == Set::new(
                    |c: u32| c == owl_nothing_id || (nodes@.take(i as int).contains(c) && ancestors(tax, c).contains(owl_nothing_id)),
                ),
            decreases n - i,
        {
            let c = nodes[i];
            let closes = match taxonomy.ancestors_of(c) {
                Some(set) => set.contains(owl_nothing_id),
                None => false,
            };
            proof {
                crate::idset::lemma_take_succ_to_set(nodes@, i as int);
                assert(nodes@.to_set().contains(c));
            }
            if closes {
                unsatisfiable_classes.insert(c);
            }
            proof {
                assert forall|d: u32| nodes@.take(i + 1).contains(d) <==> (nodes@.take(i as int).contains(d) || d == c) by {
                    assert(nodes@.take(i + 1).to_set() == nodes@.take(i as int).to_set().insert(c));
                    assert(nodes@.take(i + 1).contains(d) <==> nodes@.take(i + 1).to_set().contains(d));
                    assert(nodes@.take(i as int).contains(d) <==> nodes@.take(i as int).to_set().contains(d));
                }
                assert(unsatisfiable_classes@ =~= Set::new(
                    |d: u32| d == owl_nothing_id || (nodes@.take(i + 1).contains(d) && ancestors(tax, d).contains(owl_nothing_id)),
                ));
            }
            i += 1;
        }
        proof {
            assert(nodes@.take(n as int) =~= nodes@);
            assert forall|c: u32| ancestors(tax, c).contains(owl_nothing_id) implies nodes@.contains(c) by {
                crate::property_closure::lemma_reached_from_node(tax, c, owl_nothing_id);
                assert(nodes@.to_set().contains(c));
            }
            assert(unsatisfiable_classes@ =~= unsatisfiable_set(tax, owl_nothing_id));
        }
        let pairs = index.disjoint_class_pairs();
        let ghost dis = pairs@;
        let keys = pairs.keys();
        let m = keys.len();
        let mut targets_by_class = IdSetMap::new();
        let mut j: usize = 0;
        while j < m
            invariant
                m == keys@.len(),
                keys@.no_duplicates(),
                keys@.to_set() == dis.dom(),
                dis == pairs@,
                j <= m,
                forall|c: u32| #[trigger] targets_by_class@.contains_key(c) ==> targets_by_class@[c] != Set::<u32>::empty(),
                forall|c: u32| #[trigger] successors(targets_by_class@, c) == (if keys@.take(j as int).contains(c) {
                    successors(dis, c)
                } else {
                    Set::<u32>::empty()
                }),
                forall|c: u32| #[trigger] targets_by_class@.contains_key(c) ==> keys@.take(j as int).contains(c),
            decreases m - j,
        {
            let c = keys[j];
            proof {
                crate::idset::lemma_take_succ_to_set(keys@, j as int);
                assert(keys@.to_set().contains(c));
                assert(!keys@.take(j as int).contains(c)) by {
                    if keys@.take(j as int).contains(c) {
                        let k = choose|k: int| 0 <= k < j && keys@.take(j as int)[k] == c;
                        assert(keys@[k] == keys@[j as int]);
                    }
                }
            }
            let ghost before = targets_by_class@;
            match pairs.get(c) {
                Some(set) => {
                    if !set.is_empty() {
                        targets_by_class.put(c, set.duplicate());
                    }
                },
                None => {},
            }
            proof {
                assert forall|d: u32| keys@.take(j + 1).contains(d) <==> (keys@.take(j as int).contains(d) || d == c) by {
                    assert(keys@.take(j + 1).to_set() == keys@.take(j as int).to_set().insert(c));
                    assert(keys@.take(j + 1).contains(d) <==> keys@.take(j + 1).to_set().contains(d));
                    assert(keys@.take(j as int).contains(d) <==> keys@.take(j as int).to_set().contains(d));
                }
                assert forall|d: u32| #[trigger] successors(targets_by_class@, d) == (if keys@.take(j + 1).contains(d) {
                    successors(dis, d)
                } else {
                    Set::<u32>::empty()
                }) by {
                    if d != c {
                        assert(successors(targets_by_class@, d) == successors(before, d));
                    }
                }
            }
            j += 1;
        }
        proof {
            assert(keys@.take(m as int) =~= keys@);
            assert forall|c: u32| #[trigger] successors(targets_by_class@, c) == successors(dis, c) by {
                if !keys@.contains(c) {
                    assert(!keys@.to_set().contains(c));
                }
            }
        }
        PreparedClassConsistency {
            effective_disjoint_targets_by_class: targets_by_class,
            unsatisfiable_classes,
            owl_nothing_id,
        }
    }

    /// The classes declared disjoint with `class_id`, if there are any.
    pub fn effective_disjoint_targets(&self, class_id: u32) -> (r: Option<&IdSet>)
        ensures
            r is Some <==> successors(self.disjoint(), class_id) != Set::<u32>::empty(),
            r matches Some(s) ==> s@ == successors(self.disjoint(), class_id),
    {
        proof {
            use_type_invariant(self);
        }
        self.effective_disjoint_targets_by_class.get(class_id)
    }

    /// The unsatisfiable classes.
    pub fn unsatisfiable_classes(&self) -> (r: &IdSet)
        ensures
            r@ == self.unsatisfiable(),
    {
        &self.unsatisfiable_classes
    }

    /// The id of `owl:Nothing`.
    pub fn owl_nothing_id(&self) -> (r: u32)
        ensures
            r == self.nothing(),
    {
        self.owl_nothing_id
    }
}

} // verus!
